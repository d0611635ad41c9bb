//! Settings.

use vstd::prelude::*;

verus! {

#[derive(Debug, Clone)]
pub struct Config {
    pub verbose: bool,
    pub quiet: bool,
    pub sanitize_only: bool,
    pub unique_only: bool,
    pub sort_only: bool,
    pub combine_commit: bool,
    pub output: Option<String>,
    pub check: bool,
    pub backup: bool,
    pub backup_path: Option<String>,
    pub sort_main_group: bool,
    /// New UUIDs are carried over to the shared schemes.
    pub update_schemes: bool,
    pub watch: bool,
}

/// The settings that hold if none are given.
pub open spec fn is_default(c: Config) -> bool {
    &&& c.update_schemes
    &&& !c.verbose && !c.quiet && !c.sanitize_only && !c.unique_only && !c.sort_only
        && !c.combine_commit && !c.check && !c.backup && !c.sort_main_group && !c.watch
    &&& c.output is None
    &&& c.backup_path is None
}

impl Default for Config {
    /// Schemes are updated; nothing else is switched on.
    fn default() -> (c: Self)
        ensures
            is_default(c),
    {
        Config {
            verbose: false,
            quiet: false,
            sanitize_only: false,
            unique_only: false,
            sort_only: false,
            combine_commit: false,
            output: None,
            check: false,
            backup: false,
            backup_path: None,
            sort_main_group: false,
            update_schemes: true,
            watch: false,
        }
    }
}

impl Config {
    pub fn run_unique(&self) -> (r: bool)
        ensures
            r == !self.sort_only,
    {
        !self.sort_only
    }

    pub fn run_sort(&self) -> (r: bool)
        ensures
            r == !self.unique_only,
    {
        !self.unique_only
    }
}

/// The settings of a configuration file; those that it does not give are
/// missing.
#[derive(Debug, Default)]
pub struct TomlConfig {
    pub verbose: Option<bool>,
    pub quiet: Option<bool>,
    pub sanitize_only: Option<bool>,
    pub unique_only: Option<bool>,
    pub sort_only: Option<bool>,
    pub combine_commit: Option<bool>,
    pub sort_main_group: Option<bool>,
    pub update_schemes: Option<bool>,
    pub backup: Option<bool>,
    pub backup_path: Option<String>,
    pub watch: Option<bool>,
}

/// A setting, or what holds without it.
pub open spec fn or(setting: Option<bool>, default: bool) -> bool {
    match setting {
        Some(b) => b,
        None => default,
    }
}

fn setting_or(setting: Option<bool>, default: bool) -> (r: bool)
    ensures
        r == or(setting, default),
{
    match setting {
        Some(b) => b,
        None => default,
    }
}

impl TomlConfig {
    /// The settings with those of the file.
    pub fn into_config(self) -> (c: Config)
        ensures
            c.verbose == or(self.verbose, false),
            c.quiet == or(self.quiet, false),
            c.sanitize_only == or(self.sanitize_only, false),
            c.unique_only == or(self.unique_only, false),
            c.sort_only == or(self.sort_only, false),
            c.combine_commit == or(self.combine_commit, false),
            c.sort_main_group == or(self.sort_main_group, false),
            c.update_schemes == or(self.update_schemes, true),
            c.backup == or(self.backup, false),
            c.backup_path == self.backup_path,
            c.watch == or(self.watch, false),
            c.output is None,
            !c.check,
    {
        Config {
            verbose: setting_or(self.verbose, false),
            quiet: setting_or(self.quiet, false),
            sanitize_only: setting_or(self.sanitize_only, false),
            unique_only: setting_or(self.unique_only, false),
            sort_only: setting_or(self.sort_only, false),
            combine_commit: setting_or(self.combine_commit, false),
            output: None,
            check: false,
            backup: setting_or(self.backup, false),
            backup_path: self.backup_path,
            sort_main_group: setting_or(self.sort_main_group, false),
            update_schemes: setting_or(self.update_schemes, true),
            watch: setting_or(self.watch, false),
        }
    }
}

} // verus!
