//! What the command line decides.

use crate::config::{is_default, Config};
use crate::filesystem::Failure;
use crate::listing::{lists, sorted_set};
use crate::logger::LogLevel;
use crate::paths::{below, extension, extension_of, join};
use crate::pipeline::{fails, PipelineOutcome};
use crate::text::{
    contains, has_substring, owned, same, texts, to_chars, trim, trim_end, trimmed, trimmed_end,
};
use crate::uniquifier::concat;
use vstd::prelude::*;

verus! {

// ── Settings ─────────────────────────────────────────────────────────────────

/// The settings given on the command line; the others are missing.
pub struct Overrides {
    pub quiet: Option<bool>,
    pub verbose: Option<bool>,
    pub sanitize_only: Option<bool>,
    pub unique: Option<bool>,
    pub sort: Option<bool>,
    pub combine_commit: Option<bool>,
    pub check: Option<bool>,
    pub backup: Option<bool>,
    pub sort_main_group: Option<bool>,
    /// Schemes are left alone.
    pub no_update_schemes: Option<bool>,
    pub watch: Option<bool>,
    pub output: Option<String>,
    pub backup_path: Option<String>,
}

/// A setting of the command line, or else that of the file.
pub open spec fn over<T>(given: Option<T>, base: T) -> T {
    match given {
        Some(v) => v,
        None => base,
    }
}

/// A path of the command line, or else that of the file.
pub open spec fn over_opt<T>(given: Option<T>, base: Option<T>) -> Option<T> {
    match given {
        Some(v) => given,
        None => base,
    }
}

fn pick(given: Option<bool>, base: bool) -> (r: bool)
    ensures
        r == over(given, base),
{
    match given {
        Some(v) => v,
        None => base,
    }
}

fn pick_path(given: Option<String>, base: Option<String>) -> (r: Option<String>)
    ensures
        r == over_opt(given, base),
{
    if given.is_some() {
        given
    } else {
        base
    }
}

fn negated(given: Option<bool>) -> (r: Option<bool>)
    ensures
        r == match given {
            Some(v) => Some(!v),
            None => None,
        },
{
    match given {
        Some(v) => Some(!v),
        None => None,
    }
}

/// The settings: those of the command line before those of the file, and those
/// of the file before the defaults.
pub fn config_from_cli(cli: Overrides, base: Option<Config>) -> (c: Config)
    ensures
        base is Some ==> is_config(c, cli, base->Some_0),
        base is None ==> exists|b: Config| is_default(b) && #[trigger] is_config(c, cli, b),
{
    match base {
        Some(b) => merged(cli, b),
        None => merged(cli, Config::default()),
    }
}

/// The settings of the command line before those of the file.
fn merged(cli: Overrides, b: Config) -> (c: Config)
    ensures
        is_config(c, cli, b),
{
    Config {
        verbose: pick(cli.verbose, b.verbose),
        quiet: pick(cli.quiet, b.quiet),
        sanitize_only: pick(cli.sanitize_only, b.sanitize_only),
        unique_only: pick(cli.unique, b.unique_only),
        sort_only: pick(cli.sort, b.sort_only),
        combine_commit: pick(cli.combine_commit, b.combine_commit),
        output: pick_path(cli.output, b.output),
        check: pick(cli.check, b.check),
        backup: pick(cli.backup, b.backup),
        backup_path: pick_path(cli.backup_path, b.backup_path),
        sort_main_group: pick(cli.sort_main_group, b.sort_main_group),
        update_schemes: pick(negated(cli.no_update_schemes), b.update_schemes),
        watch: pick(cli.watch, b.watch),
    }
}

/// `c` is `base` with the settings of the command line.
pub open spec fn is_config(c: Config, cli: Overrides, base: Config) -> bool {
    &&& c.quiet == over(cli.quiet, base.quiet)
    &&& c.verbose == over(cli.verbose, base.verbose)
    &&& c.sanitize_only == over(cli.sanitize_only, base.sanitize_only)
    &&& c.unique_only == over(cli.unique, base.unique_only)
    &&& c.sort_only == over(cli.sort, base.sort_only)
    &&& c.combine_commit == over(cli.combine_commit, base.combine_commit)
    &&& c.check == over(cli.check, base.check)
    &&& c.backup == over(cli.backup, base.backup)
    &&& c.sort_main_group == over(cli.sort_main_group, base.sort_main_group)
    &&& c.update_schemes == match cli.no_update_schemes {
        Some(v) => !v,
        None => base.update_schemes,
    }
    &&& c.watch == over(cli.watch, base.watch)
    &&& c.output == over_opt(cli.output, base.output)
    &&& c.backup_path == over_opt(cli.backup_path, base.backup_path)
}

/// How much is said: being quiet goes before being verbose.
pub fn log_level(config: &Config) -> (l: LogLevel)
    ensures
        l == if config.quiet {
            LogLevel::Quiet
        } else if config.verbose {
            LogLevel::Verbose
        } else {
            LogLevel::Normal
        },
{
    if config.quiet {
        LogLevel::Quiet
    } else if config.verbose {
        LogLevel::Verbose
    } else {
        LogLevel::Normal
    }
}

// ── Paths ────────────────────────────────────────────────────────────────────

/// What a path leads to.
#[derive(Debug, Clone, Copy, PartialEq, Eq)]
pub enum PathKind {
    File,
    Directory,
    Other,
}

/// The project file inside a bundle.
pub open spec fn inner_file(bundle: Seq<char>) -> Seq<char> {
    below(bundle, "project.pbxproj"@)
}

pub fn project_file(bundle: &str) -> (r: String)
    ensures
        r@ == inner_file(bundle@),
{
    join(bundle, "project.pbxproj")
}

fn has_extension(path: &str, wanted: &str) -> (r: bool)
    ensures
        r == (extension_of(path@) == Some(wanted@)),
{
    match extension(path) {
        Some(e) => same(e.as_str(), wanted),
        None => false,
    }
}

/// Whether a directory is a project bundle by its name.
pub fn is_bundle(path: &str) -> (r: bool)
    ensures
        r == (extension_of(path@) == Some("xcodeproj"@)),
{
    has_extension(path, "xcodeproj")
}

/// The project file that an absolute path stands for: the path itself, or the
/// file inside the bundle that it leads to; `inner_exists` says whether that
/// file is there.
pub fn resolve_pbxproj_path(path: &str, kind: PathKind, inner_exists: bool) -> (r: Result<
    String,
    Failure,
>)
    ensures
        match kind {
            PathKind::File => if extension_of(path@) == Some("pbxproj"@) {
                r is Ok && r->Ok_0@ == path@
            } else {
                fails(r, seq!["'"@ + path@ + "' is not a project.pbxproj file"@])
            },
            PathKind::Directory => if extension_of(path@) != Some("xcodeproj"@) {
                fails(r, seq!["directory '"@ + path@ + "' is not a .xcodeproj bundle"@])
            } else if inner_exists {
                r is Ok && r->Ok_0@ == inner_file(path@)
            } else {
                fails(r, seq!["no project.pbxproj found inside "@ + path@])
            },
            PathKind::Other => fails(r, seq!["'"@ + path@ + "' is neither a file nor a directory"@]),
        },
{
    match kind {
        PathKind::File => {
            if has_extension(path, "pbxproj") {
                Ok(owned(path))
            } else {
                let mut message = concat("'", path);
                message.push_str("' is not a project.pbxproj file");
                Err(Failure::new(message))
            }
        },
        PathKind::Directory => {
            if !is_bundle(path) {
                let mut message = concat("directory '", path);
                message.push_str("' is not a .xcodeproj bundle");
                Err(Failure::new(message))
            } else if inner_exists {
                Ok(project_file(path))
            } else {
                Err(Failure::new(concat("no project.pbxproj found inside ", path)))
            }
        },
        PathKind::Other => {
            let mut message = concat("'", path);
            message.push_str("' is neither a file nor a directory");
            Err(Failure::new(message))
        },
    }
}

/// The bundles that were found, in their order.
pub fn order_bundles(found: &Vec<String>) -> (r: Vec<String>)
    ensures
        lists(texts(r@), |x: Seq<char>| texts(found@).contains(x)),
{
    sorted_set(found)
}

// ── Choosing ─────────────────────────────────────────────────────────────────

/// Every character is a decimal digit.
pub open spec fn all_digits(s: Seq<char>) -> bool {
    forall|i: int| 0 <= i < s.len() ==> '0' <= #[trigger] s[i] <= '9'
}

/// The number that some decimal digits stand for.
pub open spec fn digits_value(s: Seq<char>) -> nat
    decreases s.len(),
{
    if s.len() == 0 {
        0
    } else {
        digits_value(s.drop_last()) * 10 + (s.last() as int - 48) as nat
    }
}

/// The digits of a number that may have a plus sign.
pub open spec fn unsigned(s: Seq<char>) -> Seq<char> {
    if s.len() > 0 && s[0] == '+' {
        s.skip(1)
    } else {
        s
    }
}

/// The number that a text stands for, if the machine can count so far.
pub open spec fn number_in(s: Seq<char>) -> Option<nat> {
    let d = unsigned(s);
    if d.len() > 0 && all_digits(d) && digits_value(d) <= usize::MAX {
        Some(digits_value(d))
    } else {
        None
    }
}

/// The number that a text stands for.
pub fn parse_number(s: &str) -> (r: Option<usize>)
    ensures
        match r {
            Some(n) => number_in(s@) == Some(n as nat),
            None => number_in(s@) is None,
        },
{
    let cs = to_chars(s);
    let start: usize = if cs.len() > 0 && cs[0] == '+' {
        1
    } else {
        0
    };
    let ghost d = unsigned(s@);
    assert(d =~= s@.skip(start as int));
    if start == cs.len() {
        return None;
    }
    let mut n: usize = 0;
    let mut over_max = false;
    let mut i: usize = start;
    proof {
        assert(d.take(0) =~= Seq::empty());
    }
    while i < cs.len()
        invariant
            cs@ == s@,
            d == s@.skip(start as int),
            d == unsigned(s@),
            start <= i <= cs@.len(),
            all_digits(d.take(i - start)),
            over_max == (digits_value(d.take(i - start)) > usize::MAX),
            !over_max ==> n == digits_value(d.take(i - start)),
        decreases cs.len() - i,
    {
        let c = cs[i];
        let ghost now = d.take(i - start + 1);
        proof {
            assert(now.drop_last() =~= d.take(i - start));
            assert(now.last() == c);
        }
        if c < '0' || c > '9' {
            assert(d[i - start] == c);
            return None;
        }
        let digit: u32 = c as u32 - 48;
        if !over_max && n <= (usize::MAX - digit as usize) / 10 {
            n = n * 10 + digit as usize;
        } else {
            over_max = true;
        }
        i += 1;
    }
    proof {
        assert(d.take(i - start) =~= d);
    }
    if over_max {
        None
    } else {
        Some(n)
    }
}

/// Which of the bundles are meant.
#[derive(Debug, Clone, Copy, PartialEq, Eq)]
pub enum Choice {
    All,
    One(usize),
}

/// What an answer to the menu of `n` bundles means.  An empty answer is the
/// first one; the number behind the last one is all of them.
pub fn parse_choice(line: &str, n: usize) -> (r: Result<Choice, Failure>)
    requires
        n < usize::MAX,
    ensures
        ({
            let answer = trimmed(line@);
            let number = if answer.len() == 0 {
                Some(1nat)
            } else {
                number_in(answer)
            };
            if number == Some(n as nat + 1) {
                r is Ok && r->Ok_0 == Choice::All
            } else if number is Some && 1 <= number->Some_0 <= n {
                r is Ok && r->Ok_0 == Choice::One((number->Some_0 - 1) as usize)
            } else {
                fails(r, seq!["invalid selection: "@ + answer])
            }
        }),
{
    let answer = trim(line);
    let number: Option<usize> = if answer.as_str().is_empty() {
        Some(1)
    } else {
        parse_number(answer.as_str())
    };
    match number {
        Some(k) => {
            if k == n + 1 {
                Ok(Choice::All)
            } else if 1 <= k && k <= n {
                Ok(Choice::One(k - 1))
            } else {
                Err(Failure::new(concat("invalid selection: ", answer.as_str())))
            }
        },
        None => Err(Failure::new(concat("invalid selection: ", answer.as_str()))),
    }
}

// ── Projects to process ──────────────────────────────────────────────────────

/// The project files of some bundles.
pub open spec fn inner_files(found: Seq<Seq<char>>) -> Seq<Seq<char>> {
    Seq::new(found.len(), |i: int| inner_file(found[i]))
}

/// The project files that are chosen among those of the bundles found.
pub fn chosen_files(found: &Vec<String>, choice: Choice) -> (r: Vec<String>)
    requires
        choice matches Choice::One(i) ==> i < found@.len(),
    ensures
        texts(r@) == match choice {
            Choice::All => inner_files(texts(found@)),
            Choice::One(i) => seq![inner_file(found@[i as int]@)],
        },
{
    let mut r: Vec<String> = Vec::new();
    match choice {
        Choice::One(i) => {
            r.push(project_file(found[i].as_str()));
            assert(texts(r@) =~= seq![inner_file(found@[i as int]@)]);
        },
        Choice::All => {
            let ghost all = inner_files(texts(found@));
            let mut i: usize = 0;
            assert(texts(r@) =~= all.take(0));
            while i < found.len()
                invariant
                    i <= found@.len(),
                    all == inner_files(texts(found@)),
                    texts(r@) == all.take(i as int),
                decreases found.len() - i,
            {
                let ghost before = r@;
                r.push(project_file(found[i].as_str()));
                assert(texts(r@) =~= texts(before).push(all[i as int]));
                assert(all.take(i + 1) =~= all.take(i as int).push(all[i as int]));
                i += 1;
            }
            assert(all.take(i as int) =~= all);
        },
    }
    r
}

/// What to process when no path is given: the project file of the only bundle
/// that was found; nothing, if there are several to choose from.
pub fn only_project(found: &Vec<String>) -> (r: Result<Option<String>, Failure>)
    ensures
        if found@.len() == 0 {
            fails(r, seq!["no .xcodeproj found in the current directory"@])
        } else if found@.len() == 1 {
            r is Ok && r->Ok_0 is Some && r->Ok_0->Some_0@ == inner_file(found@[0]@)
        } else {
            r is Ok && r->Ok_0 is None
        },
{
    if found.len() == 0 {
        Err(Failure::new(owned("no .xcodeproj found in the current directory")))
    } else if found.len() == 1 {
        Ok(Some(project_file(found[0].as_str())))
    } else {
        Ok(None)
    }
}

/// The file to watch: there can be only one.
pub fn watched_file(paths: &Vec<String>) -> (r: Result<String, Failure>)
    ensures
        if paths@.len() == 1 {
            r is Ok && r->Ok_0@ == paths@[0]@
        } else {
            fails(r, seq!["--watch requires exactly one project path"@])
        },
{
    if paths.len() == 1 {
        Ok(owned(paths[0].as_str()))
    } else {
        Err(Failure::new(owned("--watch requires exactly one project path")))
    }
}

/// What is said of a file that has to be committed again.
pub fn commit_again(path: &str) -> (f: Failure)
    ensures
        f@ == seq![
            "project.pbxproj was modified — please `git add "@ + path@ + "` and commit again"@,
        ],
{
    let mut message = concat("project.pbxproj was modified — please `git add ", path);
    message.push_str("` and commit again");
    Failure::new(message)
}

// ── After processing ─────────────────────────────────────────────────────────

/// What comes after a file has been processed.
#[derive(Debug, Clone, Copy, PartialEq, Eq)]
pub enum NextStep {
    Continue,
    /// The commit has to be made again with the changes.
    CommitAgain,
    /// The program ends, to say that there would be changes.
    Exit,
}

pub fn next_step(config: &Config, outcome: PipelineOutcome) -> (s: NextStep)
    ensures
        s == match outcome {
            PipelineOutcome::Clean => NextStep::Continue,
            PipelineOutcome::Modified => if config.combine_commit {
                NextStep::CommitAgain
            } else {
                NextStep::Continue
            },
            PipelineOutcome::WouldChange => NextStep::Exit,
        },
{
    match outcome {
        PipelineOutcome::Clean => NextStep::Continue,
        PipelineOutcome::Modified => if config.combine_commit {
            NextStep::CommitAgain
        } else {
            NextStep::Continue
        },
        PipelineOutcome::WouldChange => NextStep::Exit,
    }
}

// ── Watching ─────────────────────────────────────────────────────────────────

/// Whether a change on disk calls for another run: the content of the file
/// `watched` was modified.
pub fn reacts(changed: &Vec<String>, watched: &str, modified: bool) -> (r: bool)
    ensures
        r == (modified && texts(changed@).contains(watched@)),
{
    let mut i: usize = 0;
    while i < changed.len()
        invariant
            i <= changed@.len(),
            forall|k: int| 0 <= k < i ==> texts(changed@)[k] != watched@,
        decreases changed.len() - i,
    {
        if same(changed[i].as_str(), watched) {
            assert(texts(changed@)[i as int] == watched@);
            return modified;
        }
        i += 1;
    }
    false
}

/// Whether a file that was changed at `time` is to be processed again, where the
/// last change that was heeded came at `last`: only a later one counts.
pub fn runs_again(last: u128, time: u128) -> (r: bool)
    ensures
        r == (time > last),
{
    time > last
}

// ── Git ──────────────────────────────────────────────────────────────────────

/// The pre-commit hook.
pub const HOOK: &'static str =
    "#!/bin/sh\n# Auto-generated by electrolysis install-git-hooks\nexec electrolysis -c\n";

/// The attribute that assigns the merge driver.
pub const ATTRIBUTE: &'static str = "*.pbxproj merge=electrolysis";

/// What the hook is to hold, given what it holds; nothing, if it is in place
/// already.
pub fn hook_content(existing: Option<&str>) -> (r: Option<String>)
    ensures
        match existing {
            None => r is Some && r->Some_0@ == HOOK@,
            Some(old_text) => if has_substring(old_text@, "electrolysis"@) {
                r is None
            } else {
                r is Some && r->Some_0@ == trimmed_end(old_text@).push('\n') + HOOK@
            },
        },
{
    match existing {
        None => Some(owned(HOOK)),
        Some(old_text) => {
            if contains(old_text, "electrolysis") {
                None
            } else {
                let mut r = trim_end(old_text);
                r.push('\n');
                r.push_str(HOOK);
                Some(r)
            }
        },
    }
}

/// What the attributes file is to hold, given what it holds; nothing, if the
/// merge driver is assigned already.
pub fn attributes_content(existing: Option<&str>) -> (r: Option<String>)
    ensures
        match existing {
            None => r is Some && r->Some_0@ == ATTRIBUTE@.push('\n'),
            Some(old_text) => if has_substring(old_text@, "merge=electrolysis"@) {
                r is None
            } else {
                r is Some && r->Some_0@ == (trimmed_end(old_text@).push('\n') + ATTRIBUTE@).push(
                    '\n',
                )
            },
        },
{
    match existing {
        None => {
            let mut r = owned(ATTRIBUTE);
            r.push('\n');
            Some(r)
        },
        Some(old_text) => {
            if contains(old_text, "merge=electrolysis") {
                None
            } else {
                let mut r = trim_end(old_text);
                r.push('\n');
                r.push_str(ATTRIBUTE);
                r.push('\n');
                Some(r)
            }
        },
    }
}

/// Installing twice changes nothing: the hook and the attributes that are
/// written are found in place.
pub proof fn law_installed_once(old_text: Seq<char>)
    ensures
        has_substring(HOOK@, "electrolysis"@),
        has_substring(trimmed_end(old_text).push('\n') + HOOK@, "electrolysis"@),
        has_substring(ATTRIBUTE@.push('\n'), "merge=electrolysis"@),
        has_substring(
            (trimmed_end(old_text).push('\n') + ATTRIBUTE@).push('\n'),
            "merge=electrolysis"@,
        ),
{
    reveal_strlit(
        "#!/bin/sh\n# Auto-generated by electrolysis install-git-hooks\nexec electrolysis -c\n",
    );
    reveal_strlit("*.pbxproj merge=electrolysis");
    reveal_strlit("electrolysis");
    reveal_strlit("merge=electrolysis");
    let head = trimmed_end(old_text).push('\n');
    let n = head.len() as int;
    assert(HOOK@.subrange(30, 42) =~= "electrolysis"@);
    assert(crate::text::occurs_at(HOOK@, "electrolysis"@, 30));
    assert((head + HOOK@).subrange(n + 30, n + 42) =~= "electrolysis"@);
    assert(crate::text::occurs_at(head + HOOK@, "electrolysis"@, n + 30));
    assert(ATTRIBUTE@.push('\n').subrange(10, 28) =~= "merge=electrolysis"@);
    assert(crate::text::occurs_at(ATTRIBUTE@.push('\n'), "merge=electrolysis"@, 10));
    let all = (head + ATTRIBUTE@).push('\n');
    assert(all.subrange(n + 10, n + 28) =~= "merge=electrolysis"@);
    assert(crate::text::occurs_at(all, "merge=electrolysis"@, n + 10));
}

} // verus!
