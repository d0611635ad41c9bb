//! Messages to the user.

use vstd::prelude::*;

verus! {

/// How much is said.
#[derive(Debug, Clone, Copy, PartialEq, Eq, PartialOrd, Ord, Structural)]
pub enum LogLevel {
    Quiet,
    Normal,
    Verbose,
}

impl Default for LogLevel {
    fn default() -> (l: Self)
        ensures
            l == LogLevel::Normal,
    {
        LogLevel::Normal
    }
}

/// The place of a level in their order.
pub open spec fn rank(l: LogLevel) -> int {
    match l {
        LogLevel::Quiet => 0,
        LogLevel::Normal => 1,
        LogLevel::Verbose => 2,
    }
}

pub trait Logger {
    fn info(&self, msg: &str);

    fn verbose(&self, msg: &str);

    fn warn(&self, msg: &str);

    fn error(&self, msg: &str);

    /// Shows a line as it is, whatever the level.
    fn show(&self, msg: &str) {
        self.error(msg);
    }
}

/// The settings of the logger that writes to the console.
pub struct ConsoleLogger {
    level: LogLevel,
}

impl ConsoleLogger {
    /// The level up to which messages are shown.
    pub closed spec fn level(&self) -> LogLevel {
        self.level
    }

    pub fn new(level: LogLevel) -> (l: Self)
        ensures
            l.level() == level,
    {
        ConsoleLogger { level }
    }

    /// Whether messages of a level are shown.  Errors, at the lowest level,
    /// always are.
    pub fn shows(&self, level: LogLevel) -> (r: bool)
        ensures
            r == (rank(level) <= rank(self.level())),
    {
        match level {
            LogLevel::Quiet => true,
            LogLevel::Normal => self.level != LogLevel::Quiet,
            LogLevel::Verbose => self.level == LogLevel::Verbose,
        }
    }
}

/// A logger that says nothing.
pub struct NullLogger;

impl Logger for NullLogger {
    fn info(&self, msg: &str) {
    }

    fn verbose(&self, msg: &str) {
    }

    fn warn(&self, msg: &str) {
    }

    fn error(&self, msg: &str) {
    }
}

} // verus!
