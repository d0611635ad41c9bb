//! The errors of the library.

use crate::text::{owned, usize_text};
use vstd::prelude::*;

verus! {

/// An I/O error.
#[verifier::external_type_specification]
#[verifier::external_body]
pub struct ExIoError(std::io::Error);

#[derive(Debug)]
pub enum ElectrolysisError {
    /// A file could not be read or written.
    Io(std::io::Error),
    /// The text is no property list.
    Parse { line: usize, message: String },
    /// The property list is no project.
    Structure(String),
    /// A path is of no use.
    Path(String),
}

/// The text of an I/O error, `std::io::Error`'s `to_string`.  It depends on the
/// system, so nothing is said of it.
#[verifier::external_body]
fn io_error_text(error: &std::io::Error) -> String {
    error.to_string()
}

/// The message for an I/O error with this text.
pub fn io_message(text: &str) -> (r: String)
    ensures
        r@ == "I/O error: "@ + text@,
{
    let mut r = owned("I/O error: ");
    r.push_str(text);
    r
}

impl ElectrolysisError {
    pub fn parse<M: Into<String>>(line: usize, message: M) -> (e: Self)
        ensures
            e is Parse,
            e->line == line,
            call_ensures(<M as Into<String>>::into, (message,), e->message),
    {
        ElectrolysisError::Parse { line, message: message.into() }
    }

    pub fn structure<M: Into<String>>(message: M) -> (e: Self)
        ensures
            e is Structure,
            call_ensures(<M as Into<String>>::into, (message,), e->Structure_0),
    {
        ElectrolysisError::Structure(message.into())
    }

    /// The message that is shown for this error.  Of an I/O error only how it
    /// begins is known: the rest is the text of the error (see `io_message`).
    pub fn to_string(&self) -> (r: String)
        ensures
            match *self {
                ElectrolysisError::Io(_) => "I/O error: "@.is_prefix_of(r@),
                ElectrolysisError::Parse { line, message } => r@ == "Parse error at line "@
                    + crate::text::decimal(line as nat) + ": "@ + message@,
                ElectrolysisError::Structure(message) => r@ == "Project structure error: "@
                    + message@,
                ElectrolysisError::Path(path) => r@ == "Invalid path: "@ + path@,
            },
    {
        match self {
            ElectrolysisError::Io(error) => io_message(io_error_text(error).as_str()),
            ElectrolysisError::Parse { line, message } => {
                let mut r = owned("Parse error at line ");
                r.push_str(usize_text(*line).as_str());
                r.push_str(": ");
                r.push_str(message.as_str());
                r
            },
            ElectrolysisError::Structure(message) => {
                let mut r = owned("Project structure error: ");
                r.push_str(message.as_str());
                r
            },
            ElectrolysisError::Path(path) => {
                let mut r = owned("Invalid path: ");
                r.push_str(path.as_str());
                r
            },
        }
    }
}

impl From<std::io::Error> for ElectrolysisError {
    fn from(error: std::io::Error) -> (e: Self) {
        ElectrolysisError::Io(error)
    }
}

impl vstd::std_specs::convert::FromSpecImpl<std::io::Error> for ElectrolysisError {
    open spec fn obeys_from_spec() -> bool {
        true
    }

    open spec fn from_spec(error: std::io::Error) -> Self {
        ElectrolysisError::Io(error)
    }
}

} // verus!
