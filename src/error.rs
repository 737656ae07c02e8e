//! Errors that end a conversion run.
use vstd::prelude::*;

verus! {

/// `std::io::Error`, carried unopened inside `CliError::Io`.
#[verifier::external_type_specification]
#[verifier::external_body]
pub struct ExIoError(std::io::Error);

/// Why a conversion run ended early.
pub enum CliError {
    /// Reading or writing a stream failed.
    Io(std::io::Error),
    /// Any other failure, described in words.
    Other(String),
}

impl CliError {
    /// A failure other than I/O, described by `message`.
    pub fn new(message: String) -> (e: CliError)
        ensures
            e matches CliError::Other(m) && m@ == message@,
    {
        Self::_new(message)
    }

    fn _new(message: String) -> (e: CliError)
        ensures
            e matches CliError::Other(m) && m@ == message@,
    {
        CliError::Other(message)
    }

    /// The description of an `Other` failure; none for an I/O failure.
    pub fn message(&self) -> (r: Option<&String>)
        ensures
            self matches CliError::Other(m) ==> r == Some(m),
            self is Io ==> r is None,
    {
        match self {
            CliError::Io(_) => None,
            CliError::Other(m) => Some(m),
        }
    }
}

impl From<std::io::Error> for CliError {
    fn from(error: std::io::Error) -> (e: CliError)
        ensures
            e == CliError::Io(error),
    {
        CliError::Io(error)
    }
}

impl vstd::std_specs::convert::FromSpecImpl<std::io::Error> for CliError {
    open spec fn obeys_from_spec() -> bool {
        true
    }

    open spec fn from_spec(v: std::io::Error) -> CliError {
        CliError::Io(v)
    }
}

} // verus!
