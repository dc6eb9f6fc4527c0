//! What can go wrong with a command.

use vstd::prelude::*;

verus! {

/// The error of an operation of the operating system (`std::io::Error`). The
/// library carries it and does not look inside.
#[verifier::external_type_specification]
#[verifier::external_body]
pub struct ExIoError(std::io::Error);

/// The exit code for a command that cannot be run as it was given.
pub const USAGE_ERROR: u8 = 2u8;

/// The exit code for a command that was lost sight of.
pub const INTERNAL_ERROR: u8 = 3u8;

/// What went wrong.
#[derive(Debug)]
pub enum RailyardErrorKind {
    /// There is no program to run.
    InvalidArguments,
    /// Something that the command waited for will not come.
    Cancelled,
    /// The program could not be started.
    SpawnError(std::io::Error),
    /// The end of the program could not be awaited.
    CommandError(std::io::Error),
    /// The output of the program could not be read.
    StreamError(std::io::Error),
}

/// What went wrong, and with which command.
#[derive(Debug)]
pub struct RailyardError {
    pub command: String,
    pub kind: RailyardErrorKind,
}

/// The exit code that tells of an error.
pub open spec fn exit_code_of(kind: RailyardErrorKind) -> u8 {
    match kind {
        RailyardErrorKind::InvalidArguments | RailyardErrorKind::SpawnError(_) => USAGE_ERROR,
        _ => INTERNAL_ERROR,
    }
}

impl RailyardErrorKind {
    /// The exit code that tells of this error. Giving up on a command does not
    /// end the program, so that kind has none.
    pub fn report(&self) -> (code: u8)
        requires
            !(self is Cancelled),
        ensures
            code == exit_code_of(*self),
            code == 2 <==> (self is InvalidArguments || self is SpawnError),
            code == 3 <==> (self is CommandError || self is StreamError),
    {
        match self {
            RailyardErrorKind::InvalidArguments => USAGE_ERROR,
            RailyardErrorKind::SpawnError(_) => USAGE_ERROR,
            _ => INTERNAL_ERROR,
        }
    }
}

impl RailyardError {
    /// The exit code that tells of this error.
    pub fn report(self) -> (code: u8)
        requires
            !(self.kind is Cancelled),
        ensures
            code == exit_code_of(self.kind),
            code == 2 <==> (self.kind is InvalidArguments || self.kind is SpawnError),
            code == 3 <==> (self.kind is CommandError || self.kind is StreamError),
    {
        self.kind.report()
    }
}

/// A command that could not be run as it was given is told from one that was
/// lost sight of by the exit code, and both from success.
pub proof fn lemma_exit_codes(a: RailyardErrorKind, b: RailyardErrorKind)
    requires
        a is InvalidArguments || a is SpawnError,
        b is CommandError || b is StreamError,
    ensures
        exit_code_of(a) == 2,
        exit_code_of(b) == 3,
{
}

} // verus!
