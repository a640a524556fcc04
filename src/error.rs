//! The library's error type.

use vstd::prelude::*;

verus! {

/// What went wrong, with a message for the user.
#[derive(Debug, Clone, PartialEq, Eq)]
pub enum RushError {
    /// The command line does not follow the grammar.
    Parse(String),
    /// A variable name does not match `[A-Za-z_][A-Za-z0-9_]*`.
    InvalidName(String),
    /// A variable that an operation needs is not set.
    NotSet(String),
    /// A job id names no job.
    JobNotFound(String),
    /// Any other failure while running a command.
    Execution(String),
}

impl RushError {
    /// The message carried by the error.
    pub fn message(&self) -> (r: String)
        ensures
            r@ == self.message_view(),
    {
        match self {
            RushError::Parse(m) => m.clone(),
            RushError::InvalidName(m) => m.clone(),
            RushError::NotSet(m) => m.clone(),
            RushError::JobNotFound(m) => m.clone(),
            RushError::Execution(m) => m.clone(),
        }
    }

    pub open spec fn message_view(&self) -> Seq<char> {
        match self {
            RushError::Parse(m) => m@,
            RushError::InvalidName(m) => m@,
            RushError::NotSet(m) => m@,
            RushError::JobNotFound(m) => m@,
            RushError::Execution(m) => m@,
        }
    }
}

} // verus!
