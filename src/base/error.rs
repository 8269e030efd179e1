//! The crate's error type.

use vstd::prelude::*;

verus! {

/// The kinds of failure that the crate reports.
#[derive(Debug, Clone, Copy, PartialEq, Eq, Structural)]
pub enum ErrorKind {
    /// Parameters passed or used are invalid.
    InvalidParameters,
    /// The input data is invalid (unreadable, missing target, unparsable cell).
    InvalidData,
    /// Fitted state and input do not match.
    InvalidState,
    /// An operation needs a fitted model.
    UntrainedModel,
    /// A matrix could not be built or used.
    LinAlgError,
}

/// An error: its kind and a human-readable message.
#[derive(Debug, Clone)]
pub struct Error {
    kind: ErrorKind,
    message: String,
}

impl Error {
    /// The kind of this error.
    pub closed spec fn spec_kind(&self) -> ErrorKind {
        self.kind
    }

    /// The message of this error.
    pub closed spec fn spec_message(&self) -> Seq<char> {
        self.message@
    }

    /// Builds an error of the given kind with the given message.
    pub fn new(kind: ErrorKind, message: &str) -> (r: Error)
        ensures
            r.spec_kind() == kind,
            r.spec_message() == message@,
    {
        Error { kind, message: message.to_owned() }
    }

    /// The kind of this error.
    pub fn kind(&self) -> (r: &ErrorKind)
        ensures
            *r == self.spec_kind(),
    {
        &self.kind
    }

    /// The message of this error.
    pub fn message(&self) -> (r: &str)
        ensures
            r@ == self.spec_message(),
    {
        self.message.as_str()
    }
}

} // verus!
