use vstd::prelude::*;

verus! {

/// The kind of a configuration failure, as the application layer reports it.
#[derive(Clone, Copy, Debug, PartialEq, Eq)]
pub enum ErrorKind {
    NotFound,
    InvalidInput,
    InvalidData,
    AlreadyExists,
    Unsupported,
    Other,
}

/// A failure of one of the library's operations: its kind and its message.
#[derive(Debug)]
pub struct ConfigError {
    pub kind: ErrorKind,
    pub message: String,
}

impl ConfigError {
    /// `self` has the given kind and message.
    pub open spec fn is(self, kind: ErrorKind, message: Seq<char>) -> bool {
        self.kind == kind && self.message@ == message
    }

    pub fn new(kind: ErrorKind, message: String) -> (e: Self)
        ensures
            e.is(kind, message@),
    {
        ConfigError { kind, message }
    }

    pub fn kind(&self) -> (k: ErrorKind)
        ensures
            k == self.kind,
    {
        self.kind
    }

    /// The message of the failure.
    pub fn to_string(&self) -> (m: String)
        ensures
            m@ == self.message@,
    {
        self.message.clone()
    }
}

} // verus!
