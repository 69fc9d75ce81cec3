//! What the engine fails with: which part of a run an error comes from, its code and its text.

use vstd::prelude::*;

verus! {

/// Which part of a run an error comes from.
#[derive(Clone, Copy, Debug, PartialEq, Eq, Structural)]
pub enum ErrorKind {
    /// The write-ahead log.
    Wal,
    /// A batch its table cannot take.
    Schema,
    /// The destination, or what it has committed.
    Destination,
    /// The engine itself.
    Internal,
}

/// An error of the engine.
#[derive(Debug, PartialEq, Eq)]
pub struct Error {
    pub kind: ErrorKind,
    pub code: Option<&'static str>,
    pub message: String,
}

impl Error {
    /// Which part of a run the error comes from.
    pub fn kind(&self) -> (kind: ErrorKind)
        ensures
            kind == self.kind,
    {
        self.kind
    }

    /// The error's code, if it has one.
    pub fn code(&self) -> (code: Option<&'static str>)
        ensures
            code == self.code,
    {
        self.code
    }
}

} // verus!
