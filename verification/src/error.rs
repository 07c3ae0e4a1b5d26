//! Errors reported by streams and by the operations built on top of them.
use vstd::prelude::*;

verus! {

/// Category of a stream error.
#[derive(Clone, Copy, Debug, PartialEq, Eq, Structural)]
pub enum ErrorKind {
    /// The stream ended before the requested data could be read.
    UnexpectedEof,
    /// A parameter (such as a field width or a value) is out of range.
    InvalidInput,
    /// The stored data is malformed.
    InvalidData,
    /// The data does not fit in the bounded destination.
    WriteZero,
    /// The requested resource does not exist.
    NotFound,
    /// Any other failure of the underlying medium.
    Other,
}

/// An error reported by a stream operation.
#[derive(Clone, Copy, Debug, PartialEq, Eq, Structural)]
pub struct StreamError {
    pub kind: ErrorKind,
}

impl StreamError {
    /// Constructs an error of the given kind.
    pub fn new(kind: ErrorKind) -> (r: Self)
        ensures
            r.kind == kind,
    {
        StreamError { kind }
    }

    /// Gets the error's kind.
    pub fn kind(&self) -> (k: ErrorKind)
        ensures
            k == self.kind,
    {
        self.kind
    }
}

/// Result of a stream operation.
pub type StreamResult<T> = Result<T, StreamError>;

} // verus!
