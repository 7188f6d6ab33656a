//! Errors of the byte-level input and output layer.

use vstd::prelude::*;

verus! {

/// What went wrong in a byte source or sink.
#[derive(Debug, Clone, Copy, PartialEq, Eq, Structural)]
pub enum IoErrorKind {
    /// The operation was interrupted before it did anything and may be retried.
    Interrupted,
    /// The source ended before the requested bytes arrived.
    UnexpectedEof,
    /// The sink accepted no bytes of a non-empty write.
    WriteZero,
    /// Any other failure of the underlying source or sink.
    Other,
}

/// A failure of a byte source or sink, with the operating system's error
/// code where there is one.
#[derive(Debug, Clone, Copy, PartialEq, Eq)]
pub struct IoError {
    pub kind: IoErrorKind,
    pub os_code: Option<i32>,
}

pub type IoResult<T> = Result<T, IoError>;

impl IoError {
    pub fn new(kind: IoErrorKind) -> (r: IoError)
        ensures
            r.kind == kind,
            r.os_code is None,
    {
        IoError { kind, os_code: None }
    }

    pub fn write_zero() -> (r: IoError)
        ensures
            r.kind == IoErrorKind::WriteZero,
            r.os_code is None,
    {
        IoError { kind: IoErrorKind::WriteZero, os_code: None }
    }

    pub fn unexpected_eof() -> (r: IoError)
        ensures
            r.kind == IoErrorKind::UnexpectedEof,
            r.os_code is None,
    {
        IoError { kind: IoErrorKind::UnexpectedEof, os_code: None }
    }

    pub fn kind(&self) -> (r: IoErrorKind)
        ensures
            r == self.kind,
    {
        self.kind
    }
}

} // verus!
