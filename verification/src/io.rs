//! The error reported by packet reads and writes.
use vstd::prelude::*;

verus! {

/// The kind of a read or write failure.
#[derive(Debug, Clone, Copy, PartialEq, Eq, Structural)]
pub enum ErrorKind {
    /// The packet ended before the requested bytes.
    UnexpectedEof,
}

/// A failed packet read or write.
#[derive(Debug, Clone, Copy, PartialEq, Eq, Structural)]
pub struct IoError {
    pub kind: ErrorKind,
}

impl IoError {
    /// The error of a read past the end of the packet.
    pub fn unexpected_eof() -> (e: IoError)
        ensures
            e.kind == ErrorKind::UnexpectedEof,
    {
        IoError { kind: ErrorKind::UnexpectedEof }
    }

    /// The kind of this error.
    pub fn kind(&self) -> (k: ErrorKind)
        ensures
            k == self.kind,
    {
        self.kind
    }
}

} // verus!
