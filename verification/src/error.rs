//! What setup and ingest operations report when they refuse their input.

use vstd::prelude::*;

verus! {

/// The ways in which an operation can refuse.
#[derive(Clone, Copy, Debug)]
pub enum ErrorKind {
    /// The 32 bytes are not the canonical encoding of a group element.
    PointDecompressionError([u8; 32]),
    /// Two counts that must agree do not: the expected count and what it
    /// counts, then the count received and what it counts.
    CountMismatch(usize, &'static str, usize, &'static str),
    /// The parameters `n`, `t` and `index` do not fit together.
    InvalidParameterSet(usize, usize, usize),
    /// A dealer's proof is malformed; the field at fault is named.
    InvalidProof(&'static str),
    /// A value that the operation needs was not ingested yet; its path is
    /// named.
    UninitializedValue(&'static str),
}

/// An error of the library.
#[derive(Clone, Copy, Debug)]
pub struct Error {
    pub kind: ErrorKind,
}

impl Error {
    /// The error of the given kind.
    pub fn from_kind(kind: ErrorKind) -> (r: Error)
        ensures
            r.kind == kind,
    {
        Error { kind }
    }

    /// The kind of the error.
    pub fn kind(&self) -> (r: ErrorKind)
        ensures
            r == self.kind,
    {
        self.kind
    }
}

} // verus!
