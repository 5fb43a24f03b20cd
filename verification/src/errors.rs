use vstd::prelude::*;

verus! {

/// Generic error carrier: a typed kind describing the specific fault.
#[derive(Clone, Debug)]
pub struct Error<K> {
    pub kind: K,
}

impl<K> Error<K> {
    pub fn new(kind: K) -> (r: Self)
        ensures
            r.kind == kind,
    {
        Error { kind }
    }
}

/// Faults of the sharded storage layer.
#[derive(Clone, Debug)]
pub enum ErrorKind {
    /// A resource's actual size differs from the declared size.
    SizeMismatch(usize, usize),
    /// A positioning operation landed somewhere other than the requested offset.
    InvalidOffset(usize),
    /// A shard's range is malformed.
    InvalidOffsetAndSize(usize, usize),
    /// A view could not cover the requested range.
    InvalidView,
    /// View construction ran past the end of the storage: (start, end, last offset).
    ViewBuildError(usize, usize, usize),
    LocationError(String),
    MemoryError(String),
    IoError(String),
    Custom(String),
}

pub type StorageError = Error<ErrorKind>;

} // verus!
