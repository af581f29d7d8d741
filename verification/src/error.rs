//! The error taxonomy shared by every operation of the library.

use vstd::prelude::*;

verus! {

/// Why an operation on the object store failed.
///
/// Every fallible function of this crate reports one of these; there is no
/// local recovery anywhere in the core, so a failure always reaches the
/// caller unchanged.
#[derive(Clone, Copy, Debug, PartialEq, Eq, Structural)]
pub enum StoreError {
    /// The repository, a directory of it, or the requested object is absent.
    NotFound,
    /// An envelope header, tree entry, or commit record failed to parse,
    /// including a declared length that disagrees with the payload.
    Malformed,
    /// A decoded object's recomputed identifier disagrees with the
    /// identifier under which it was stored: the data is corrupt.
    HashMismatch,
    /// A filesystem-level fault, reported by the embedding program.
    IoFailure,
    /// The caller supplied a syntactically invalid object identifier.
    InvalidArgument,
}

impl StoreError {
    /// A short, stable description of the error, for display by the caller.
    pub fn describe(&self) -> (r: &'static str)
        ensures
            r@ == self.spec_describe(),
    {
        match self {
            StoreError::NotFound => "could not find requested object",
            StoreError::Malformed => "malformed object data",
            StoreError::HashMismatch => "object data does not match its identifier",
            StoreError::IoFailure => "filesystem fault",
            StoreError::InvalidArgument => "invalid object identifier",
        }
    }

    /// What `describe` returns, as a sequence of characters.
    pub open spec fn spec_describe(&self) -> Seq<char> {
        match self {
            StoreError::NotFound => "could not find requested object"@,
            StoreError::Malformed => "malformed object data"@,
            StoreError::HashMismatch => "object data does not match its identifier"@,
            StoreError::IoFailure => "filesystem fault"@,
            StoreError::InvalidArgument => "invalid object identifier"@,
        }
    }
}

} // verus!
