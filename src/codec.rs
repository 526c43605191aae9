//! The two traits through which every part of a file turns into bytes and back.
use vstd::prelude::*;
use crate::error::PlankError;

verus! {

/// A value with an exact byte encoding.
pub trait Serialize {
    /// The bytes that encode this value.
    spec fn spec_bytes(&self) -> Seq<u8>;

    fn to_bytes(&self) -> (r: Vec<u8>)
        ensures
            r@ == self.spec_bytes(),
    ;
}

/// A value that can be decoded from bytes, or rejected.
pub trait Deserialize: Sized {
    /// `r` is the outcome that decoding `b` must have.
    spec fn decodes_to(b: Seq<u8>, r: Result<Self, PlankError>) -> bool;

    fn from_bytes(bytes: &[u8]) -> (r: Result<Self, PlankError>)
        ensures
            Self::decodes_to(bytes@, r),
    ;
}

} // verus!
