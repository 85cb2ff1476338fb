//! Binary encoding interfaces for user types.
use crate::common::error::Result;
use vstd::prelude::*;

verus! {

/// A trait for types that can be encoded into a binary format.
pub trait Encode {
    /// Encodes the object into the provided buffer.
    fn encode(&self, dst: &mut Vec<u8>) -> Result<()>;

    /// Returns the exact size of the encoded object in bytes.
    fn encoded_size(&self) -> usize;
}

/// A trait for types that can be decoded from a binary format.
pub trait Decode: Sized {
    /// Decodes the object from the provided buffer, returning it with the
    /// number of bytes it took.
    fn decode(src: &[u8]) -> Result<(Self, usize)>;
}

} // verus!
