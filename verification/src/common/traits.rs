//! Small shared interfaces.
use vstd::prelude::*;

verus! {

/// A trait for types that can report their in-memory or on-disk size.
pub trait SizeOf {
    /// Returns the size in bytes.
    fn size_of(&self) -> usize;
}

impl SizeOf for Vec<u8> {
    fn size_of(&self) -> (r: usize)
        ensures
            r == self@.len(),
    {
        self.len()
    }
}

} // verus!
