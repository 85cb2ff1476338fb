//! Sequence numbers that order database operations.
use vstd::prelude::*;

verus! {

/// Represents a monotonic sequence number for database operations.
#[derive(Clone, Copy, Debug, PartialEq, Eq, Structural, PartialOrd, Ord, Hash)]
pub struct SequenceNumber(u64);

impl View for SequenceNumber {
    type V = u64;

    closed spec fn view(&self) -> u64 {
        self.0
    }
}

impl SequenceNumber {
    pub fn new(seq: u64) -> (r: Self)
        ensures
            r@ == seq,
    {
        Self(seq)
    }

    pub fn as_u64(&self) -> (r: u64)
        ensures
            r == self@,
    {
        self.0
    }
}

/// Represents a Log Sequence Number for WAL operations.
#[derive(Clone, Copy, Debug, PartialEq, Eq, Structural, PartialOrd, Ord, Hash)]
pub struct LSN(u64);

impl View for LSN {
    type V = u64;

    closed spec fn view(&self) -> u64 {
        self.0
    }
}

impl LSN {
    pub fn new(lsn: u64) -> (r: Self)
        ensures
            r@ == lsn,
    {
        Self(lsn)
    }

    pub fn as_u64(&self) -> (r: u64)
        ensures
            r == self@,
    {
        self.0
    }
}

} // verus!
