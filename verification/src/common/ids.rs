//! Identifiers of tables, files and levels.
use vstd::prelude::*;

verus! {

/// Uniquely identifies a table in the database.
#[derive(Clone, Copy, Debug, PartialEq, Eq, Structural, PartialOrd, Ord, Hash)]
pub struct TableId(u64);

impl View for TableId {
    type V = u64;

    closed spec fn view(&self) -> u64 {
        self.0
    }
}

impl TableId {
    pub fn new(id: u64) -> (r: Self)
        ensures
            r@ == id,
    {
        Self(id)
    }

    pub fn as_u64(&self) -> (r: u64)
        ensures
            r == self@,
    {
        self.0
    }
}

/// Uniquely identifies a file (e.g., SSTable or WAL) in the database.
#[derive(Clone, Copy, Debug, PartialEq, Eq, Structural, PartialOrd, Ord, Hash)]
pub struct FileId(u64);

impl View for FileId {
    type V = u64;

    closed spec fn view(&self) -> u64 {
        self.0
    }
}

impl FileId {
    pub fn new(id: u64) -> (r: Self)
        ensures
            r@ == id,
    {
        Self(id)
    }

    pub fn as_u64(&self) -> (r: u64)
        ensures
            r == self@,
    {
        self.0
    }
}

/// Represents a level in the LSM-tree hierarchy.
#[derive(Clone, Copy, Debug, PartialEq, Eq, Structural, PartialOrd, Ord, Hash)]
pub struct Level(u32);

impl View for Level {
    type V = u32;

    closed spec fn view(&self) -> u32 {
        self.0
    }
}

impl Level {
    pub fn new(level: u32) -> (r: Self)
        ensures
            r@ == level,
    {
        Self(level)
    }

    pub fn as_u32(&self) -> (r: u32)
        ensures
            r == self@,
    {
        self.0
    }
}

} // verus!
