//! Configuration of the engine.
use vstd::prelude::*;

verus! {

/// Configuration options for the Dzong engine.
#[derive(Debug)]
pub struct Options {
    /// Path to the data directory.
    pub data_dir: String,
    /// The number of entries from which the memtable is due for a flush.
    pub max_memtable_size: usize,
    /// The number of level-0 tables from which a compaction is due.
    pub l0_compaction_threshold: usize,
}

impl Options {
    /// Creates a new Options instance with the specified data directory, a
    /// memtable of up to 1000 entries and compactions from 4 level-0 tables.
    pub fn new(data_dir: &str) -> (r: Self)
        ensures
            r.data_dir@ == data_dir@,
            r.max_memtable_size == 1000,
            r.l0_compaction_threshold == 4,
    {
        Self { data_dir: data_dir.to_owned(), max_memtable_size: 1000, l0_compaction_threshold: 4 }
    }
}

impl Clone for Options {
    fn clone(&self) -> (r: Self)
        ensures
            r.data_dir@ == self.data_dir@,
            r.max_memtable_size == self.max_memtable_size,
            r.l0_compaction_threshold == self.l0_compaction_threshold,
    {
        Options {
            data_dir: self.data_dir.clone(),
            max_memtable_size: self.max_memtable_size,
            l0_compaction_threshold: self.l0_compaction_threshold,
        }
    }
}

} // verus!
