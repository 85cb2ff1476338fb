pub mod engine;
pub mod laws;
pub mod memtable;
pub mod options;
