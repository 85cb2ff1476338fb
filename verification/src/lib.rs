//! Dzong: an embedded key-value storage engine built on a log-structured
//! merge tree, with its record formats, sorted tables, write-ahead log,
//! version bookkeeping and compaction logic verified by Verus.

pub mod common;
pub mod compaction;
pub mod db;
pub mod manifest;
pub mod sstable;
pub mod wal;

pub use common::codec::{Decode, Encode};
pub use common::endian;
pub use common::error::{DzongError, Result};
pub use common::ids::{FileId, Level, TableId};
pub use common::key_value::{Key, Value};
pub use common::sequence::{SequenceNumber, LSN};
pub use common::traits::SizeOf;
pub use compaction::merger::MergeIterator;
pub use compaction::picker::{CompactionJob, CompactionPicker};
pub use compaction::worker::CompactionWorker;
pub use db::engine::DzongEngine;
pub use db::memtable::MemTable;
pub use db::options::Options;
pub use manifest::record::{FileMetadata, VersionEdit};
pub use manifest::version::{Version, VersionSet};
pub use sstable::block::{BlockBuilder, BlockReader};
pub use sstable::footer::Footer;
pub use sstable::index::{Index, IndexEntry};
pub use sstable::reader::{SstableIterator, SstableReader};
pub use sstable::record::{SstableOp, SstableRecord};
pub use sstable::table::Sstable;
pub use sstable::writer::SstableWriter;
pub use wal::reader::WalReader;
pub use wal::record::{WalOp, WalRecord};
