//! Whole-table operations: writing a memtable out, and point lookups.
use crate::common::error::{DzongError, Result};
use crate::common::key_value::{opt_value_view, Key, Value};
use crate::db::memtable::{entries_map, sorted_entries, MemTable};
use crate::sstable::block::records_bytes;
use crate::sstable::layout::{table_blocks, table_layout};
use crate::sstable::reader::{
    found_view, index_lookup, open_error, open_table, SstableReader, TableOpen,
};
use crate::sstable::record::{RecordView, SstableOp, SstableRecord};
use crate::sstable::writer::{memtable_records, sst_record_small, SstableWriter};
use vstd::prelude::*;

verus! {

/// The value a found record gives: a put's value; nothing for a delete or
/// when no record was found.
pub open spec fn record_value(f: Option<RecordView>) -> Option<Seq<u8>> {
    match f {
        Some(rec) => if rec.op == SstableOp::Put {
            rec.value
        } else {
            None
        },
        None => None,
    }
}

/// `r` is what a lookup gives whose record lookup gave `rr`.
pub open spec fn value_from_lookup(rr: Result<Option<SstableRecord>>, r: Result<Option<Value>>) -> bool {
    match rr {
        Ok(f) => r matches Ok(v) && opt_value_view(v) == record_value(found_view(f)),
        Err(e) => r == Err::<Option<Value>, DzongError>(e),
    }
}

/// `r` is what looking `key` up in the table `data` gives: the error of
/// opening it, or the value of the record that the index lookup finds.
pub open spec fn table_get_outcome(data: Seq<u8>, key: Seq<u8>, r: Result<Option<Value>>) -> bool {
    match open_table(data) {
        TableOpen::Opened(es) => exists|rr: Result<Option<SstableRecord>>|
            #[trigger] index_lookup(data, es, key, rr) && value_from_lookup(rr, r),
        _ => r is Err && open_error(data, r->Err_0),
    }
}

/// Whole-table operations.
pub struct Sstable;

impl Sstable {
    /// Writes the table of a memtable's entries; see
    /// `SstableWriter::write_from_memtable`.
    pub fn write_from_memtable(memtable: &MemTable) -> (r: Result<Vec<u8>>)
        requires
            forall|i: int|
                0 <= i < memtable.entries().len() ==> sst_record_small(
                    #[trigger] memtable_records(memtable.entries())[i],
                ),
            2 * records_bytes(memtable_records(memtable.entries())).len() + 32 <= usize::MAX,
        ensures
            r matches Ok(bytes) && bytes@ == table_layout(
                table_blocks(memtable_records(memtable.entries())),
            ),
            sorted_entries(memtable.entries()),
            memtable@ == entries_map(memtable.entries()),
    {
        SstableWriter::write_from_memtable(memtable)
    }

    /// Looks `key` up in the table whose bytes are `data`: the value of a
    /// put, or nothing for a delete or a missing key.
    pub fn get(data: &[u8], key: &Key) -> (r: Result<Option<Value>>)
        ensures
            table_get_outcome(data@, key@, r),
    {
        let reader = SstableReader::open(vstd::slice::slice_to_vec(data))?;
        let rr = reader.get(key);
        let ghost rrv = rr;
        match rr {
            Ok(found) => match found {
                Some(record) => {
                    if record.op == SstableOp::Put {
                        let r = Ok(record.value);
                        assert(value_from_lookup(rrv, r));
                        r
                    } else {
                        let r = Ok(None);
                        assert(value_from_lookup(rrv, r));
                        r
                    }
                },
                None => {
                    let r = Ok(None);
                    assert(value_from_lookup(rrv, r));
                    r
                },
            },
            Err(e) => {
                let r = Err(e);
                assert(value_from_lookup(rrv, r));
                r
            },
        }
    }
}

} // verus!
