//! Data blocks: runs of consecutive records, and scanning them.
use crate::common::error::{DzongError, Result};
use crate::common::key_value::Key;
use crate::common::order::bytes_eq;
use crate::sstable::record::{
    decode_sst_record, record_decode_error, sst_record_bytes, sst_record_fits, RecordDecode,
    RecordView, SstableRecord,
};
use vstd::prelude::*;

verus! {

/// The bytes of records written one after another.
pub open spec fn records_bytes(rs: Seq<RecordView>) -> Seq<u8>
    decreases rs.len(),
{
    if rs.len() == 0 {
        Seq::empty()
    } else {
        records_bytes(rs.drop_last()) + sst_record_bytes(rs.last())
    }
}

/// Each record takes at least 17 bytes.
pub proof fn lemma_records_bytes_len(rs: Seq<RecordView>)
    ensures
        records_bytes(rs).len() >= 17 * rs.len(),
    decreases rs.len(),
{
    if rs.len() > 0 {
        lemma_records_bytes_len(rs.drop_last());
        crate::sstable::record::lemma_sst_record_bytes_len(rs.last());
    }
}

/// The records decoded one after another from `pos` to the end of `s`;
/// `None` if one of them fails to decode.
pub open spec fn decode_records_from(s: Seq<u8>, pos: int) -> Option<Seq<RecordView>>
    decreases s.len() - pos,
{
    if pos < 0 {
        None
    } else if pos >= s.len() {
        Some(Seq::empty())
    } else {
        match decode_sst_record(s.subrange(pos, s.len() as int)) {
            RecordDecode::Record(r, n) => if n > 0 && pos + n <= s.len() {
                match decode_records_from(s, pos + n) {
                    Some(rest) => Some(seq![r] + rest),
                    None => None,
                }
            } else {
                None
            },
            _ => None,
        }
    }
}

/// Decoding the records of `s` from `pos` on stops at a record that fails
/// with `e`.
pub open spec fn decode_fails_with(s: Seq<u8>, pos: int, e: DzongError) -> bool
    decreases s.len() - pos,
{
    if pos < 0 || pos >= s.len() {
        false
    } else {
        match decode_sst_record(s.subrange(pos, s.len() as int)) {
            RecordDecode::Record(_, n) => n > 0 && pos + n <= s.len() && decode_fails_with(
                s,
                pos + n,
                e,
            ),
            _ => record_decode_error(s.subrange(pos, s.len() as int), e),
        }
    }
}

/// Among `rs`, the record with `key` and the highest LSN; the earliest of
/// them on a tie.
pub open spec fn best_match(rs: Seq<RecordView>, key: Seq<u8>) -> Option<RecordView>
    decreases rs.len(),
{
    if rs.len() == 0 {
        None
    } else {
        let b = best_match(rs.drop_last(), key);
        let r = rs.last();
        if r.key == key && (b is None || r.lsn > b->0.lsn) {
            Some(r)
        } else {
            b
        }
    }
}

/// A lookup in records finds the newest record with the key: nothing
/// exactly when no record has the key; else one of the records, with the
/// key, whose LSN no other record with the key exceeds, and which every
/// earlier record with the key has a lower LSN than.
pub proof fn lemma_best_match_newest(rs: Seq<RecordView>, key: Seq<u8>)
    ensures
        best_match(rs, key) is None <==> forall|j: int| 0 <= j < rs.len() ==> (#[trigger] rs[j]).key != key,
        best_match(rs, key) matches Some(r) ==> {
            &&& r.key == key
            &&& exists|i: int|
                0 <= i < rs.len() && #[trigger] rs[i] == r && forall|j: int|
                    0 <= j < i && (#[trigger] rs[j]).key == key ==> rs[j].lsn < r.lsn
            &&& forall|j: int| 0 <= j < rs.len() && (#[trigger] rs[j]).key == key ==> rs[j].lsn <= r.lsn
        },
    decreases rs.len(),
{
    if rs.len() > 0 {
        let init = rs.drop_last();
        let last = rs.last();
        let n = rs.len() - 1;
        lemma_best_match_newest(init, key);
        assert forall|j: int| 0 <= j < n implies #[trigger] rs[j] == init[j] by {}
        match best_match(init, key) {
            None => {
                if last.key == key {
                    assert(rs[n] == last);
                    assert forall|j: int| 0 <= j < n && (#[trigger] rs[j]).key == key implies rs[j].lsn < last.lsn by {
                        assert(init[j].key != key);
                    }
                } else {
                    assert forall|j: int| 0 <= j < rs.len() implies (#[trigger] rs[j]).key != key by {
                        if j < n {
                            assert(init[j].key != key);
                        }
                    }
                }
            },
            Some(b) => {
                let i = choose|i: int|
                    0 <= i < init.len() && #[trigger] init[i] == b && forall|j: int|
                        0 <= j < i && (#[trigger] init[j]).key == key ==> init[j].lsn < b.lsn;
                assert(init[i].key == key);
                if last.key == key && last.lsn > b.lsn {
                    assert(rs[n] == last);
                    assert forall|j: int| 0 <= j < rs.len() && (#[trigger] rs[j]).key == key implies rs[j].lsn <= last.lsn by {
                        if j < n {
                            assert(init[j].key == key);
                        }
                    }
                    assert forall|j: int| 0 <= j < n && (#[trigger] rs[j]).key == key implies rs[j].lsn < last.lsn by {
                        assert(init[j].key == key);
                    }
                } else {
                    assert(rs[i] == b);
                    assert forall|j: int| 0 <= j < i && (#[trigger] rs[j]).key == key implies rs[j].lsn < b.lsn by {
                        assert(init[j].key == key);
                    }
                    assert forall|j: int| 0 <= j < rs.len() && (#[trigger] rs[j]).key == key implies rs[j].lsn <= b.lsn by {
                        if j < n {
                            assert(init[j].key == key);
                        }
                    }
                    assert(exists|j: int| 0 <= j < rs.len() && (#[trigger] rs[j]).key == key) by {
                        assert(rs[i].key == key);
                    }
                }
            },
        }
    }
}

/// Builds a data block by buffering records.
pub struct BlockBuilder {
    buffer: Vec<u8>,
    count: usize,
    first_key: Option<Key>,
    records: Ghost<Seq<RecordView>>,
}

impl BlockBuilder {
    /// The records added so far, in order.
    pub closed spec fn records(self) -> Seq<RecordView> {
        self.records@
    }

    /// The builder's parts agree with its records.
    pub closed spec fn wf(self) -> bool {
        &&& self.buffer@ == records_bytes(self.records@)
        &&& self.count == self.records@.len()
        &&& match self.first_key {
            Some(k) => self.records@.len() > 0 && k@ == self.records@[0].key,
            None => self.records@.len() == 0,
        }
    }

    pub fn new() -> (r: Self)
        ensures
            r.wf(),
            r.records() == Seq::<RecordView>::empty(),
    {
        BlockBuilder { buffer: Vec::new(), count: 0, first_key: None, records: Ghost(Seq::empty()) }
    }

    /// Adds a record to the block.
    pub fn add(&mut self, record: &SstableRecord) -> (r: Result<()>)
        requires
            old(self).wf(),
            sst_record_fits(record@),
            records_bytes(old(self).records()).len() + sst_record_bytes(record@).len()
                <= usize::MAX,
        ensures
            final(self).wf(),
            final(self).records() == old(self).records().push(record@),
            r is Ok,
    {
        if self.first_key.is_none() {
            self.first_key = Some(record.key.clone());
        }
        proof {
            lemma_records_bytes_len(self.records@);
        }
        let _ = record.encode(&mut self.buffer);
        self.count += 1;
        proof {
            let old_records = self.records@;
            self.records@ = old_records.push(record@);
            assert(self.records@.drop_last() =~= old_records);
        }
        Ok(())
    }

    /// Returns the current size of the block in bytes.
    pub fn size(&self) -> (r: usize)
        requires
            self.wf(),
        ensures
            r == records_bytes(self.records()).len(),
    {
        self.buffer.len()
    }

    /// Returns the number of records in the block.
    pub fn count(&self) -> (r: usize)
        requires
            self.wf(),
        ensures
            r == self.records().len(),
    {
        self.count
    }

    /// Finalizes the block and returns the byte content.
    pub fn build(self) -> (r: Vec<u8>)
        requires
            self.wf(),
        ensures
            r@ == records_bytes(self.records()),
    {
        self.buffer
    }

    pub fn is_empty(&self) -> (r: bool)
        requires
            self.wf(),
        ensures
            r == (self.records().len() == 0),
    {
        self.count == 0
    }

    pub fn first_key(&self) -> (r: Option<Key>)
        requires
            self.wf(),
        ensures
            self.records().len() == 0 ==> r is None,
            self.records().len() > 0 ==> (r matches Some(k) && k@ == self.records()[0].key),
    {
        match &self.first_key {
            Some(k) => Some(k.clone()),
            None => None,
        }
    }
}

/// Reads and scans records within a block.
pub struct BlockReader<'a> {
    data: &'a [u8],
}

impl<'a> BlockReader<'a> {
    /// The bytes of the block.
    pub closed spec fn data(self) -> Seq<u8> {
        self.data@
    }

    pub fn new(data: &'a [u8]) -> (r: Self)
        ensures
            r.data() == data@,
    {
        Self { data }
    }

    /// Scans the block for a specific key.
    /// Returns the record with the highest LSN if found.
    pub fn get(&self, key: &Key) -> (r: Result<Option<SstableRecord>>)
        ensures
            match decode_records_from(self.data(), 0) {
                Some(rs) => r matches Ok(found) && match found {
                    Some(rec) => best_match(rs, key@) == Some(rec@),
                    None => best_match(rs, key@) is None,
                },
                None => r is Err && decode_fails_with(self.data(), 0, r->Err_0),
            },
    {
        let data = self.data;
        let len = data.len();
        let mut pos: usize = 0;
        let mut best_record: Option<SstableRecord> = None;
        let ghost mut done: Seq<RecordView> = Seq::empty();
        while pos < len
            invariant
                len == data@.len(),
                data@ == self.data(),
                pos <= len,
                match decode_records_from(data@, pos as int) {
                    Some(rest) => decode_records_from(data@, 0) == Some(done + rest),
                    None => decode_records_from(data@, 0) is None && forall|e: DzongError|
                        decode_fails_with(data@, 0, e) == decode_fails_with(data@, pos as int, e),
                },
                match best_record {
                    Some(b) => best_match(done, key@) == Some(b@),
                    None => best_match(done, key@) is None,
                },
            decreases len - pos,
        {
            let ghost p = pos as int;
            let rest = vstd::slice::slice_subrange(data, pos, len);
            let (record, n) = match SstableRecord::decode(rest) {
                Ok(x) => x,
                Err(e) => {
                    proof {
                        assert(decode_records_from(data@, p) is None);
                        assert(decode_fails_with(data@, p, e));
                        assert(decode_fails_with(data@, 0, e));
                    }
                    return Err(e);
                },
            };
            proof {
                let next = p + n;
                match decode_records_from(data@, next) {
                    Some(tail) => {
                        assert(decode_records_from(data@, p) == Some(seq![record@] + tail));
                        assert(done + (seq![record@] + tail) =~= done.push(record@) + tail);
                    },
                    None => {
                        assert(decode_records_from(data@, p) is None);
                        assert forall|e: DzongError|
                            decode_fails_with(data@, p, e) == decode_fails_with(data@, next, e) by {}
                    },
                }
                assert(done.push(record@).drop_last() =~= done);
            }
            let matches_key = bytes_eq(record.key.as_slice(), key.as_slice());
            if matches_key {
                // In a single block from a MemTable, there should be only one version.
                // But for future-proofing, we check LSN.
                let better = match &best_record {
                    None => true,
                    Some(best) => record.lsn > best.lsn,
                };
                if better {
                    best_record = Some(record);
                }
            }
            proof {
                done = done.push(record@);
            }
            pos = pos + n;
        }
        proof {
            assert(decode_records_from(data@, pos as int) == Some(Seq::<RecordView>::empty()));
            assert(done + Seq::<RecordView>::empty() =~= done);
        }
        Ok(best_record)
    }
}

} // verus!
