//! The engine's decisions: recovery from the write-ahead log, LSN
//! assignment, and applying logged writes to the memtable. Writing the log
//! to disk is left to the caller, which must make each record returned by
//! `put` or `delete` durable before handing it to `apply`.
use crate::common::error::{DzongError, Result};
use crate::common::key_value::{opt_value_view, Key, Value};
use crate::common::sequence::SequenceNumber;
use crate::db::memtable::MemTable;
use crate::wal::reader::{replay_fails_with, replay_from, replay_log, WalReader};
use crate::wal::record::{WalEntry, WalOp, WalRecord};
use vstd::prelude::*;
use vstd::string::*;

verus! {

/// The memtable after applying the logged write `e` to `m`: a put sets the
/// key to its value, a delete sets a tombstone; a put without a value
/// changes nothing.
pub open spec fn apply_entry(
    m: Map<Seq<u8>, Option<Seq<u8>>>,
    e: WalEntry,
) -> Map<Seq<u8>, Option<Seq<u8>>> {
    match e.op {
        WalOp::Put => match e.value {
            Some(v) => m.insert(e.key, Some(v)),
            None => m,
        },
        WalOp::Delete => m.insert(e.key, None),
    }
}

/// The memtable that applying `es` in order to an empty one gives.
pub open spec fn replay_entries(es: Seq<WalEntry>) -> Map<Seq<u8>, Option<Seq<u8>>>
    decreases es.len(),
{
    if es.len() == 0 {
        Map::empty()
    } else {
        apply_entry(replay_entries(es.drop_last()), es.last())
    }
}

/// What a read of `k` finds in the memtable `m`: its value, or nothing for
/// a tombstone or a key never written.
pub open spec fn lookup(m: Map<Seq<u8>, Option<Seq<u8>>>, k: Seq<u8>) -> Option<Seq<u8>> {
    if m.contains_key(k) {
        m[k]
    } else {
        None
    }
}

/// The largest LSN among `es`, or 0.
pub open spec fn max_lsn(es: Seq<WalEntry>) -> u64
    decreases es.len(),
{
    if es.len() == 0 {
        0
    } else {
        let m = max_lsn(es.drop_last());
        if es.last().lsn > m {
            es.last().lsn
        } else {
            m
        }
    }
}

/// `e` is the error for running out of LSNs.
pub open spec fn is_lsn_exhausted(e: DzongError) -> bool {
    &&& e matches DzongError::Invariant { message: m, context: c }
    &&& m@ == "LSN space exhausted"@
    &&& c is None
}

fn lsn_exhausted() -> (e: DzongError)
    ensures
        is_lsn_exhausted(e),
{
    proof {
        reveal_strlit("LSN space exhausted");
    }
    DzongError::Invariant { message: String::from_str("LSN space exhausted"), context: None }
}

/// The central execution core of the Dzong database engine.
pub struct DzongEngine {
    memtable: MemTable,
    next_lsn: SequenceNumber,
}

impl DzongEngine {
    /// The contents of the memtable: each key maps to its value or to a
    /// tombstone (`None`).
    pub closed spec fn state(self) -> Map<Seq<u8>, Option<Seq<u8>>> {
        self.memtable@
    }

    /// The LSN that the next write gets.
    pub closed spec fn lsn(self) -> u64 {
        self.next_lsn@
    }

    /// Recovers an engine from the contents of its write-ahead log (empty
    /// when there is none): every record is applied in order and the next
    /// LSN follows the largest one seen. Fails with the error of the first
    /// frame that is truncated, corrupt or malformed, or when the largest
    /// LSN leaves no successor.
    pub fn open(wal: &[u8]) -> (r: Result<Self>)
        ensures
            match replay_log(wal@) {
                Some(es) => if max_lsn(es) < u64::MAX {
                    r matches Ok(engine) && engine.state() == replay_entries(es) && engine.lsn()
                        == max_lsn(es) + 1
                } else {
                    r is Err && is_lsn_exhausted(r->Err_0)
                },
                None => r is Err && replay_fails_with(wal@, 0, r->Err_0),
            },
    {
        let mut memtable = MemTable::new();
        let mut max: u64 = 0;
        let mut reader = WalReader::open(vstd::slice::slice_to_vec(wal));
        let ghost data = wal@;
        let ghost mut done: Seq<WalEntry> = Seq::empty();
        loop
            invariant
                data == wal@,
                reader.data() == data,
                0 <= reader.pos() <= data.len(),
                memtable@ == replay_entries(done),
                max == max_lsn(done),
                match replay_from(data, reader.pos()) {
                    Some(rest) => replay_log(data) == Some(done + rest),
                    None => replay_log(data) is None && forall|e: DzongError|
                        replay_fails_with(data, 0, e) == replay_fails_with(data, reader.pos(), e),
                },
            ensures
                replay_log(data) == Some(done),
                memtable@ == replay_entries(done),
                max == max_lsn(done),
            decreases data.len() - reader.pos(),
        {
            let ghost pos = reader.pos();
            let next = reader.next_record();
            match next {
                Ok(None) => {
                    proof {
                        reveal(crate::wal::reader::read_frame);
                        assert(replay_from(data, pos) == Some(Seq::<WalEntry>::empty()));
                        assert(done + Seq::<WalEntry>::empty() =~= done);
                    }
                    break;
                },
                Ok(Some(record)) => {
                    let ghost e = record@;
                    let lsn_val = record.lsn.as_u64();
                    if lsn_val > max {
                        max = lsn_val;
                    }
                    match record.op {
                        WalOp::Put => {
                            if let Some(val) = record.value {
                                memtable.put(record.key, val);
                            }
                        },
                        WalOp::Delete => {
                            memtable.delete(record.key);
                        },
                    }
                    proof {
                        let len = reader.pos() - pos;
                        match replay_from(data, reader.pos()) {
                            Some(rest) => {
                                assert(replay_from(data, pos) == Some(seq![e] + rest));
                                assert(done + (seq![e] + rest) =~= done.push(e) + rest);
                            },
                            None => {
                                assert(replay_from(data, pos) is None);
                                assert forall|err: DzongError|
                                    replay_fails_with(data, pos, err) == replay_fails_with(
                                        data,
                                        reader.pos(),
                                        err,
                                    ) by {}
                            },
                        }
                        assert(done.push(e).drop_last() =~= done);
                        done = done.push(e);
                    }
                },
                Err(err) => {
                    proof {
                        assert(replay_from(data, pos) is None);
                        assert(replay_fails_with(data, pos, err));
                        assert(replay_fails_with(data, 0, err));
                    }
                    return Err(err);
                },
            }
        }
        if max == u64::MAX {
            return Err(lsn_exhausted());
        }
        let next_lsn = SequenceNumber::new(max + 1);
        Ok(DzongEngine { memtable, next_lsn })
    }

    /// Assigns the next LSN to a put of `value` at `key` and returns the
    /// record to make durable; the memtable changes only when that record
    /// is applied.
    pub fn put(&mut self, key: Key, value: Value) -> (r: Result<WalRecord>)
        ensures
            final(self).state() == old(self).state(),
            old(self).lsn() < u64::MAX ==> {
                &&& r matches Ok(rec)
                &&& rec@ == WalEntry {
                    op: WalOp::Put,
                    lsn: old(self).lsn(),
                    key: key@,
                    value: Some(value@),
                }
                &&& final(self).lsn() == old(self).lsn() + 1
            },
            old(self).lsn() == u64::MAX ==> r is Err && is_lsn_exhausted(r->Err_0)
                && final(self).lsn() == old(self).lsn(),
    {
        let lsn = self.assign_lsn()?;
        Ok(WalRecord { op: WalOp::Put, lsn, key, value: Some(value) })
    }

    /// Retrieves the value associated with the key.
    pub fn get(&self, key: &Key) -> (r: Result<Option<Value>>)
        ensures
            r matches Ok(v) && opt_value_view(v) == lookup(self.state(), key@),
    {
        Ok(self.memtable.get(key))
    }

    /// Assigns the next LSN to a delete of `key` and returns the record to
    /// make durable; the memtable changes only when that record is applied.
    pub fn delete(&mut self, key: Key) -> (r: Result<WalRecord>)
        ensures
            final(self).state() == old(self).state(),
            old(self).lsn() < u64::MAX ==> {
                &&& r matches Ok(rec)
                &&& rec@ == WalEntry { op: WalOp::Delete, lsn: old(self).lsn(), key: key@, value: None }
                &&& final(self).lsn() == old(self).lsn() + 1
            },
            old(self).lsn() == u64::MAX ==> r is Err && is_lsn_exhausted(r->Err_0)
                && final(self).lsn() == old(self).lsn(),
    {
        let lsn = self.assign_lsn()?;
        Ok(WalRecord { op: WalOp::Delete, lsn, key, value: None })
    }

    /// Applies a record that has been made durable to the memtable.
    pub fn apply(&mut self, record: WalRecord)
        ensures
            final(self).state() == apply_entry(old(self).state(), record@),
            final(self).lsn() == old(self).lsn(),
    {
        match record.op {
            WalOp::Put => {
                if let Some(val) = record.value {
                    self.memtable.put(record.key, val);
                }
            },
            WalOp::Delete => {
                self.memtable.delete(record.key);
            },
        }
    }

    /// The LSN that the next write gets.
    pub fn next_lsn(&self) -> (r: SequenceNumber)
        ensures
            r@ == self.lsn(),
    {
        self.next_lsn
    }

    fn assign_lsn(&mut self) -> (r: Result<SequenceNumber>)
        ensures
            final(self).state() == old(self).state(),
            old(self).lsn() < u64::MAX ==> (r matches Ok(l) && l@ == old(self).lsn()
                && final(self).lsn() == old(self).lsn() + 1),
            old(self).lsn() == u64::MAX ==> r is Err && is_lsn_exhausted(r->Err_0)
                && final(self).lsn() == old(self).lsn(),
    {
        let lsn = self.next_lsn;
        if lsn.as_u64() == u64::MAX {
            return Err(lsn_exhausted());
        }
        self.next_lsn = SequenceNumber::new(lsn.as_u64() + 1);
        Ok(lsn)
    }
}

} // verus!
