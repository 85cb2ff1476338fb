//! What reads give back of writes, before and after a restart, and the
//! LSNs that follow recovery.
use crate::db::engine::{apply_entry, lookup, max_lsn, replay_entries};
use crate::wal::laws::{lemma_wal_log_replays, wal_encodable, wal_log};
use crate::wal::reader::replay_log;
use crate::wal::record::{WalEntry, WalOp};
use vstd::prelude::*;

verus! {

/// A read after a put finds the value put.
pub proof fn lemma_read_after_put(m: Map<Seq<u8>, Option<Seq<u8>>>, key: Seq<u8>, value: Seq<u8>, lsn: u64)
    ensures
        lookup(
            apply_entry(m, WalEntry { op: WalOp::Put, lsn, key, value: Some(value) }),
            key,
        ) == Some(value),
{
}

/// A read after a delete finds nothing.
pub proof fn lemma_read_after_delete(m: Map<Seq<u8>, Option<Seq<u8>>>, key: Seq<u8>, lsn: u64)
    ensures
        lookup(apply_entry(m, WalEntry { op: WalOp::Delete, lsn, key, value: None }), key)
            is None,
{
}

/// A write leaves what reads of other keys find unchanged.
pub proof fn lemma_write_keeps_other_keys(m: Map<Seq<u8>, Option<Seq<u8>>>, e: WalEntry, other: Seq<u8>)
    requires
        other != e.key,
    ensures
        lookup(apply_entry(m, e), other) == lookup(m, other),
{
}

/// The LSNs handed out after recovery (from the largest seen, plus one) are
/// larger than every LSN in the log.
pub proof fn lemma_recovered_lsns_fresh(es: Seq<WalEntry>)
    ensures
        forall|i: int| 0 <= i < es.len() ==> (#[trigger] es[i]).lsn <= max_lsn(es),
    decreases es.len(),
{
    if es.len() > 0 {
        lemma_recovered_lsns_fresh(es.drop_last());
        assert forall|i: int| 0 <= i < es.len() implies (#[trigger] es[i]).lsn <= max_lsn(es) by {
            if i < es.len() - 1 {
                assert(es[i] == es.drop_last()[i]);
            }
        }
    }
}

/// An engine's writes read the same after a restart: reopening the log of
/// the records it applied (each written as the engine writes them, a put
/// with its value, empty or not) replays exactly those records, so every key
/// reads as it did before, and the next LSN follows the same largest one.
pub proof fn lemma_reopen_reads_same(es: Seq<WalEntry>, key: Seq<u8>)
    requires
        forall|i: int| 0 <= i < es.len() ==> wal_encodable(#[trigger] es[i]),
    ensures
        replay_log(wal_log(es)) matches Some(rs) && lookup(replay_entries(rs), key) == lookup(
            replay_entries(es),
            key,
        ) && max_lsn(rs) == max_lsn(es),
{
    lemma_wal_log_replays(es);
}

} // verus!
