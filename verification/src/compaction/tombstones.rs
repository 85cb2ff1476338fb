//! Dropping deletes from merged records: a compaction writes only puts.
use crate::common::order::{lemma_lex_asymmetric, lex_lt};
use crate::sstable::laws::{keys_increasing, sst_encodable, written_value};
use crate::sstable::record::{RecordView, SstableOp, SstableRecord};
use crate::sstable::writer::records_view;
use vstd::prelude::*;

verus! {

/// The put records of `rs`, in their order.
pub open spec fn live_records(rs: Seq<RecordView>) -> Seq<RecordView>
    decreases rs.len(),
{
    if rs.len() == 0 {
        Seq::empty()
    } else if rs.last().op == SstableOp::Put {
        live_records(rs.drop_last()).push(rs.last())
    } else {
        live_records(rs.drop_last())
    }
}

/// Each record kept is a put.
proof fn lemma_live_puts(rs: Seq<RecordView>)
    ensures
        forall|i: int| 0 <= i < live_records(rs).len() ==> (#[trigger] live_records(rs)[i]).op == SstableOp::Put,
    decreases rs.len(),
{
    if rs.len() > 0 {
        lemma_live_puts(rs.drop_last());
    }
}

/// Each record kept is one of the records.
pub proof fn lemma_live_from(rs: Seq<RecordView>)
    ensures
        forall|i: int|
            0 <= i < live_records(rs).len() ==> exists|j: int|
                0 <= j < rs.len() && rs[j] == #[trigger] live_records(rs)[i],
    decreases rs.len(),
{
    if rs.len() > 0 {
        let init = rs.drop_last();
        lemma_live_from(init);
        let li = live_records(init);
        let l = live_records(rs);
        assert forall|i: int| 0 <= i < l.len() implies exists|j: int|
            0 <= j < rs.len() && rs[j] == #[trigger] l[i] by {
            if i < li.len() {
                let j = choose|j: int| 0 <= j < init.len() && init[j] == #[trigger] li[i];
                assert(rs[j] == l[i]);
            } else {
                assert(rs[rs.len() - 1] == l[i]);
            }
        }
    }
}

/// Every put of the records is kept.
proof fn lemma_live_keeps(rs: Seq<RecordView>)
    ensures
        forall|j: int|
            0 <= j < rs.len() && (#[trigger] rs[j]).op == SstableOp::Put ==> exists|i: int|
                0 <= i < live_records(rs).len() && #[trigger] live_records(rs)[i] == rs[j],
    decreases rs.len(),
{
    if rs.len() > 0 {
        let init = rs.drop_last();
        lemma_live_keeps(init);
        let li = live_records(init);
        let l = live_records(rs);
        assert forall|j: int| 0 <= j < rs.len() && (#[trigger] rs[j]).op == SstableOp::Put implies exists|i: int|
            0 <= i < l.len() && #[trigger] l[i] == rs[j] by {
            if j < init.len() {
                assert(init[j] == rs[j]);
                let i = choose|i: int| 0 <= i < li.len() && #[trigger] li[i] == init[j];
                assert(l[i] == rs[j]);
            } else {
                assert(l[l.len() - 1] == rs[j]);
            }
        }
    }
}

/// Where the keys of the records increase, so do those of the records kept.
pub proof fn lemma_live_sorted(rs: Seq<RecordView>)
    requires
        keys_increasing(rs),
    ensures
        keys_increasing(live_records(rs)),
    decreases rs.len(),
{
    if rs.len() > 0 {
        let init = rs.drop_last();
        assert(keys_increasing(init)) by {
            assert forall|i: int, j: int| 0 <= i < j < init.len() implies lex_lt(
                #[trigger] init[i].key,
                #[trigger] init[j].key,
            ) by {
                assert(init[i] == rs[i] && init[j] == rs[j]);
            }
        }
        lemma_live_sorted(init);
        lemma_live_from(init);
        let li = live_records(init);
        let l = live_records(rs);
        if rs.last().op == SstableOp::Put {
            assert forall|i: int, i2: int| 0 <= i < i2 < l.len() implies lex_lt(
                #[trigger] l[i].key,
                #[trigger] l[i2].key,
            ) by {
                if i2 < li.len() {
                    assert(l[i] == li[i] && l[i2] == li[i2]);
                } else {
                    assert(l[i] == li[i]);
                    let j = choose|j: int| 0 <= j < init.len() && init[j] == #[trigger] li[i];
                    assert(rs[j] == l[i]);
                    assert(l[i2] == rs[rs.len() - 1]);
                }
            }
        }
    }
}

/// Dropping deletes keeps exactly the puts: each record kept is a put and
/// one of the records, every put is kept, and where the keys increase they
/// still do.
pub proof fn lemma_live_records(rs: Seq<RecordView>)
    ensures
        forall|i: int| 0 <= i < live_records(rs).len() ==> (#[trigger] live_records(rs)[i]).op == SstableOp::Put,
        forall|i: int|
            0 <= i < live_records(rs).len() ==> exists|j: int|
                0 <= j < rs.len() && rs[j] == #[trigger] live_records(rs)[i],
        forall|j: int|
            0 <= j < rs.len() && (#[trigger] rs[j]).op == SstableOp::Put ==> exists|i: int|
                0 <= i < live_records(rs).len() && #[trigger] live_records(rs)[i] == rs[j],
        keys_increasing(rs) ==> keys_increasing(live_records(rs)),
{
    lemma_live_puts(rs);
    lemma_live_from(rs);
    lemma_live_keeps(rs);
    if keys_increasing(rs) {
        lemma_live_sorted(rs);
    }
}

/// Where the keys increase, two records with one key are one record.
proof fn lemma_key_once(rs: Seq<RecordView>, a: int, b: int)
    requires
        keys_increasing(rs),
        0 <= a < rs.len(),
        0 <= b < rs.len(),
        rs[a].key == rs[b].key,
    ensures
        a == b,
{
    lemma_lex_asymmetric(rs[a].key, rs[a].key);
    if a < b {
        assert(lex_lt(rs[a].key, rs[b].key));
    } else if b < a {
        assert(lex_lt(rs[b].key, rs[a].key));
    }
}

/// Where the keys increase, a key reads the same from the records with
/// deletes dropped as from the records themselves: the value of its put,
/// nothing for a delete or a key not there.
pub proof fn lemma_written_value_live(rs: Seq<RecordView>, key: Seq<u8>)
    requires
        keys_increasing(rs),
    ensures
        written_value(live_records(rs), key) == written_value(rs, key),
{
    let l = live_records(rs);
    if exists|c: int| 0 <= c < l.len() && #[trigger] l[c].key == key {
        let c = choose|c: int| 0 <= c < l.len() && #[trigger] l[c].key == key;
        lemma_live_from(rs);
        let j = choose|j: int| 0 <= j < rs.len() && rs[j] == #[trigger] l[c];
        assert(rs[j].key == key);
        let p = choose|p: int| 0 <= p < rs.len() && #[trigger] rs[p].key == key;
        lemma_key_once(rs, j, p);
    } else if exists|p: int| 0 <= p < rs.len() && #[trigger] rs[p].key == key {
        let p = choose|p: int| 0 <= p < rs.len() && #[trigger] rs[p].key == key;
        if rs[p].op == SstableOp::Put {
            lemma_live_keeps(rs);
            let i = choose|i: int| 0 <= i < l.len() && #[trigger] l[i] == rs[p];
            assert(l[i].key == key);
        }
    }
}

/// The records kept are encodable where the records are, and sorted where
/// they are.
pub proof fn lemma_live_encodable(rs: Seq<RecordView>)
    requires
        forall|i: int| 0 <= i < rs.len() ==> sst_encodable(#[trigger] rs[i]),
    ensures
        forall|i: int| 0 <= i < live_records(rs).len() ==> sst_encodable(#[trigger] live_records(rs)[i]),
        keys_increasing(rs) ==> keys_increasing(live_records(rs)),
{
    let l = live_records(rs);
    lemma_live_from(rs);
    assert forall|i: int| 0 <= i < l.len() implies sst_encodable(#[trigger] l[i]) by {
        let j = choose|j: int| 0 <= j < rs.len() && rs[j] == #[trigger] l[i];
        assert(sst_encodable(rs[j]));
    }
    if keys_increasing(rs) {
        lemma_live_sorted(rs);
    }
}

/// The put records of `records`, as clones, in their order.
pub fn drop_tombstones(records: &Vec<SstableRecord>) -> (r: Vec<SstableRecord>)
    ensures
        records_view(r@) == live_records(records_view(records@)),
{
    let mut out: Vec<SstableRecord> = Vec::new();
    let mut k: usize = 0;
    while k < records.len()
        invariant
            k <= records@.len(),
            records_view(out@) == live_records(records_view(records@).take(k as int)),
        decreases records@.len() - k,
    {
        let ghost all = records_view(records@);
        let ghost before = records_view(out@);
        assert(all.take(k + 1).drop_last() =~= all.take(k as int));
        assert(all.take(k + 1).last() == records@[k as int]@);
        if records[k].op == SstableOp::Put {
            out.push(records[k].clone());
            assert(records_view(out@) =~= before.push(records@[k as int]@));
        }
        k = k + 1;
    }
    assert(records_view(records@).take(records@.len() as int) =~= records_view(records@));
    out
}

} // verus!
