//! What merging sorted runs yields.
use crate::common::error::DzongError;
use crate::common::order::{lemma_lex_asymmetric, lemma_lex_total, lemma_lex_transitive, lex_lt};
use crate::compaction::merge_spec::{
    drained, fails_at, has_live, head, is_top, lemma_drop_key_skip, lemma_step_total,
    lemma_top_exists, live, merge_all, outranked, step_fails, step_runs, stuck, top, total, Run,
};
use crate::compaction::tombstones::{lemma_live_encodable, lemma_written_value_live, live_records};
use crate::compaction::worker::{first_stuck, scans_to};
use crate::common::key_value::{opt_value_view, Value};
use crate::common::error::Result;
use crate::sstable::laws::{
    keys_increasing, lemma_table_lookup_records, sst_encodable, written_value,
};
use crate::sstable::table::{record_value, table_get_outcome};
use crate::sstable::layout::{table_blocks, table_layout};
use crate::sstable::record::RecordView;
use crate::sstable::scan_laws::{lemma_table_scan, ok_items};
use crate::sstable::writer::table_fits;
use vstd::prelude::*;

verus! {

/// The key of the record at position `q` of a run.
pub open spec fn key_at(src: Run, q: int) -> Seq<u8> {
    src[q]->Ok_0.key
}

/// A run of records only, each key after the one before it, as a table
/// yields them.
pub open spec fn sorted_run(src: Run) -> bool {
    &&& forall|q: int| 0 <= q < src.len() ==> (#[trigger] src[q]) is Ok
    &&& forall|p: int, q: int|
        0 <= p < q < src.len() ==> lex_lt(#[trigger] key_at(src, p), #[trigger] key_at(src, q))
}

/// Every run is sorted.
pub open spec fn all_sorted(runs: Seq<Run>) -> bool {
    forall|j: int| 0 <= j < runs.len() ==> sorted_run(#[trigger] runs[j])
}

/// Record `r` is in one of the runs.
pub open spec fn in_runs(runs: Seq<Run>, r: RecordView) -> bool {
    exists|j: int, q: int|
        0 <= j < runs.len() && 0 <= q < runs[j].len() && #[trigger] runs[j][q] == Ok::<
            RecordView,
            DzongError,
        >(r)
}

/// A merged output: keys strictly increasing, each record from the runs
/// and the newest (highest LSN) of those with its key, and every key of the
/// runs present.
pub open spec fn merged_from(runs: Seq<Run>, out: Seq<RecordView>) -> bool {
    &&& forall|i: int, i2: int|
        0 <= i < i2 < out.len() ==> lex_lt(#[trigger] out[i].key, #[trigger] out[i2].key)
    &&& forall|i: int| 0 <= i < out.len() ==> in_runs(runs, #[trigger] out[i])
    &&& forall|i: int, j: int, q: int|
        0 <= i < out.len() && 0 <= j < runs.len() && 0 <= q < runs[j].len() && #[trigger] key_at(
            runs[j],
            q,
        ) == #[trigger] out[i].key ==> runs[j][q]->Ok_0.lsn <= out[i].lsn
    &&& forall|j: int, q: int|
        0 <= j < runs.len() && 0 <= q < runs[j].len() ==> key_in(out, #[trigger] key_at(runs[j], q))
}

/// Some record of `out` has `key`.
pub open spec fn key_in(out: Seq<RecordView>, key: Seq<u8>) -> bool {
    exists|i: int| 0 <= i < out.len() && #[trigger] out[i].key == key
}

/// How many records run `j` loses in a step whose top is `b`, when runs
/// are sorted: the top loses its first record, another run its first record
/// if it has the top's key.
pub open spec fn cut(runs: Seq<Run>, b: int, j: int) -> int {
    if j == b || (live(runs[j]) && head(runs[j]).key == head(runs[b]).key) {
        1
    } else {
        0
    }
}

/// In a step over sorted runs, each run loses exactly its records with the
/// top's key (at most its first) and keeps those with larger keys.
proof fn lemma_sorted_drained(runs: Seq<Run>, b: int, j: int) -> (n: int)
    requires
        all_sorted(runs),
        is_top(runs, b),
        0 <= j < runs.len(),
    ensures
        n == cut(runs, b, j),
        0 <= n <= 1,
        n <= runs[j].len(),
        drained(runs, b, j) == runs[j].skip(n),
        j == b ==> n == 1,
        forall|q: int|
            #![trigger key_at(runs[j], q)]
            0 <= q < runs[j].len() ==> (q < n <==> key_at(runs[j], q) == head(runs[b]).key) && (q
                >= n ==> lex_lt(head(runs[b]).key, key_at(runs[j], q))),
{
    let src = runs[j];
    let k = head(runs[b]).key;
    assert(sorted_run(src));
    assert(sorted_run(runs[b]));
    if src.len() == 0 {
        let n = lemma_drop_key_skip(src, k);
        if j == b {
            assert(false);
        }
        return n;
    }
    assert(src[0] is Ok);
    assert(live(src));
    assert(outranked(runs, j, b));
    let k0 = key_at(src, 0);
    assert(k0 == head(src).key);
    // every key of the run is at least the top's key
    assert forall|q: int| 0 <= q < src.len() implies !lex_lt(#[trigger] key_at(src, q), k) by {
        if q > 0 {
            assert(lex_lt(key_at(src, 0), key_at(src, q)));
            if lex_lt(key_at(src, q), k) {
                lemma_lex_transitive(k0, key_at(src, q), k);
            }
        }
    }
    let n = if j == b {
        assert(drained(runs, b, j) == src.drop_first());
        assert(src.drop_first() =~= src.skip(1));
        1int
    } else {
        let m = lemma_drop_key_skip(src, k);
        if m == 0 {
            assert(!(src[0] is Ok && src[0]->Ok_0.key == k));
        }
        if m > 1 {
            assert(key_at(src, 0) == k);
            assert(key_at(src, 1) == k);
            assert(lex_lt(key_at(src, 0), key_at(src, 1)));
            lemma_lex_asymmetric(k, k);
        }
        m
    };
    assert forall|q: int|
        #![trigger key_at(runs[j], q)]
        0 <= q < src.len() implies (q < n <==> key_at(src, q) == k) && (q >= n ==> lex_lt(
            k,
            key_at(src, q),
        )) by {
        assert(!lex_lt(key_at(src, q), k));
        if q >= n {
            if q > 0 {
                assert(lex_lt(key_at(src, 0), key_at(src, q)));
                if key_at(src, q) == k {
                    if n == 1 {
                        assert(key_at(src, 0) == k);
                        lemma_lex_asymmetric(k, k);
                    } else {
                        // n == 0: the first key is not the top's, so it is larger
                        lemma_lex_total(k0, k);
                        lemma_lex_transitive(k, k0, k);
                        lemma_lex_asymmetric(k, k);
                    }
                }
            } else {
                assert(key_at(src, 0) != k);
            }
            if key_at(src, q) != k {
                lemma_lex_total(key_at(src, q), k);
            }
        } else {
            if j == b {
                assert(key_at(src, 0) == k);
            }
        }
    }
    n
}

/// Merging runs that are each sorted, as tables yield them, never fails,
/// and yields each key of the runs once, in increasing order, with the
/// record of the highest LSN among those with that key.
pub proof fn lemma_merge_sorted_runs(runs: Seq<Run>)
    requires
        all_sorted(runs),
    ensures
        merge_all(runs) is Ok,
        merged_from(runs, merge_all(runs)->Ok_0),
    decreases total(runs),
{
    if !has_live(runs) {
        assert(merge_all(runs) == Ok::<Seq<RecordView>, DzongError>(Seq::empty()));
        let out = merge_all(runs)->Ok_0;
        assert(out.len() == 0);
        assert forall|j: int, q: int|
            #![trigger key_at(runs[j], q)]
            0 <= j < runs.len() && 0 <= q < runs[j].len() implies false by {
            assert(sorted_run(runs[j]));
            assert(runs[j][0] is Ok);
            assert(live(runs[j]));
            assert(has_live(runs));
        }
        return;
    }
    lemma_top_exists(runs);
    let b = top(runs);
    let h = head(runs[b]);
    let k = h.key;
    let s = step_runs(runs, b);
    // each drained run is a suffix of its run
    assert forall|j: int| 0 <= j < runs.len() implies !stuck(#[trigger] drained(runs, b, j))
        && sorted_run(s[j]) by {
        let n = lemma_sorted_drained(runs, b, j);
        let src = runs[j];
        assert(sorted_run(src));
        let d = src.skip(n);
        assert forall|q: int| 0 <= q < d.len() implies (#[trigger] d[q]) is Ok by {
            assert(d[q] == src[q + n]);
        }
        assert forall|p: int, q: int| 0 <= p < q < d.len() implies lex_lt(
            #[trigger] key_at(d, p),
            #[trigger] key_at(d, q),
        ) by {
            assert(key_at(d, p) == key_at(src, p + n));
            assert(key_at(d, q) == key_at(src, q + n));
        }
        if d.len() > 0 {
            assert(d[0] is Ok);
        }
    }
    assert(!step_fails(runs, b)) by {
        if exists|j: int| fails_at(runs, b, j) {
            let j = choose|j: int| fails_at(runs, b, j);
            assert(!stuck(drained(runs, b, j)));
        }
        assert(!stuck(drained(runs, b, b)));
    }
    lemma_step_total(runs, b);
    lemma_merge_sorted_runs(s);
    let rest = merge_all(s)->Ok_0;
    let out = seq![h] + rest;
    assert(merge_all(runs) == Ok::<Seq<RecordView>, DzongError>(out));
    // a record left in the drained runs sits further on in its run, and its
    // key is larger than the top's
    assert forall|j: int, q: int| 0 <= j < s.len() && 0 <= q < s[j].len() implies q + cut(
        runs,
        b,
        j,
    ) < runs[j].len() && #[trigger] s[j][q] == runs[j][q + cut(runs, b, j)] && lex_lt(
        k,
        key_at(runs[j], q + cut(runs, b, j)),
    ) by {
        let n = lemma_sorted_drained(runs, b, j);
        assert(s[j][q] == runs[j][q + n]);
        assert(lex_lt(k, key_at(runs[j], q + n)));
    }
    // what the rest yields has keys larger than the top's
    assert forall|i: int| 0 <= i < rest.len() implies lex_lt(k, #[trigger] rest[i].key) by {
        assert(in_runs(s, rest[i]));
        let (j, q) = choose|j: int, q: int|
            0 <= j < s.len() && 0 <= q < s[j].len() && #[trigger] s[j][q] == Ok::<
                RecordView,
                DzongError,
            >(rest[i]);
        assert(s[j][q] == Ok::<RecordView, DzongError>(rest[i]));
    }
    assert forall|i: int, i2: int| 0 <= i < i2 < out.len() implies lex_lt(
        #[trigger] out[i].key,
        #[trigger] out[i2].key,
    ) by {
        if i == 0 {
            assert(out[i2] == rest[i2 - 1]);
        } else {
            assert(out[i] == rest[i - 1]);
            assert(out[i2] == rest[i2 - 1]);
        }
    }
    assert forall|i: int| 0 <= i < out.len() implies in_runs(runs, #[trigger] out[i]) by {
        if i == 0 {
            assert(live(runs[b]));
            assert(runs[b][0] == Ok::<RecordView, DzongError>(out[0]));
        } else {
            assert(out[i] == rest[i - 1]);
            assert(in_runs(s, rest[i - 1]));
            let (j, q) = choose|j: int, q: int|
                0 <= j < s.len() && 0 <= q < s[j].len() && #[trigger] s[j][q] == Ok::<
                    RecordView,
                    DzongError,
                >(rest[i - 1]);
            assert(s[j][q] == Ok::<RecordView, DzongError>(rest[i - 1]));
            let n = cut(runs, b, j);
            assert(runs[j][q + n] == Ok::<RecordView, DzongError>(out[i]));
        }
    }
    assert forall|i: int, j: int, q: int|
        0 <= i < out.len() && 0 <= j < runs.len() && 0 <= q < runs[j].len() && #[trigger] key_at(
            runs[j],
            q,
        ) == #[trigger] out[i].key implies runs[j][q]->Ok_0.lsn <= out[i].lsn by {
        let n = lemma_sorted_drained(runs, b, j);
        if i == 0 {
            assert(q < n);
            assert(q == 0);
            assert(sorted_run(runs[j]));
            assert(runs[j][0] is Ok);
            assert(live(runs[j]));
            assert(outranked(runs, j, b));
        } else {
            assert(out[i] == rest[i - 1]);
            assert(lex_lt(k, rest[i - 1].key));
            if q < n {
                lemma_lex_asymmetric(k, k);
            }
            assert(s[j][q - n] == runs[j][q]);
            assert(key_at(s[j], q - n) == key_at(runs[j], q));
        }
    }
    assert forall|j: int, q: int| 0 <= j < runs.len() && 0 <= q < runs[j].len() implies key_in(
        out,
        #[trigger] key_at(runs[j], q),
    ) by {
        let n = lemma_sorted_drained(runs, b, j);
        if q < n {
            assert(out[0].key == key_at(runs[j], q));
        } else {
            assert(s[j][q - n] == runs[j][q]);
            assert(key_at(s[j], q - n) == key_at(runs[j], q));
            assert(key_in(rest, key_at(s[j], q - n)));
            let i = choose|i: int| 0 <= i < rest.len() && #[trigger] rest[i].key == key_at(
                s[j],
                q - n,
            );
            assert(out[i + 1] == rest[i]);
            assert(out[i + 1].key == key_at(runs[j], q));
        }
    }
}

/// Compacting tables written from records with increasing keys: the runs
/// the compaction merges are exactly those records, none starts with an
/// error, and the merge never fails and yields each key of the tables once,
/// in increasing order, with its newest record.
pub proof fn lemma_compaction_of_written_tables(rss: Seq<Seq<RecordView>>, runs: Seq<Run>)
    requires
        forall|i: int| 0 <= i < rss.len() ==> table_fits(#[trigger] rss[i]) && keys_increasing(rss[i]),
        forall|i: int, j: int| 0 <= i < rss.len() && 0 <= j < rss[i].len() ==> sst_encodable(#[trigger] rss[i][j]),
        runs.len() == rss.len(),
        forall|i: int| 0 <= i < runs.len() ==> scans_to(table_layout(table_blocks(rss[i])), #[trigger] runs[i]),
    ensures
        forall|i: int| 0 <= i < runs.len() ==> #[trigger] runs[i] == ok_items(rss[i]),
        forall|i: int| !first_stuck(runs, i),
        merge_all(runs) is Ok,
        merged_from(runs, merge_all(runs)->Ok_0),
{
    assert forall|i: int| 0 <= i < runs.len() implies #[trigger] runs[i] == ok_items(rss[i]) && sorted_run(runs[i]) by {
        let rs = rss[i];
        assert(table_fits(rs));
        assert forall|j: int| 0 <= j < rs.len() implies sst_encodable(#[trigger] rs[j]) by {
            assert(sst_encodable(rss[i][j]));
        }
        lemma_table_scan(rs, runs[i]);
        assert(scans_to(table_layout(table_blocks(rs)), runs[i]));
        let x = runs[i];
        assert(x == ok_items(rs));
        assert forall|p: int, q: int| 0 <= p < q < x.len() implies lex_lt(#[trigger] key_at(x, p), #[trigger] key_at(x, q)) by {
            assert(keys_increasing(rs));
            assert(lex_lt(rs[p].key, rs[q].key));
        }
    }
    assert forall|i: int| !first_stuck(runs, i) by {
        if 0 <= i < runs.len() {
            assert(sorted_run(runs[i]));
            if runs[i].len() > 0 {
                assert(runs[i][0] is Ok);
            }
        }
    }
    lemma_merge_sorted_runs(runs);
}

/// A lookup in the table of sorted records with deletes dropped reads what
/// the records themselves hold for the key.
proof fn lemma_lookup_live(out: Seq<RecordView>, key: Seq<u8>, r: Result<Option<Value>>)
    requires
        keys_increasing(out),
        forall|i: int| 0 <= i < out.len() ==> sst_encodable(#[trigger] out[i]),
        table_fits(live_records(out)),
        table_get_outcome(table_layout(table_blocks(live_records(out))), key, r),
    ensures
        r matches Ok(v) && opt_value_view(v) == written_value(out, key),
{
    lemma_live_encodable(out);
    lemma_table_lookup_records(live_records(out), key, r);
    lemma_written_value_live(out, key);
}

/// Looking a key up in the table a compaction of written tables makes (the
/// merged records with deletes dropped) finds the newest of the tables'
/// records with that key: its value for a put, nothing for a delete; and
/// nothing for a key no table has.
pub proof fn lemma_lookup_after_compaction(
    rss: Seq<Seq<RecordView>>,
    runs: Seq<Run>,
    key: Seq<u8>,
    r: Result<Option<Value>>,
)
    requires
        forall|i: int| 0 <= i < rss.len() ==> table_fits(#[trigger] rss[i]) && keys_increasing(rss[i]),
        forall|i: int, j: int| 0 <= i < rss.len() && 0 <= j < rss[i].len() ==> sst_encodable(#[trigger] rss[i][j]),
        runs.len() == rss.len(),
        forall|i: int| 0 <= i < runs.len() ==> scans_to(table_layout(table_blocks(rss[i])), #[trigger] runs[i]),
        merge_all(runs) is Ok,
        table_fits(live_records(merge_all(runs)->Ok_0)),
        table_get_outcome(table_layout(table_blocks(live_records(merge_all(runs)->Ok_0))), key, r),
    ensures
        r is Ok,
        (forall|i: int, q: int| 0 <= i < rss.len() && 0 <= q < rss[i].len() ==> #[trigger] rss[i][q].key != key)
            ==> opt_value_view(r->Ok_0) is None,
        (exists|i: int, q: int| 0 <= i < rss.len() && 0 <= q < rss[i].len() && #[trigger] rss[i][q].key == key)
            ==> exists|i: int, q: int|
            #![trigger rss[i][q]]
            0 <= i < rss.len() && 0 <= q < rss[i].len() && rss[i][q].key == key && opt_value_view(r->Ok_0)
                == record_value(Some(rss[i][q])) && forall|i2: int, q2: int|
                0 <= i2 < rss.len() && 0 <= q2 < rss[i2].len() && #[trigger] rss[i2][q2].key == key
                    ==> rss[i2][q2].lsn <= rss[i][q].lsn,
{
    lemma_compaction_of_written_tables(rss, runs);
    let out = merge_all(runs)->Ok_0;
    assert(keys_increasing(out)) by {
        assert forall|i: int, j: int| 0 <= i < j < out.len() implies lex_lt(#[trigger] out[i].key, #[trigger] out[j].key) by {}
    }
    assert forall|i: int| 0 <= i < out.len() implies sst_encodable(#[trigger] out[i]) by {
        assert(in_runs(runs, out[i]));
        let (j, q) = choose|j: int, q: int|
            0 <= j < runs.len() && 0 <= q < runs[j].len() && #[trigger] runs[j][q] == Ok::<RecordView, DzongError>(out[i]);
        assert(runs[j] == ok_items(rss[j]));
        assert(rss[j][q] == out[i]);
        assert(sst_encodable(rss[j][q]));
    }
    lemma_lookup_live(out, key, r);
    if exists|i: int, q: int| 0 <= i < rss.len() && 0 <= q < rss[i].len() && #[trigger] rss[i][q].key == key {
        let (i, q) = choose|i: int, q: int| 0 <= i < rss.len() && 0 <= q < rss[i].len() && #[trigger] rss[i][q].key == key;
        assert(runs[i] == ok_items(rss[i]));
        assert(key_at(runs[i], q) == key);
        assert(key_in(out, key_at(runs[i], q)));
        let p = choose|p: int| 0 <= p < out.len() && #[trigger] out[p].key == key;
        assert(in_runs(runs, out[p]));
        let (j, t) = choose|j: int, t: int|
            0 <= j < runs.len() && 0 <= t < runs[j].len() && #[trigger] runs[j][t] == Ok::<RecordView, DzongError>(out[p]);
        assert(runs[j] == ok_items(rss[j]));
        assert(rss[j][t] == out[p]);
        assert forall|i2: int, q2: int|
            0 <= i2 < rss.len() && 0 <= q2 < rss[i2].len() && #[trigger] rss[i2][q2].key == key
                implies rss[i2][q2].lsn <= rss[j][t].lsn by {
            assert(runs[i2] == ok_items(rss[i2]));
            assert(key_at(runs[i2], q2) == out[p].key);
            assert(runs[i2][q2]->Ok_0 == rss[i2][q2]);
        }
    } else {
        if exists|p: int| 0 <= p < out.len() && #[trigger] out[p].key == key {
            let p = choose|p: int| 0 <= p < out.len() && #[trigger] out[p].key == key;
            assert(in_runs(runs, out[p]));
            let (j, t) = choose|j: int, t: int|
                0 <= j < runs.len() && 0 <= t < runs[j].len() && #[trigger] runs[j][t] == Ok::<RecordView, DzongError>(out[p]);
            assert(runs[j] == ok_items(rss[j]));
            assert(rss[j][t] == out[p]);
        }
    }
}

} // verus!
