//! What an N-way merge of runs yields, step by step.
//!
//! A run is what one input still has to give: records, possibly followed by
//! an error. Each step takes the front record of the top run (smallest key,
//! then highest LSN, then earliest run), skips the records with that key at
//! the front of every other run (those whose front record has the higher
//! LSN first, then the earlier run), and moves the top run on by one item.
use crate::common::error::{DzongError, Result};
use crate::common::order::{lemma_lex_asymmetric, lemma_lex_total, lemma_lex_transitive, lex_lt};
use crate::sstable::record::{RecordView, SstableRecord};
use vstd::prelude::*;

verus! {

/// The content of an item of a run: a record or an error.
pub open spec fn item_view(it: Result<SstableRecord>) -> core::result::Result<RecordView, DzongError> {
    match it {
        Ok(r) => Ok(r@),
        Err(e) => Err(e),
    }
}

/// What is left of a run.
pub type Run = Seq<core::result::Result<RecordView, DzongError>>;

/// The run made of the given items.
pub open spec fn run_view(items: Seq<Result<SstableRecord>>) -> Run {
    Seq::new(items.len(), |i: int| item_view(items[i]))
}

/// A live run starts with a record.
pub open spec fn live(src: Run) -> bool {
    src.len() > 0 && src[0] is Ok
}

/// A stuck run starts with an error.
pub open spec fn stuck(src: Run) -> bool {
    src.len() > 0 && src[0] is Err
}

/// The record at the front of a live run.
pub open spec fn head(src: Run) -> RecordView {
    src[0]->Ok_0
}

/// `src` without the records with `key` at its front.
pub open spec fn drop_key(src: Run, key: Seq<u8>) -> Run
    decreases src.len(),
{
    if live(src) && head(src).key == key {
        drop_key(src.drop_first(), key)
    } else {
        src
    }
}

/// Some run is live.
pub open spec fn has_live(runs: Seq<Run>) -> bool {
    exists|j: int| 0 <= j < runs.len() && #[trigger] live(runs[j])
}

/// The front record of live run `j` comes after that of run `b`: a larger
/// key, or the same key with a lower LSN, or the same key and LSN in a later
/// run.
pub open spec fn outranked(runs: Seq<Run>, j: int, b: int) -> bool {
    let kj = head(runs[j]).key;
    let kb = head(runs[b]).key;
    &&& !lex_lt(kj, kb)
    &&& kj == kb ==> head(runs[j]).lsn <= head(runs[b]).lsn
    &&& (kj == kb && j < b) ==> head(runs[j]).lsn < head(runs[b]).lsn
}

/// Run `b` is the top: live, and every live run is outranked by it.
pub open spec fn is_top(runs: Seq<Run>, b: int) -> bool {
    &&& 0 <= b < runs.len()
    &&& live(runs[b])
    &&& forall|j: int| 0 <= j < runs.len() && #[trigger] live(runs[j]) ==> outranked(runs, j, b)
}

/// The top run (meaningful where some run is live).
pub open spec fn top(runs: Seq<Run>) -> int {
    choose|b: int| is_top(runs, b)
}

/// What run `j` becomes in a step whose top is `b`: the top moves on by
/// one item, the others skip the records with the top's key.
pub open spec fn drained(runs: Seq<Run>, b: int, j: int) -> Run {
    if j == b {
        runs[j].drop_first()
    } else {
        drop_key(runs[j], head(runs[b]).key)
    }
}

/// In a step, run `i` skips its records before run `j` does: its front
/// record has the higher LSN, or the same LSN and it is the earlier run.
pub open spec fn drains_before(runs: Seq<Run>, i: int, j: int) -> bool {
    ||| head(runs[i]).lsn > head(runs[j]).lsn
    ||| (head(runs[i]).lsn == head(runs[j]).lsn && i < j)
}

/// Run `j`, not the top, is the first of the others to reach an error, in
/// the order in which they skip their records.
pub open spec fn fails_at(runs: Seq<Run>, b: int, j: int) -> bool {
    &&& 0 <= j < runs.len()
    &&& j != b
    &&& stuck(drained(runs, b, j))
    &&& forall|i: int|
        0 <= i < runs.len() && i != b && #[trigger] drains_before(runs, i, j) ==> !stuck(
            drained(runs, b, i),
        )
}

/// Some run other than the top reaches an error.
pub open spec fn others_fail(runs: Seq<Run>, b: int) -> bool {
    exists|j: int| fails_at(runs, b, j)
}

/// The run at which the step fails: the first of the others to reach an
/// error, else the top.
pub open spec fn fail_index(runs: Seq<Run>, b: int) -> int {
    if others_fail(runs, b) {
        choose|j: int| fails_at(runs, b, j)
    } else {
        b
    }
}

/// The step reaches an error.
pub open spec fn step_fails(runs: Seq<Run>, b: int) -> bool {
    others_fail(runs, b) || stuck(drained(runs, b, b))
}

/// The error a failing step reports.
pub open spec fn step_error(runs: Seq<Run>, b: int) -> DzongError {
    drained(runs, b, fail_index(runs, b))[0]->Err_0
}

/// The runs after a step that succeeds.
pub open spec fn step_runs(runs: Seq<Run>, b: int) -> Seq<Run> {
    Seq::new(runs.len(), |j: int| drained(runs, b, j))
}

/// The runs after a step that fails at run `f`: the top and run `f` are
/// given up, the others that skip before `f` have skipped the top's key,
/// the rest are as they were.
pub open spec fn failed_runs(runs: Seq<Run>, b: int, f: int) -> Seq<Run> {
    Seq::new(
        runs.len(),
        |i: int|
            if i == b || i == f {
                Seq::empty()
            } else if f == b || drains_before(runs, i, f) {
                drained(runs, b, i)
            } else {
                runs[i]
            },
    )
}

/// One step of the merge of `runs`: `out` is what it yields (nothing once
/// no run is live), `after` the runs it leaves.
pub open spec fn merge_step(
    runs: Seq<Run>,
    out: Option<core::result::Result<RecordView, DzongError>>,
    after: Seq<Run>,
) -> bool {
    if !has_live(runs) {
        out is None && after == runs
    } else if step_fails(runs, top(runs)) {
        out == Some(Err::<RecordView, DzongError>(step_error(runs, top(runs))))
            && after == failed_runs(runs, top(runs), fail_index(runs, top(runs)))
    } else {
        out == Some(Ok::<RecordView, DzongError>(head(runs[top(runs)]))) && after == step_runs(
            runs,
            top(runs),
        )
    }
}

/// The number of items left in all runs.
pub open spec fn total(runs: Seq<Run>) -> nat
    decreases runs.len(),
{
    if runs.len() == 0 {
        0
    } else {
        total(runs.drop_last()) + runs.last().len()
    }
}

/// Everything the merge of `runs` yields: the records in order, or the
/// error that ends it.
pub open spec fn merge_all(runs: Seq<Run>) -> core::result::Result<Seq<RecordView>, DzongError>
    decreases total(runs),
{
    if !has_live(runs) {
        Ok(Seq::empty())
    } else if step_fails(runs, top(runs)) {
        Err(step_error(runs, top(runs)))
    } else {
        proof {
            lemma_top_exists(runs);
            lemma_step_total(runs, top(runs));
        }
        match merge_all(step_runs(runs, top(runs))) {
            Ok(rest) => Ok(seq![head(runs[top(runs)])] + rest),
            Err(e) => Err(e),
        }
    }
}

/// A run with no item left behind the first `n` of those of `src`.
pub proof fn lemma_drop_key_skip(src: Run, key: Seq<u8>) -> (n: int)
    ensures
        0 <= n <= src.len(),
        drop_key(src, key) == src.skip(n),
        forall|q: int| 0 <= q < n ==> (#[trigger] src[q]) is Ok && src[q]->Ok_0.key == key,
        n < src.len() ==> !(src[n] is Ok && src[n]->Ok_0.key == key),
    decreases src.len(),
{
    if live(src) && head(src).key == key {
        let m = lemma_drop_key_skip(src.drop_first(), key);
        if m + 1 < src.len() {
            assert(src[m + 1] == src.drop_first()[m]);
        }
        assert(src.drop_first().skip(m) =~= src.skip(m + 1));
        assert forall|q: int| 0 <= q < m + 1 implies (#[trigger] src[q]) is Ok && src[q]->Ok_0.key
            == key by {
            if q > 0 {
                assert(src[q] == src.drop_first()[q - 1]);
            }
        }
        m + 1
    } else {
        assert(src.skip(0) =~= src);
        0
    }
}

/// A run skipping some records stays live or ends; it is stuck only where
/// the items skipped lead to an error.
pub proof fn lemma_drained_len(runs: Seq<Run>, b: int, j: int)
    requires
        is_top(runs, b),
        0 <= j < runs.len(),
    ensures
        drained(runs, b, j).len() <= runs[j].len(),
        j == b ==> drained(runs, b, j).len() < runs[j].len(),
{
    if j != b {
        lemma_drop_key_skip(runs[j], head(runs[b]).key);
    }
}

/// Totals of runs that are each no longer than the matching one.
pub proof fn lemma_total_le(a: Seq<Run>, c: Seq<Run>, s: int)
    requires
        a.len() == c.len(),
        forall|j: int| 0 <= j < a.len() ==> (#[trigger] a[j]).len() <= c[j].len(),
        0 <= s < a.len() ==> a[s].len() < c[s].len(),
    ensures
        total(a) <= total(c),
        0 <= s < a.len() ==> total(a) < total(c),
    decreases a.len(),
{
    if a.len() > 0 {
        let s2 = if s == a.len() - 1 { -1 } else { s };
        assert forall|j: int| 0 <= j < a.drop_last().len() implies (#[trigger] a.drop_last()[j]).len()
            <= c.drop_last()[j].len() by {
            assert(a.drop_last()[j] == a[j]);
            assert(c.drop_last()[j] == c[j]);
        }
        if 0 <= s2 < a.len() - 1 {
            assert(a.drop_last()[s2] == a[s2]);
            assert(c.drop_last()[s2] == c[s2]);
        }
        lemma_total_le(a.drop_last(), c.drop_last(), s2);
    }
}

/// A succeeding step leaves fewer items.
pub proof fn lemma_step_total(runs: Seq<Run>, b: int)
    requires
        is_top(runs, b),
    ensures
        total(step_runs(runs, b)) < total(runs),
{
    let a = step_runs(runs, b);
    assert forall|j: int| 0 <= j < a.len() implies (#[trigger] a[j]).len() <= runs[j].len() by {
        lemma_drained_len(runs, b, j);
    }
    lemma_drained_len(runs, b, b);
    lemma_total_le(a, runs, b);
}

/// At most one run is the top.
pub proof fn lemma_top_unique(runs: Seq<Run>, b1: int, b2: int)
    requires
        is_top(runs, b1),
        is_top(runs, b2),
    ensures
        b1 == b2,
{
    assert(live(runs[b1]) && live(runs[b2]));
    assert(outranked(runs, b1, b2));
    assert(outranked(runs, b2, b1));
    let k1 = head(runs[b1]).key;
    let k2 = head(runs[b2]).key;
    if k1 != k2 {
        lemma_lex_total(k1, k2);
    }
}

/// The top of the first runs, with one more run after them.
pub proof fn lemma_top_push(rs: Seq<Run>, b: int)
    requires
        rs.len() > 0,
        is_top(rs.drop_last(), b),
    ensures
        !live(rs.last()) ==> is_top(rs, b),
        live(rs.last()) ==> {
            let kl = head(rs.last()).key;
            let kb = head(rs[b]).key;
            if lex_lt(kl, kb) || (kl == kb && head(rs.last()).lsn > head(rs[b]).lsn) {
                is_top(rs, rs.len() - 1)
            } else {
                is_top(rs, b)
            }
        },
{
    let n = rs.len() - 1;
    let d = rs.drop_last();
    assert(rs[b] == d[b]);
    assert forall|j: int| 0 <= j < n && #[trigger] live(rs[j]) implies outranked(rs, j, b) by {
        assert(rs[j] == d[j]);
        assert(live(d[j]));
        assert(outranked(d, j, b));
    }
    if live(rs.last()) {
        let kl = head(rs.last()).key;
        let kb = head(rs[b]).key;
        if lex_lt(kl, kb) || (kl == kb && head(rs.last()).lsn > head(rs[b]).lsn) {
            assert forall|j: int| 0 <= j < rs.len() && #[trigger] live(rs[j]) implies outranked(
                rs,
                j,
                n,
            ) by {
                if j < n {
                    let kj = head(rs[j]).key;
                    assert(outranked(rs, j, b));
                    if lex_lt(kl, kb) {
                        if lex_lt(kj, kl) {
                            lemma_lex_transitive(kj, kl, kb);
                        }
                        if kj == kl {
                        }
                    }
                } else {
                    lemma_lex_asymmetric(kl, kl);
                }
            }
        } else {
            if kl != kb {
                lemma_lex_total(kl, kb);
            }
            assert(outranked(rs, n, b));
        }
    }
}

/// A first live run is the top of runs before which none is live.
pub proof fn lemma_top_first_live(rs: Seq<Run>)
    requires
        rs.len() > 0,
        !has_live(rs.drop_last()),
        live(rs.last()),
    ensures
        is_top(rs, rs.len() - 1),
{
    let n = rs.len() - 1;
    assert forall|j: int| 0 <= j < rs.len() && #[trigger] live(rs[j]) implies outranked(rs, j, n) by {
        if j < n {
            assert(rs.drop_last()[j] == rs[j]);
            assert(live(rs.drop_last()[j]));
        } else {
            lemma_lex_asymmetric(head(rs[n]).key, head(rs[n]).key);
        }
    }
}

/// Where a run is live, there is a top.
pub proof fn lemma_top_exists(runs: Seq<Run>)
    ensures
        has_live(runs) ==> is_top(runs, top(runs)),
    decreases runs.len(),
{
    if has_live(runs) {
        let d = runs.drop_last();
        lemma_top_exists(d);
        if has_live(d) {
            lemma_top_push(runs, top(d));
        } else {
            let j = choose|j: int| 0 <= j < runs.len() && #[trigger] live(runs[j]);
            if j < runs.len() - 1 {
                assert(d[j] == runs[j]);
                assert(live(d[j]));
            }
            lemma_top_first_live(runs);
        }
    }
}

/// At most one run is the first of the others to fail.
pub proof fn lemma_fails_at_unique(runs: Seq<Run>, b: int, j1: int, j2: int)
    requires
        fails_at(runs, b, j1),
        fails_at(runs, b, j2),
    ensures
        j1 == j2,
{
    if j1 != j2 {
        if drains_before(runs, j1, j2) {
            assert(!stuck(drained(runs, b, j1)));
        } else {
            assert(drains_before(runs, j2, j1));
            assert(!stuck(drained(runs, b, j2)));
        }
    }
}

/// Where a run other than the top is stuck once it has skipped the top's
/// key, some run fails the step.
proof fn lemma_some_fails(runs: Seq<Run>, b: int, i: int)
    requires
        0 <= i < runs.len(),
        i != b,
        stuck(drained(runs, b, i)),
    ensures
        others_fail(runs, b),
    decreases u64::MAX - head(runs[i]).lsn, i,
{
    if !fails_at(runs, b, i) {
        let i2 = choose|i2: int|
            0 <= i2 < runs.len() && i2 != b && #[trigger] drains_before(runs, i2, i) && stuck(
                drained(runs, b, i2),
            );
        lemma_some_fails(runs, b, i2);
    }
}

/// The merge of runs none of which starts with an error ends with an error
/// where some run holds one: an input's error is never dropped.
pub proof fn lemma_merge_surfaces_error(runs: Seq<Run>, j: int, q: int)
    requires
        forall|i: int| 0 <= i < runs.len() ==> !stuck(#[trigger] runs[i]),
        0 <= j < runs.len(),
        0 <= q < runs[j].len(),
        runs[j][q] is Err,
    ensures
        merge_all(runs) is Err,
    decreases total(runs),
{
    if !has_live(runs) {
        assert(!live(runs[j]) && !stuck(runs[j]));
    } else {
        lemma_top_exists(runs);
        let b = top(runs);
        if !step_fails(runs, b) {
            let next = step_runs(runs, b);
            assert forall|i: int| 0 <= i < next.len() implies !stuck(#[trigger] next[i]) by {
                if i != b && stuck(drained(runs, b, i)) {
                    lemma_some_fails(runs, b, i);
                }
            }
            lemma_step_total(runs, b);
            if j == b {
                assert(runs[j][0] is Ok);
                assert(next[j][q - 1] == runs[j][q]);
                lemma_merge_surfaces_error(next, j, q - 1);
            } else {
                let n = lemma_drop_key_skip(runs[j], head(runs[b]).key);
                assert(q >= n);
                assert(next[j][q - n] == runs[j][q]);
                lemma_merge_surfaces_error(next, j, q - n);
            }
        }
    }
}

} // verus!
