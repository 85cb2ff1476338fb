//! An N-way merge of runs of records: the smallest key first, and for a key
//! present in several runs only the record with the highest LSN.
use crate::common::error::{DzongError, Result};
use crate::common::key_value::Key;
use crate::common::order::{bytes_eq, bytes_lt};
use crate::compaction::merge_spec::{
    drained, drains_before, drop_key, fail_index, fails_at, failed_runs, has_live, head, is_top,
    item_view,
    lemma_drop_key_skip, lemma_fails_at_unique, lemma_step_total, lemma_top_exists, lemma_top_first_live,
    lemma_top_push, lemma_top_unique, live, merge_all, merge_step, others_fail, run_view,
    step_runs, stuck, top, total, Run,
};
use crate::sstable::record::{RecordView, SstableRecord};
use crate::sstable::writer::records_view;
use vstd::prelude::*;

verus! {

/// What a step of the merge yields, as a view.
pub open spec fn yielded_view(r: Option<Result<SstableRecord>>) -> Option<
    core::result::Result<RecordView, DzongError>,
> {
    match r {
        Some(it) => Some(item_view(it)),
        None => None,
    }
}

/// A whole merge, as a view.
pub open spec fn merged_view(r: Result<Vec<SstableRecord>>) -> core::result::Result<
    Seq<RecordView>,
    DzongError,
> {
    match r {
        Ok(v) => Ok(records_view(v@)),
        Err(e) => Err(e),
    }
}

/// `out` followed by what is still to come.
pub open spec fn prepend(
    out: Seq<RecordView>,
    rest: core::result::Result<Seq<RecordView>, DzongError>,
) -> core::result::Result<Seq<RecordView>, DzongError> {
    match rest {
        Ok(s) => Ok(out + s),
        Err(e) => Err(e),
    }
}

/// One input of the merge: the record at its front, and the items still to
/// come, stored in reverse so that the next one is last.
struct IterWrapper {
    rev_items: Vec<Result<SstableRecord>>,
    next: Option<SstableRecord>,
}

impl IterWrapper {
    /// The items still to come behind the front record, in order.
    spec fn rest(self) -> Run {
        Seq::new(
            self.rev_items@.len(),
            |i: int| item_view(self.rev_items@[self.rev_items@.len() - 1 - i]),
        )
    }

    /// What the input still has to give: nothing once it has ended or
    /// failed, else its front record and the items to come.
    spec fn run(self) -> Run {
        match self.next {
            Some(r) => seq![Ok::<RecordView, DzongError>(r@)] + self.rest(),
            None => Seq::empty(),
        }
    }

    /// Wraps the items of an input; fails if the first is an error.
    fn new(items: Vec<Result<SstableRecord>>) -> (r: Result<Self>)
        ensures
            r is Err <==> stuck(run_view(items@)),
            r matches Ok(w) ==> w.run() == run_view(items@),
            r matches Err(e) ==> run_view(items@)[0] == Err::<RecordView, DzongError>(e),
    {
        let mut items = items;
        let ghost orig = items@;
        let mut rev_items: Vec<Result<SstableRecord>> = Vec::new();
        while items.len() > 0
            invariant
                items@.len() + rev_items@.len() == orig.len(),
                forall|i: int| 0 <= i < items@.len() ==> items@[i] == orig[i],
                forall|i: int|
                    0 <= i < rev_items@.len() ==> rev_items@[i] == orig[orig.len() - 1 - i],
            decreases items@.len(),
        {
            let it = items.pop().unwrap();
            rev_items.push(it);
        }
        let mut w = IterWrapper { rev_items, next: None };
        assert(w.rest() =~= run_view(orig));
        match w.advance() {
            Ok(()) => Ok(w),
            Err(e) => Err(e),
        }
    }

    /// Moves to the next item: a record becomes the front; the end or an
    /// error leaves none, and the error is returned.
    fn advance(&mut self) -> (r: Result<()>)
        ensures
            r is Err <==> stuck(old(self).rest()),
            r is Ok ==> final(self).run() == old(self).rest(),
            r matches Err(e) ==> old(self).rest()[0] == Err::<RecordView, DzongError>(e)
                && final(self).run().len() == 0,
    {
        match self.rev_items.pop() {
            None => {
                self.next = None;
                proof {
                    assert(self.run() =~= old(self).rest());
                }
                Ok(())
            },
            Some(Ok(rec)) => {
                self.next = Some(rec);
                proof {
                    assert(self.run() =~= old(self).rest());
                }
                Ok(())
            },
            Some(Err(e)) => {
                self.next = None;
                Err(e)
            },
        }
    }

    /// Skips the records with `key` at the front.
    fn drain(&mut self, key: &Key) -> (r: Result<()>)
        ensures
            r is Err <==> stuck(drop_key(old(self).run(), key@)),
            r is Ok ==> final(self).run() == drop_key(old(self).run(), key@),
            r matches Err(e) ==> drop_key(old(self).run(), key@)[0] == Err::<
                RecordView,
                DzongError,
            >(e) && final(self).run().len() == 0,
    {
        let ghost target = drop_key(self.run(), key@);
        loop
            invariant
                drop_key(self.run(), key@) == target,
                target == drop_key(old(self).run(), key@),
            decreases self.run().len(),
        {
            let same = match &self.next {
                Some(rec) => bytes_eq(rec.key.as_slice(), key.as_slice()),
                None => false,
            };
            if !same {
                proof {
                    if self.next is Some {
                        assert(self.run()[0] == Ok::<RecordView, DzongError>(self.next->0@));
                    }
                    assert(drop_key(self.run(), key@) == self.run());
                }
                return Ok(());
            }
            let ghost rest_before = self.rest();
            proof {
                assert(self.run()[0] == Ok::<RecordView, DzongError>(self.next->0@));
                assert(self.run().drop_first() =~= self.rest());
                assert(drop_key(self.run(), key@) == drop_key(rest_before, key@));
            }
            match self.advance() {
                Ok(()) => {},
                Err(e) => {
                    proof {
                        assert(drop_key(rest_before, key@) == rest_before);
                    }
                    return Err(e);
                },
            }
        }
    }
}

/// The number of flags set.
spec fn count_set(s: Seq<bool>) -> nat
    decreases s.len(),
{
    if s.len() == 0 {
        0
    } else {
        count_set(s.drop_last()) + if s.last() {
            1nat
        } else {
            0nat
        }
    }
}

/// Clearing a set flag lowers the count by one.
proof fn lemma_count_clear(s: Seq<bool>, c: int)
    requires
        0 <= c < s.len(),
        s[c],
    ensures
        count_set(s.update(c, false)) + 1 == count_set(s),
    decreases s.len(),
{
    if c == s.len() - 1 {
        assert(s.update(c, false).drop_last() =~= s.drop_last());
    } else {
        assert(s.update(c, false).drop_last() =~= s.drop_last().update(c, false));
        lemma_count_clear(s.drop_last(), c);
    }
}

/// The pending run to skip next: the one with the highest LSN, then the
/// earliest.
fn best_pending(pending: &Vec<bool>, lsns: &Vec<u64>) -> (r: Option<usize>)
    requires
        pending@.len() == lsns@.len(),
    ensures
        r is None <==> forall|i: int| 0 <= i < pending@.len() ==> !pending@[i],
        r matches Some(c) ==> c < pending@.len() && pending@[c as int] && forall|j: int|
            0 <= j < pending@.len() && pending@[j] && j != c ==> (lsns@[c as int] > lsns@[j] || (
            lsns@[c as int] == lsns@[j] && c < j)),
{
    let mut best: Option<usize> = None;
    let mut i: usize = 0;
    while i < pending.len()
        invariant
            i <= pending@.len() == lsns@.len(),
            best is None ==> forall|k: int| 0 <= k < i ==> !pending@[k],
            best matches Some(c) ==> c < i && pending@[c as int] && forall|j: int|
                0 <= j < i && pending@[j] && j != c ==> (lsns@[c as int] > lsns@[j] || (lsns@[c as int]
                    == lsns@[j] && c < j)),
        decreases pending@.len() - i,
    {
        if pending[i] {
            match best {
                None => {
                    best = Some(i);
                },
                Some(c) => {
                    if lsns[i] > lsns[c] {
                        best = Some(i);
                    }
                },
            }
        }
        i = i + 1;
    }
    best
}

/// An N-way merge of runs of records.
pub struct MergeIterator {
    heap: Vec<IterWrapper>,
}

impl MergeIterator {
    /// What each input still has to give, in the order the inputs came.
    pub closed spec fn runs(self) -> Seq<Run> {
        Seq::new(self.heap@.len(), |i: int| self.heap@[i].run())
    }

    /// Starts merging inputs, each given as the items it yields. Fails with
    /// the error that the first input starting with one starts with.
    pub fn new(iters: Vec<Vec<Result<SstableRecord>>>) -> (r: Result<Self>)
        ensures
            r is Err <==> exists|i: int|
                0 <= i < iters@.len() && #[trigger] stuck(run_view(iters@[i]@)),
            r matches Ok(m) ==> m.runs() == Seq::new(
                iters@.len(),
                |i: int| run_view(iters@[i]@),
            ),
            r matches Err(e) ==> exists|i: int|
                #![trigger run_view(iters@[i]@)]
                0 <= i < iters@.len() && stuck(run_view(iters@[i]@)) && run_view(iters@[i]@)[0]
                    == Err::<RecordView, DzongError>(e) && forall|j: int|
                    0 <= j < i ==> !stuck(#[trigger] run_view(iters@[j]@)),
    {
        let mut pending = iters;
        let ghost orig = pending@;
        let mut heap: Vec<IterWrapper> = Vec::new();
        while pending.len() > 0
            invariant
                heap@.len() + pending@.len() == orig.len(),
                orig == iters@,
                forall|i: int| 0 <= i < pending@.len() ==> pending@[i] == orig[heap@.len() + i],
                forall|i: int| 0 <= i < heap@.len() ==> (#[trigger] heap@[i]).run() == run_view(orig[i]@),
                forall|i: int| 0 <= i < heap@.len() ==> !stuck(#[trigger] run_view(orig[i]@)),
            decreases pending@.len(),
        {
            let items = pending.remove(0);
            let ghost k = heap@.len();
            assert(items == orig[k as int]);
            match IterWrapper::new(items) {
                Ok(w) => {
                    heap.push(w);
                },
                Err(e) => {
                    proof {
                        assert(stuck(run_view(orig[k as int]@)));
                        assert(run_view(orig[k as int]@)[0] == Err::<RecordView, DzongError>(e));
                        assert forall|j: int| 0 <= j < k implies !stuck(
                            #[trigger] run_view(orig[j]@),
                        ) by {}
                    }
                    return Err(e);
                },
            }
        }
        let m = MergeIterator { heap };
        proof {
            assert(m.runs() =~= Seq::new(orig.len(), |i: int| run_view(orig[i]@)));
            assert forall|i: int| 0 <= i < orig.len() implies !#[trigger] stuck(run_view(orig[i]@)) by {
                assert(m.heap@[i].run() == run_view(orig[i]@));
            }
        }
        Ok(m)
    }

    /// The top run: the live one with the smallest front key, then the
    /// highest LSN, then the earliest.
    fn top_index(&self) -> (r: Option<usize>)
        ensures
            r is None <==> !has_live(self.runs()),
            r matches Some(b) ==> is_top(self.runs(), b as int),
    {
        let ghost rs = self.runs();
        let mut best: Option<usize> = None;
        let mut i: usize = 0;
        while i < self.heap.len()
            invariant
                rs == self.runs(),
                i <= self.heap@.len() == rs.len(),
                best is None ==> !has_live(rs.take(i as int)),
                best matches Some(b) ==> b < i && is_top(rs.take(i as int), b as int),
            decreases self.heap@.len() - i,
        {
            let ghost t = rs.take(i + 1);
            proof {
                assert(t.drop_last() =~= rs.take(i as int));
                assert(t.last() == self.heap@[i as int].run());
            }
            match &self.heap[i].next {
                None => {
                    proof {
                        match best {
                            Some(b) => {
                                lemma_top_push(t, b as int);
                            },
                            None => {
                                assert forall|j: int| 0 <= j < t.len() implies !#[trigger] live(
                                    t[j],
                                ) by {
                                    if j < i {
                                        assert(t[j] == t.drop_last()[j]);
                                    }
                                }
                            },
                        }
                    }
                },
                Some(rec) => {
                    match best {
                        None => {
                            proof {
                                lemma_top_first_live(t);
                            }
                            best = Some(i);
                        },
                        Some(b) => {
                            proof {
                                lemma_top_push(t, b as int);
                                assert(t[b as int] == self.heap@[b as int].run());
                                assert(live(t[b as int]));
                            }
                            match &self.heap[b].next {
                                Some(brec) => {
                                    let lt = bytes_lt(rec.key.as_slice(), brec.key.as_slice());
                                    let eq = bytes_eq(rec.key.as_slice(), brec.key.as_slice());
                                    if lt || (eq && rec.lsn > brec.lsn) {
                                        best = Some(i);
                                    }
                                },
                                None => {},
                            }
                        },
                    }
                },
            }
            i = i + 1;
        }
        proof {
            assert(rs.take(i as int) =~= rs);
        }
        best
    }

    /// Takes the next record of the merge: the front record of the top run.
    /// The records with its key at the front of the other runs are skipped,
    /// the run whose front record has the highest LSN first (the earlier run
    /// on a tie), and the top run moves on by one item. An error met on the
    /// way is returned instead; the top run and the run that failed are then
    /// given up. `None` once no run is live.
    pub fn next(&mut self) -> (r: Option<Result<SstableRecord>>)
        ensures
            merge_step(old(self).runs(), yielded_view(r), final(self).runs()),
    {
        let ghost runs = self.runs();
        let b = match self.top_index() {
            None => {
                return None;
            },
            Some(b) => b,
        };
        proof {
            lemma_top_exists(runs);
            lemma_top_unique(runs, b as int, top(runs));
            assert(self.heap@[b as int].run() == runs[b as int]);
        }
        let key = match &self.heap[b].next {
            Some(rec) => rec.key.clone(),
            None => {
                return None;
            },
        };
        let mut heap: Vec<IterWrapper> = Vec::new();
        std::mem::swap(&mut heap, &mut self.heap);
        let n = heap.len();
        proof {
            assert forall|i: int| 0 <= i < n implies !stuck(#[trigger] runs[i]) by {
                assert(runs[i] == heap@[i].run());
                if heap@[i].next is Some {
                    assert(heap@[i].run()[0] == Ok::<RecordView, DzongError>(heap@[i].next->0@));
                }
            }
        }
        // the runs that start with the top's key, and the LSNs they start with
        let mut pending: Vec<bool> = Vec::new();
        let mut lsns: Vec<u64> = Vec::new();
        let mut i: usize = 0;
        while i < n
            invariant
                heap@.len() == n == runs.len(),
                forall|k: int| 0 <= k < n ==> (#[trigger] heap@[k]).run() == runs[k],
                i <= n,
                pending@.len() == i,
                lsns@.len() == i,
                forall|k: int|
                    0 <= k < i ==> (#[trigger] pending@[k] <==> (k != b && live(runs[k]) && head(
                        runs[k],
                    ).key == key@)),
                forall|k: int| 0 <= k < i && #[trigger] pending@[k] ==> lsns@[k] == head(runs[k]).lsn,
            decreases n - i,
        {
            let (p, l) = match &heap[i].next {
                Some(rec) => {
                    proof {
                        assert(heap@[i as int].run()[0] == Ok::<RecordView, DzongError>(rec@));
                    }
                    (i != b && bytes_eq(rec.key.as_slice(), key.as_slice()), rec.lsn)
                },
                None => (false, 0),
            };
            pending.push(p);
            lsns.push(l);
            i = i + 1;
        }
        loop
            invariant
                heap@.len() == n == runs.len(),
                runs == old(self).runs(),
                has_live(runs),
                top(runs) == b,
                b < n,
                is_top(runs, b as int),
                key@ == head(runs[b as int]).key,
                forall|k: int| 0 <= k < n ==> !stuck(#[trigger] runs[k]),
                pending@.len() == n,
                lsns@.len() == n,
                !pending@[b as int],
                forall|k: int|
                    0 <= k < n && #[trigger] pending@[k] ==> live(runs[k]) && head(runs[k]).key
                        == key@ && lsns@[k] == head(runs[k]).lsn,
                forall|k: int|
                    0 <= k < n ==> (#[trigger] heap@[k]).run() == (if k != b && !pending@[k] {
                        drained(runs, b as int, k)
                    } else {
                        runs[k]
                    }),
                forall|k: int|
                    0 <= k < n && k != b && !#[trigger] pending@[k] ==> !stuck(
                        drained(runs, b as int, k),
                    ),
                forall|k: int, m: int|
                    0 <= k < n && 0 <= m < n && k != b && live(runs[k]) && head(runs[k]).key
                        == key@ && !#[trigger] pending@[k] && #[trigger] pending@[m]
                        ==> drains_before(runs, k, m),
            ensures
                forall|k: int| 0 <= k < n ==> !pending@[k],
                heap@.len() == n,
                forall|k: int|
                    0 <= k < n ==> (#[trigger] heap@[k]).run() == (if k != b {
                        drained(runs, b as int, k)
                    } else {
                        runs[k]
                    }),
                forall|k: int| 0 <= k < n && k != b ==> !stuck(#[trigger] drained(runs, b as int, k)),
            decreases count_set(pending@),
        {
            let c = match best_pending(&pending, &lsns) {
                None => {
                    proof {
                        assert forall|k: int| 0 <= k < n && k != b implies !stuck(
                            #[trigger] drained(runs, b as int, k),
                        ) by {
                            assert(!pending@[k]);
                        }
                    }
                    break;
                },
                Some(c) => c,
            };
            proof {
                assert(c != b);
                assert(forall|m: int|
                    0 <= m < n && #[trigger] pending@[m] && m != c ==> drains_before(
                        runs,
                        c as int,
                        m,
                    ));
                lemma_count_clear(pending@, c as int);
            }
            let ghost pend0 = pending@;
            let mut w = heap.remove(c);
            let res = w.drain(&key);
            heap.insert(c, w);
            pending.set(c, false);
            match res {
                Ok(()) => {},
                Err(e) => {
                    let mut t = heap.remove(b);
                    t.next = None;
                    heap.insert(b, t);
                    self.heap = heap;
                    proof {
                        assert forall|k: int|
                            0 <= k < runs.len() && k != b && #[trigger] drains_before(
                                runs,
                                k,
                                c as int,
                            ) implies !stuck(drained(runs, b as int, k)) by {
                            if k != c && pend0[k] {
                                assert(drains_before(runs, c as int, k));
                            }
                        }
                        assert(fails_at(runs, b as int, c as int));
                        lemma_fails_at_unique(
                            runs,
                            b as int,
                            c as int,
                            choose|f: int| fails_at(runs, b as int, f),
                        );
                        assert(fail_index(runs, b as int) == c);
                        assert forall|k: int| 0 <= k < n && k != b && k != c implies (
                        #[trigger] self.heap@[k]).run() == (if drains_before(runs, k, c as int) {
                            drained(runs, b as int, k)
                        } else {
                            runs[k]
                        }) by {
                            if live(runs[k]) && head(runs[k]).key == key@ {
                                if pend0[k] {
                                    assert(drains_before(runs, c as int, k));
                                }
                            } else {
                                lemma_drop_key_skip(runs[k], key@);
                                assert(drained(runs, b as int, k) =~= runs[k]);
                            }
                        }
                        assert(self.runs() =~= failed_runs(runs, b as int, c as int));
                    }
                    return Some(Err(e));
                },
            }
        }
        proof {
            assert(!others_fail(runs, b as int));
        }
        let mut t = heap.remove(b);
        let front = t.next.take();
        let rec = match front {
            Some(rec) => rec,
            None => {
                return None;
            },
        };
        assert(t.rest() =~= runs[b as int].drop_first());
        let res = t.advance();
        heap.insert(b, t);
        self.heap = heap;
        match res {
            Ok(()) => {
                proof {
                    assert(self.runs() =~= step_runs(runs, b as int));
                }
                Some(Ok(rec))
            },
            Err(e) => {
                proof {
                    assert(self.runs() =~= failed_runs(runs, b as int, b as int));
                }
                Some(Err(e))
            },
        }
    }

    /// Runs the merge to its end: all the records in order, or the first
    /// error met.
    pub fn collect(self) -> (r: Result<Vec<SstableRecord>>)
        ensures
            merged_view(r) == merge_all(self.runs()),
    {
        let mut m = self;
        let mut out: Vec<SstableRecord> = Vec::new();
        let ghost whole = merge_all(m.runs());
        proof {
            assert(records_view(out@) =~= Seq::<RecordView>::empty());
            match merge_all(m.runs()) {
                Ok(s) => {
                    assert(Seq::<RecordView>::empty() + s =~= s);
                },
                Err(_) => {},
            }
        }
        loop
            invariant
                whole == prepend(records_view(out@), merge_all(m.runs())),
                whole == merge_all(self.runs()),
            decreases total(m.runs()),
        {
            let ghost before = m.runs();
            let item = m.next();
            proof {
                lemma_top_exists(before);
            }
            match item {
                None => {
                    proof {
                        assert(records_view(out@) + Seq::<RecordView>::empty() =~= records_view(
                            out@,
                        ));
                    }
                    return Ok(out);
                },
                Some(Ok(rec)) => {
                    let ghost prev = records_view(out@);
                    out.push(rec);
                    proof {
                        lemma_step_total(before, top(before));
                        assert(records_view(out@) =~= prev.push(rec@));
                        match merge_all(m.runs()) {
                            Ok(s) => {
                                assert(prev + (seq![rec@] + s) =~= prev.push(rec@) + s);
                            },
                            Err(_) => {},
                        }
                    }
                },
                Some(Err(e)) => {
                    return Err(e);
                },
            }
        }
    }
}

} // verus!
