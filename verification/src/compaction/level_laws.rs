//! A level-0 compaction keeps the key ranges of level 1 apart.
use crate::common::error::DzongError;
use crate::common::order::{lemma_lex_asymmetric, lemma_lex_total, lemma_lex_transitive, lex_le, lex_lt};
use crate::compaction::edit_laws::{after_compaction, lemma_compaction_edits};
use crate::compaction::laws::{in_runs, lemma_compaction_of_written_tables};
use crate::compaction::merge_spec::{merge_all, Run};
use crate::compaction::picker::{job_inputs, lemma_untaken_outside, overlapping, overlaps_span};
use crate::compaction::tombstones::{lemma_live_from, lemma_live_sorted, live_records};
use crate::compaction::worker::{is_input, output_file, scans_to};
use crate::manifest::record::FileView;
use crate::sstable::laws::{keys_increasing, sst_encodable};
use crate::sstable::layout::{table_blocks, table_layout};
use crate::sstable::record::RecordView;
use crate::sstable::scan_laws::ok_items;
use crate::sstable::writer::table_fits;
use vstd::prelude::*;

verus! {

/// The key ranges of two files share a key.
pub open spec fn ranges_overlap(f: FileView, g: FileView) -> bool {
    lex_le(f.min_key, g.max_key) && lex_le(g.min_key, f.max_key)
}

/// No two different files of the level share a key.
pub open spec fn level_disjoint(fs: Seq<FileView>) -> bool {
    forall|f: FileView, g: FileView|
        #[trigger] fs.contains(f) && #[trigger] fs.contains(g) && f != g ==> !ranges_overlap(f, g)
}

/// A file's first key is not after its last.
pub open spec fn range_ordered(f: FileView) -> bool {
    lex_le(f.min_key, f.max_key)
}

/// Every key of `rs` lies within the range of `f`.
pub open spec fn keys_within(rs: Seq<RecordView>, f: FileView) -> bool {
    forall|q: int| 0 <= q < rs.len() ==> lex_le(f.min_key, #[trigger] rs[q].key) && lex_le(rs[q].key, f.max_key)
}

/// `a < b <= c` gives `a < c`, and `a <= b < c` too.
proof fn lemma_lt_le(a: Seq<u8>, b: Seq<u8>, c: Seq<u8>)
    ensures
        lex_lt(a, b) && lex_le(b, c) ==> lex_lt(a, c),
        lex_le(a, b) && lex_lt(b, c) ==> lex_lt(a, c),
{
    if lex_lt(a, b) && lex_lt(b, c) {
        lemma_lex_transitive(a, b, c);
    }
    if lex_le(a, b) && lex_lt(b, c) && lex_lt(a, b) {
        lemma_lex_transitive(a, b, c);
    }
}

/// What is not at or before `b` is after it.
proof fn lemma_not_le(a: Seq<u8>, b: Seq<u8>)
    ensures
        !lex_le(a, b) ==> lex_lt(b, a),
        lex_lt(b, a) ==> !lex_le(a, b),
{
    if a != b {
        lemma_lex_total(a, b);
    }
    lemma_lex_asymmetric(a, b);
    lemma_lex_asymmetric(a, a);
}

/// The files that overlap a range are files of the level that overlap it.
proof fn lemma_overlapping_from(span: Seq<FileView>, fs: Seq<FileView>)
    ensures
        forall|k: int|
            0 <= k < overlapping(span, fs).len() ==> overlaps_span(span, #[trigger] overlapping(span, fs)[k])
                && fs.contains(overlapping(span, fs)[k]),
    decreases fs.len(),
{
    if fs.len() > 0 {
        let init = fs.drop_last();
        lemma_overlapping_from(span, init);
        let o = overlapping(span, fs);
        let oi = overlapping(span, init);
        assert forall|k: int| 0 <= k < o.len() implies overlaps_span(span, #[trigger] o[k]) && fs.contains(o[k]) by {
            if k < oi.len() {
                assert(o[k] == oi[k]);
                let m = choose|m: int| 0 <= m < init.len() && init[m] == oi[k];
                assert(fs[m] == init[m]);
            } else {
                assert(o[k] == fs[fs.len() - 1]);
            }
        }
    }
}

/// Each record a compaction of written tables writes is a record of one of
/// the tables.
#[verifier::rlimit(40)]
proof fn lemma_live_from_tables(rss: Seq<Seq<RecordView>>, runs: Seq<Run>)
    requires
        forall|i: int| 0 <= i < rss.len() ==> table_fits(#[trigger] rss[i]) && keys_increasing(rss[i]),
        forall|i: int, j: int| 0 <= i < rss.len() && 0 <= j < rss[i].len() ==> sst_encodable(#[trigger] rss[i][j]),
        runs.len() == rss.len(),
        forall|i: int| 0 <= i < runs.len() ==> scans_to(table_layout(table_blocks(rss[i])), #[trigger] runs[i]),
    ensures
        merge_all(runs) is Ok,
        forall|p: int|
            0 <= p < live_records(merge_all(runs)->Ok_0).len() ==> exists|i: int, q: int|
                0 <= i < rss.len() && 0 <= q < rss[i].len() && #[trigger] rss[i][q]
                    == #[trigger] live_records(merge_all(runs)->Ok_0)[p],
{
    lemma_compaction_of_written_tables(rss, runs);
    let out = merge_all(runs)->Ok_0;
    let live = live_records(out);
    lemma_live_from(out);
    assert forall|p: int| 0 <= p < live.len() implies exists|i: int, q: int|
        0 <= i < rss.len() && 0 <= q < rss[i].len() && #[trigger] rss[i][q] == #[trigger] live[p] by {
        let j = choose|j: int| 0 <= j < out.len() && out[j] == #[trigger] live[p];
        assert(in_runs(runs, out[j]));
        let (i, q) = choose|i: int, q: int|
            0 <= i < runs.len() && 0 <= q < runs[i].len() && #[trigger] runs[i][q] == Ok::<RecordView, DzongError>(out[j]);
        assert(runs[i] == ok_items(rss[i]));
        assert(rss[i][q] == live[p]);
    }
}

/// Where a level-1 file `g` lies wholly before level 0, a key at or after
/// the first key of an input file `f` (a level-0 file, or a level-1 file
/// that overlaps level 0 and not `g`) lies after `g`.
proof fn lemma_key_after(l0: Seq<FileView>, f: FileView, g: FileView, k: Seq<u8>)
    requires
        forall|a: int| 0 <= a < l0.len() ==> lex_lt(g.max_key, #[trigger] l0[a].min_key),
        lex_le(f.min_key, k),
        range_ordered(g),
        l0.contains(f) || (overlaps_span(l0, f) && !ranges_overlap(f, g)),
    ensures
        lex_lt(g.max_key, k),
{
    if l0.contains(f) {
        let a = choose|a: int| 0 <= a < l0.len() && l0[a] == f;
        assert(lex_lt(g.max_key, l0[a].min_key));
        lemma_lt_le(g.max_key, f.min_key, k);
    } else {
        lemma_not_le(f.min_key, g.max_key);
        lemma_not_le(g.min_key, f.max_key);
        if lex_le(f.min_key, g.max_key) {
            // f ends before g starts, yet some level-0 file starts before f ends
            let a = choose|a: int| 0 <= a < l0.len() && lex_le(#[trigger] l0[a].min_key, f.max_key);
            assert(lex_lt(g.max_key, l0[a].min_key));
            lemma_lt_le(f.max_key, g.min_key, g.max_key);
            lemma_lt_le(l0[a].min_key, f.max_key, g.max_key);
            lemma_lt_le(g.max_key, l0[a].min_key, g.max_key);
            lemma_lex_asymmetric(g.max_key, g.max_key);
        } else {
            lemma_lt_le(g.max_key, f.min_key, k);
        }
    }
}

/// Where a level-1 file `g` lies wholly after level 0, a key at or before
/// the last key of an input file `f` (a level-0 file, or a level-1 file
/// that overlaps level 0 and not `g`) lies before `g`.
proof fn lemma_key_before(l0: Seq<FileView>, f: FileView, g: FileView, k: Seq<u8>)
    requires
        forall|b: int| 0 <= b < l0.len() ==> lex_lt(#[trigger] l0[b].max_key, g.min_key),
        lex_le(k, f.max_key),
        range_ordered(g),
        l0.contains(f) || (overlaps_span(l0, f) && !ranges_overlap(f, g)),
    ensures
        lex_lt(k, g.min_key),
{
    if l0.contains(f) {
        let b = choose|b: int| 0 <= b < l0.len() && l0[b] == f;
        assert(lex_lt(l0[b].max_key, g.min_key));
        lemma_lt_le(k, f.max_key, g.min_key);
    } else {
        lemma_not_le(f.min_key, g.max_key);
        lemma_not_le(g.min_key, f.max_key);
        if lex_le(g.min_key, f.max_key) {
            // g ends before f starts, yet f starts before some level-0 file ends
            let b = choose|b: int| 0 <= b < l0.len() && lex_le(f.min_key, #[trigger] l0[b].max_key);
            assert(lex_lt(l0[b].max_key, g.min_key));
            lemma_lt_le(g.max_key, f.min_key, l0[b].max_key);
            lemma_lt_le(g.max_key, l0[b].max_key, g.min_key);
            lemma_lt_le(g.min_key, g.max_key, g.min_key);
            lemma_lex_asymmetric(g.min_key, g.min_key);
        } else {
            lemma_lt_le(k, f.max_key, g.min_key);
        }
    }
}

/// The input file that a record of table `i` of a level-0 job lies in is a
/// level-0 file, or a level-1 file that overlaps level 0.
proof fn lemma_input_kind(levels: Seq<Seq<FileView>>, i: int)
    requires
        levels.len() > 1,
        0 <= i < job_inputs(levels).len(),
    ensures
        levels[0].contains(job_inputs(levels)[i]) || (overlaps_span(levels[0], job_inputs(levels)[i])
            && levels[1].contains(job_inputs(levels)[i])),
{
    lemma_overlapping_from(levels[0], levels[1]);
    if i < levels[0].len() {
        assert(job_inputs(levels)[i] == levels[0][i]);
    } else {
        assert(job_inputs(levels)[i] == overlapping(levels[0], levels[1])[i - levels[0].len()]);
    }
}

/// A level-0 compaction of written tables whose records lie within their
/// files' ranges keeps the files of level 1 apart: where the files of
/// levels 0 and 1 have ordered ranges, those of level 1 share no key, and
/// the compaction writes some record, the level 1 that applying its edits
/// leaves shares no key between two different files.
pub proof fn lemma_compaction_keeps_level1_apart(
    levels: Seq<Seq<FileView>>,
    inputs: Seq<String>,
    rss: Seq<Seq<RecordView>>,
    runs: Seq<Run>,
    base: Seq<char>,
    id: u64,
    size: nat,
)
    requires
        levels.len() > 1,
        forall|f: FileView| #[trigger] levels[1].contains(f) ==> range_ordered(f),
        level_disjoint(levels[1]),
        inputs.len() == job_inputs(levels).len(),
        forall|i: int| 0 <= i < inputs.len() ==> (#[trigger] inputs[i])@ == job_inputs(levels)[i].path,
        rss.len() == inputs.len(),
        forall|i: int| 0 <= i < rss.len() ==> keys_within(#[trigger] rss[i], job_inputs(levels)[i]),
        forall|i: int| 0 <= i < rss.len() ==> table_fits(#[trigger] rss[i]) && keys_increasing(rss[i]),
        forall|i: int, j: int| 0 <= i < rss.len() && 0 <= j < rss[i].len() ==> sst_encodable(#[trigger] rss[i][j]),
        runs.len() == rss.len(),
        forall|i: int| 0 <= i < runs.len() ==> scans_to(table_layout(table_blocks(rss[i])), #[trigger] runs[i]),
        live_records(merge_all(runs)->Ok_0).len() > 0,
    ensures
        merge_all(runs) is Ok,
        level_disjoint(
            after_compaction(
                levels,
                0,
                1,
                inputs,
                output_file(base, id, live_records(merge_all(runs)->Ok_0), size),
            )[1],
        ),
{
    let l0 = levels[0];
    let l1 = levels[1];
    let live = live_records(merge_all(runs)->Ok_0);
    let file = output_file(base, id, live, size);
    let after = after_compaction(levels, 0, 1, inputs, file);
    let ji = job_inputs(levels);
    lemma_compaction_edits(levels, 0, 1, inputs, file);
    lemma_live_from_tables(rss, runs);
    lemma_untaken_outside(l0, l1);
    let a1 = after[1];
    let kept = a1.drop_last();
    assert forall|g: FileView| #[trigger] kept.contains(g) implies !ranges_overlap(file, g) && !ranges_overlap(
        g,
        file,
    ) by {
        assert(l1.contains(g) && !is_input(inputs, g.path));
        let m = choose|m: int| 0 <= m < l1.len() && l1[m] == g;
        if overlaps_span(l0, g) {
            assert(overlapping(l0, l1).contains(l1[m]));
            let k = choose|k: int| 0 <= k < overlapping(l0, l1).len() && overlapping(l0, l1)[k] == l1[m];
            assert(ji[l0.len() + k] == g);
            assert(inputs[l0.len() + k]@ == g.path);
        }
        assert(range_ordered(g));
        // each key written comes from an input file other than g
        assert forall|p: int| 0 <= p < live.len() implies exists|i: int, q: int|
            0 <= i < rss.len() && 0 <= q < rss[i].len() && rss[i][q] == #[trigger] live[p]
                && (l0.contains(ji[i]) || (overlaps_span(l0, ji[i]) && !ranges_overlap(ji[i], g)))
                && keys_within(rss[i], ji[i]) by {
            let (i, q) = choose|i: int, q: int|
                0 <= i < rss.len() && 0 <= q < rss[i].len() && #[trigger] rss[i][q] == #[trigger] live[p];
            lemma_input_kind(levels, i);
            if !l0.contains(ji[i]) {
                assert(inputs[i]@ == ji[i].path);
                assert(ji[i] != g);
                assert(level_disjoint(l1));
            }
        }
        if forall|a: int| 0 <= a < l0.len() ==> lex_lt(g.max_key, #[trigger] l0[a].min_key) {
            let (i, q) = choose|i: int, q: int|
                0 <= i < rss.len() && 0 <= q < rss[i].len() && rss[i][q] == #[trigger] live[0]
                    && (l0.contains(ji[i]) || (overlaps_span(l0, ji[i]) && !ranges_overlap(ji[i], g)))
                    && keys_within(rss[i], ji[i]);
            lemma_key_after(l0, ji[i], g, live[0].key);
            lemma_not_le(file.min_key, g.max_key);
        } else {
            let a = choose|a: int| 0 <= a < l0.len() && !lex_lt(g.max_key, #[trigger] l0[a].min_key);
            lemma_not_le(l0[a].min_key, g.max_key);
            assert forall|b: int| 0 <= b < l0.len() implies lex_lt(#[trigger] l0[b].max_key, g.min_key) by {
                lemma_not_le(g.min_key, l0[b].max_key);
            }
            let last = live.len() - 1;
            let (i, q) = choose|i: int, q: int|
                0 <= i < rss.len() && 0 <= q < rss[i].len() && rss[i][q] == #[trigger] live[last]
                    && (l0.contains(ji[i]) || (overlaps_span(l0, ji[i]) && !ranges_overlap(ji[i], g)))
                    && keys_within(rss[i], ji[i]);
            lemma_key_before(l0, ji[i], g, live[last].key);
            lemma_not_le(g.min_key, file.max_key);
        }
    }
    assert forall|f: FileView, g: FileView|
        #[trigger] a1.contains(f) && #[trigger] a1.contains(g) && f != g implies !ranges_overlap(f, g) by {
        assert(a1 == kept.push(file));
        let i = choose|i: int| 0 <= i < a1.len() && a1[i] == f;
        let j = choose|j: int| 0 <= j < a1.len() && a1[j] == g;
        if i < kept.len() {
            assert(kept[i] == f && kept.contains(f));
        }
        if j < kept.len() {
            assert(kept[j] == g && kept.contains(g));
        }
        if i < kept.len() && j < kept.len() {
            assert(l1.contains(f) && l1.contains(g));
        }
    }
}

/// The table a compaction of written tables adds records the range of its
/// keys: each key it holds lies within its file's first and last key.
pub proof fn lemma_output_range(rss: Seq<Seq<RecordView>>, runs: Seq<Run>, base: Seq<char>, id: u64, size: nat)
    requires
        forall|i: int| 0 <= i < rss.len() ==> table_fits(#[trigger] rss[i]) && keys_increasing(rss[i]),
        forall|i: int, j: int| 0 <= i < rss.len() && 0 <= j < rss[i].len() ==> sst_encodable(#[trigger] rss[i][j]),
        runs.len() == rss.len(),
        forall|i: int| 0 <= i < runs.len() ==> scans_to(table_layout(table_blocks(rss[i])), #[trigger] runs[i]),
        live_records(merge_all(runs)->Ok_0).len() > 0,
    ensures
        merge_all(runs) is Ok,
        keys_within(
            live_records(merge_all(runs)->Ok_0),
            output_file(base, id, live_records(merge_all(runs)->Ok_0), size),
        ),
        range_ordered(output_file(base, id, live_records(merge_all(runs)->Ok_0), size)),
{
    lemma_compaction_of_written_tables(rss, runs);
    let out = merge_all(runs)->Ok_0;
    assert(keys_increasing(live_records(out))) by {
        assert(keys_increasing(out)) by {
            assert forall|i: int, j: int| 0 <= i < j < out.len() implies lex_lt(#[trigger] out[i].key, #[trigger] out[j].key) by {}
        }
        lemma_live_sorted(out);
    }
    lemma_sorted_range(live_records(out), base, id, size);
}

/// Sorted records lie within the range from the first key to the last.
proof fn lemma_sorted_range(live: Seq<RecordView>, base: Seq<char>, id: u64, size: nat)
    requires
        keys_increasing(live),
        live.len() > 0,
    ensures
        keys_within(live, output_file(base, id, live, size)),
        range_ordered(output_file(base, id, live, size)),
{
    let file = output_file(base, id, live, size);
    let last = live.len() - 1;
    assert forall|q: int| 0 <= q < live.len() implies lex_le(file.min_key, #[trigger] live[q].key) && lex_le(
        live[q].key,
        file.max_key,
    ) by {
        if q > 0 {
            assert(lex_lt(live[0].key, live[q].key));
        }
        if q < last {
            assert(lex_lt(live[q].key, live[last].key));
        }
    }
    if last > 0 {
        assert(lex_lt(live[0].key, live[last].key));
    }
}

} // verus!
