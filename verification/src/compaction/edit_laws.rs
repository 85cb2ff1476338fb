//! What a compaction's edits do to the version they were made against.
use crate::compaction::picker::job_inputs;
use crate::compaction::worker::{is_input, level_removals, removal_edits, removals_at};
use crate::manifest::record::{EditView, FileView};
use crate::manifest::version::apply_edit_view;
use vstd::prelude::*;

verus! {

broadcast use vstd::seq_lib::group_seq_properties;

/// The files of each level after applying `edits` in order.
pub open spec fn apply_edits(levels: Seq<Seq<FileView>>, edits: Seq<EditView>) -> Seq<Seq<FileView>>
    decreases edits.len(),
{
    if edits.len() == 0 {
        levels
    } else {
        apply_edit_view(apply_edits(levels, edits.drop_last()), edits.last())
    }
}

/// The levels after a compaction of the files with the input paths in
/// `from` and `to` into the table `file`, added to `to`.
pub open spec fn after_compaction(
    levels: Seq<Seq<FileView>>,
    from: u32,
    to: u32,
    inputs: Seq<String>,
    file: FileView,
) -> Seq<Seq<FileView>> {
    apply_edits(
        levels,
        removal_edits(levels, from, to, inputs).push(EditView::AddFile { level: to, file: file }),
    )
}

/// Some file of `fs` with an input path has the id `id`.
spec fn removed_id(fs: Seq<FileView>, inputs: Seq<String>, id: u64) -> bool {
    exists|k: int| 0 <= k < fs.len() && is_input(inputs, fs[k].path) && #[trigger] fs[k].id == id
}

/// Applying `a` and then `b` is applying `a + b`.
proof fn lemma_apply_edits_concat(levels: Seq<Seq<FileView>>, a: Seq<EditView>, b: Seq<EditView>)
    ensures
        apply_edits(levels, a + b) == apply_edits(apply_edits(levels, a), b),
    decreases b.len(),
{
    if b.len() == 0 {
        assert(a + b =~= a);
    } else {
        assert((a + b).drop_last() =~= a + b.drop_last());
        lemma_apply_edits_concat(levels, a, b.drop_last());
    }
}

/// The removals of the input files of `fs` at `level` leave the other
/// levels alone, and keep in `level` only files that were there and whose
/// id is not that of a removed file.
proof fn lemma_level_removals(levels: Seq<Seq<FileView>>, level: u32, fs: Seq<FileView>, inputs: Seq<String>)
    requires
        level < levels.len(),
    ensures
        apply_edits(levels, level_removals(level, fs, inputs)).len() == levels.len(),
        forall|l: int|
            0 <= l < levels.len() && l != level ==> #[trigger] apply_edits(
                levels,
                level_removals(level, fs, inputs),
            )[l] == levels[l],
        forall|x: FileView|
            #[trigger] apply_edits(levels, level_removals(level, fs, inputs))[level as int].contains(x)
                ==> levels[level as int].contains(x) && !removed_id(fs, inputs, x.id),
        apply_edits(levels, level_removals(level, fs, inputs))[level as int].len() <= levels[level as int].len(),
    decreases fs.len(),
{
    if fs.len() > 0 {
        let init = fs.drop_last();
        let last = fs.last();
        lemma_level_removals(levels, level, init, inputs);
        let pre = level_removals(level, init, inputs);
        let prev = apply_edits(levels, pre);
        let after = apply_edits(levels, level_removals(level, fs, inputs));
        if is_input(inputs, last.path) {
            let e = EditView::RemoveFile { level: level, id: last.id };
            assert(pre.push(e).drop_last() =~= pre);
            let pred = |f: FileView| f.id != last.id;
            assert(after == apply_edit_view(prev, e));
            prev[level as int].lemma_filter_len(pred);
            assert forall|x: FileView| #[trigger] after[level as int].contains(x) implies levels[
                level as int].contains(x) && !removed_id(fs, inputs, x.id) by {
                let filt = prev[level as int].filter(pred);
                assert(after[level as int] == filt);
                prev[level as int].lemma_filter_contains_rev(pred, x);
                let i = choose|i: int| 0 <= i < filt.len() && filt[i] == x;
                prev[level as int].lemma_filter_pred(pred, i);
                if removed_id(fs, inputs, x.id) {
                    let k = choose|k: int|
                        0 <= k < fs.len() && is_input(inputs, fs[k].path) && #[trigger] fs[k].id == x.id;
                    if k < init.len() {
                        assert(init[k] == fs[k]);
                        assert(removed_id(init, inputs, x.id));
                    }
                }
            }
        } else {
            assert forall|x: FileView| #[trigger] after[level as int].contains(x) implies !removed_id(
                fs,
                inputs,
                x.id,
            ) by {
                if removed_id(fs, inputs, x.id) {
                    let k = choose|k: int|
                        0 <= k < fs.len() && is_input(inputs, fs[k].path) && #[trigger] fs[k].id == x.id;
                    assert(k < init.len());
                    assert(init[k] == fs[k]);
                    assert(removed_id(init, inputs, x.id));
                }
            }
        }
    }
}

/// A file kept in a level whose input files were all removed has no input
/// path.
proof fn lemma_kept_not_input(fs: Seq<FileView>, inputs: Seq<String>, x: FileView)
    requires
        fs.contains(x),
        !removed_id(fs, inputs, x.id),
    ensures
        !is_input(inputs, x.path),
{
    let k = choose|k: int| 0 <= k < fs.len() && fs[k] == x;
    if is_input(inputs, x.path) {
        assert(removed_id(fs, inputs, x.id));
    }
}

/// The removals of the input files of `level` in `levels`, as the levels
/// after them hold it.
proof fn lemma_removals_at(levels: Seq<Seq<FileView>>, level: u32, inputs: Seq<String>)
    requires
        level < levels.len(),
    ensures
        apply_edits(levels, removals_at(levels, level, inputs)).len() == levels.len(),
        forall|l: int|
            0 <= l < levels.len() && l != level ==> #[trigger] apply_edits(
                levels,
                removals_at(levels, level, inputs),
            )[l] == levels[l],
        forall|x: FileView|
            #[trigger] apply_edits(levels, removals_at(levels, level, inputs))[level as int].contains(x)
                ==> levels[level as int].contains(x) && !is_input(inputs, x.path),
        apply_edits(levels, removals_at(levels, level, inputs))[level as int].len() <= levels[level as int].len(),
{
    lemma_level_removals(levels, level, levels[level as int], inputs);
    assert forall|x: FileView|
        #[trigger] apply_edits(levels, removals_at(levels, level, inputs))[level as int].contains(x)
        implies levels[level as int].contains(x) && !is_input(inputs, x.path) by {
        lemma_kept_not_input(levels[level as int], inputs, x);
    }
}

/// Applying a compaction's edits to the version they were made against
/// leaves every other level as it was; the source and target levels keep
/// only files they had, none with an input path; and the target level ends
/// with the new table.
pub proof fn lemma_compaction_edits(
    levels: Seq<Seq<FileView>>,
    from: u32,
    to: u32,
    inputs: Seq<String>,
    file: FileView,
)
    requires
        from < levels.len(),
        to < levels.len(),
    ensures
        after_compaction(levels, from, to, inputs, file).len() == levels.len(),
        forall|l: int|
            0 <= l < levels.len() && l != from && l != to ==> #[trigger] after_compaction(
                levels,
                from,
                to,
                inputs,
                file,
            )[l] == levels[l],
        after_compaction(levels, from, to, inputs, file)[to as int].len() > 0,
        after_compaction(levels, from, to, inputs, file)[to as int].len() <= levels[to as int].len() + 1,
        from != to ==> after_compaction(levels, from, to, inputs, file)[from as int].len()
            <= levels[from as int].len(),
        after_compaction(levels, from, to, inputs, file)[to as int].last() == file,
        forall|x: FileView|
            #[trigger] after_compaction(levels, from, to, inputs, file)[to as int].drop_last().contains(x)
                ==> levels[to as int].contains(x) && !is_input(inputs, x.path),
        from != to ==> forall|x: FileView|
            #[trigger] after_compaction(levels, from, to, inputs, file)[from as int].contains(x)
                ==> levels[from as int].contains(x) && !is_input(inputs, x.path),
{
    let rem = removal_edits(levels, from, to, inputs);
    let add = EditView::AddFile { level: to, file: file };
    assert(rem.push(add).drop_last() =~= rem);
    let mid = apply_edits(levels, rem);
    let after = after_compaction(levels, from, to, inputs, file);
    assert(after == apply_edit_view(mid, add));
    lemma_removals_at(levels, from, inputs);
    let m1 = apply_edits(levels, removals_at(levels, from, inputs));
    if from == to {
        assert(mid == m1);
        assert(after[to as int].drop_last() =~= mid[to as int]);
    } else {
        let r2 = removals_at(levels, to, inputs);
        lemma_apply_edits_concat(levels, removals_at(levels, from, inputs), r2);
        assert(m1[to as int] == levels[to as int]);
        assert(r2 == removals_at(m1, to, inputs));
        lemma_removals_at(m1, to, inputs);
        assert(mid == apply_edits(m1, r2));
        assert(after[to as int].drop_last() =~= mid[to as int]);
        assert(after[from as int] == mid[from as int]);
        assert(mid[from as int] == m1[from as int]);
    }
}

/// A level-0 compaction of every level-0 file (and the level-1 files
/// picked with them) leaves level 0 empty and adds one table to level 1, so
/// that from two level-0 files on, levels 0 and 1 hold fewer files together.
pub proof fn lemma_level0_compaction_fewer_files(
    levels: Seq<Seq<FileView>>,
    inputs: Seq<String>,
    file: FileView,
)
    requires
        levels.len() > 1,
        inputs.len() == job_inputs(levels).len(),
        forall|i: int| 0 <= i < inputs.len() ==> (#[trigger] inputs[i])@ == job_inputs(levels)[i].path,
    ensures
        after_compaction(levels, 0, 1, inputs, file)[0].len() == 0,
        after_compaction(levels, 0, 1, inputs, file)[1].len() <= levels[1].len() + 1,
        levels[0].len() >= 2 ==> after_compaction(levels, 0, 1, inputs, file)[0].len()
            + after_compaction(levels, 0, 1, inputs, file)[1].len() < levels[0].len() + levels[1].len(),
{
    let after = after_compaction(levels, 0, 1, inputs, file);
    lemma_compaction_edits(levels, 0, 1, inputs, file);
    if after[0].len() > 0 {
        assert(after[0].contains(after[0][0]));
        let x = after[0][0];
        let k = choose|k: int| 0 <= k < levels[0].len() && levels[0][k] == x;
        assert(job_inputs(levels)[k] == levels[0][k]);
        assert(inputs[k]@ == x.path);
    }
}

} // verus!
