//! How edits compose.
use crate::manifest::record::{EditView, FileView};
use crate::manifest::version::apply_edit_view;
use vstd::prelude::*;

verus! {

/// Keeping the files whose id differs from `id` keeps all of them when none
/// has that id.
proof fn lemma_filter_keeps_all(fs: Seq<FileView>, id: u64)
    requires
        forall|i: int| 0 <= i < fs.len() ==> (#[trigger] fs[i]).id != id,
    ensures
        fs.filter(|f: FileView| f.id != id) == fs,
    decreases fs.len(),
{
    reveal(Seq::filter);
    if fs.len() > 0 {
        assert forall|i: int| 0 <= i < fs.drop_last().len() implies (#[trigger] fs.drop_last()[i]).id
            != id by {
            assert(fs.drop_last()[i] == fs[i]);
        }
        lemma_filter_keeps_all(fs.drop_last(), id);
        assert(fs.drop_last().push(fs.last()) =~= fs);
    } else {
        assert(fs.filter(|f: FileView| f.id != id) =~= fs);
    }
}

/// Adding a file to a level and then removing the files with its id from
/// that level gives back the version as it was, when no file of the level
/// had that id.
pub proof fn lemma_add_then_remove(levels: Seq<Seq<FileView>>, level: u32, file: FileView)
    requires
        level < levels.len(),
        forall|i: int| 0 <= i < levels[level as int].len() ==> (#[trigger] levels[level as int][i]).id
            != file.id,
    ensures
        apply_edit_view(
            apply_edit_view(levels, EditView::AddFile { level, file }),
            EditView::RemoveFile { level, id: file.id },
        ) == levels,
{
    let fs = levels[level as int];
    let pred = |f: FileView| f.id != file.id;
    lemma_filter_keeps_all(fs, file.id);
    reveal(Seq::filter);
    assert(fs.push(file).drop_last() =~= fs);
    assert(fs.push(file).filter(pred) == fs.filter(pred));
    assert(levels.update(level as int, fs) =~= levels);
}

/// Removing a file by id leaves no file with that id in its level, and
/// leaves the other levels as they were.
pub proof fn lemma_remove_drops_id(levels: Seq<Seq<FileView>>, level: u32, id: u64)
    requires
        level < levels.len(),
    ensures
        ({
            let after = apply_edit_view(levels, EditView::RemoveFile { level, id });
            &&& after.len() == levels.len()
            &&& forall|i: int| 0 <= i < after[level as int].len() ==> (#[trigger] after[level as int][i]).id != id
            &&& forall|l: int| 0 <= l < levels.len() && l != level ==> #[trigger] after[l] == levels[l]
        }),
{
    let fs = levels[level as int];
    let pred = |f: FileView| f.id != id;
    let kept = fs.filter(pred);
    assert forall|i: int| 0 <= i < kept.len() implies (#[trigger] kept[i]).id != id by {
        fs.lemma_filter_pred(pred, i);
    }
}

} // verus!
