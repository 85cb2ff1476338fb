//! Deciding when, and which files, to compact.
use crate::common::order::{bytes_le, lex_le};
use crate::manifest::record::{FileMetadata, FileView};
use crate::manifest::version::{files_view, Version};
use vstd::prelude::*;

verus! {

/// A compaction to run: the files of one level, merged into the next.
pub struct CompactionJob {
    pub from_level: u32,
    pub to_level: u32,
    pub input_files: Vec<String>,
}

/// Picks compactions by the number of files in level 0.
pub struct CompactionPicker {
    l0_threshold: usize,
}

/// File `g` overlaps the key range that the files `span` cover together:
/// it starts at or before the last key of one of them and ends at or after
/// the first key of one of them.
pub open spec fn overlaps_span(span: Seq<FileView>, g: FileView) -> bool {
    &&& exists|b: int| 0 <= b < span.len() && lex_le(g.min_key, #[trigger] span[b].max_key)
    &&& exists|a: int| 0 <= a < span.len() && lex_le(#[trigger] span[a].min_key, g.max_key)
}

/// The files of `fs` that overlap the range of `span`, in their order.
pub open spec fn overlapping(span: Seq<FileView>, fs: Seq<FileView>) -> Seq<FileView>
    decreases fs.len(),
{
    if fs.len() == 0 {
        Seq::empty()
    } else if overlaps_span(span, fs.last()) {
        overlapping(span, fs.drop_last()).push(fs.last())
    } else {
        overlapping(span, fs.drop_last())
    }
}

/// The files a level-0 compaction takes: every file of level 0, then the
/// files of level 1 that overlap their range, so that what it writes to
/// level 1 overlaps no file left there.
pub open spec fn job_inputs(levels: Seq<Seq<FileView>>) -> Seq<FileView> {
    if levels.len() > 1 {
        levels[0] + overlapping(levels[0], levels[1])
    } else {
        levels[0]
    }
}

/// A level-1 file that a level-0 compaction leaves where it is does not
/// overlap the range of level 0: every file of `fs` that overlaps the range
/// of `span` is taken.
pub proof fn lemma_untaken_outside(span: Seq<FileView>, fs: Seq<FileView>)
    ensures
        forall|j: int|
            0 <= j < fs.len() && overlaps_span(span, #[trigger] fs[j]) ==> overlapping(span, fs).contains(fs[j]),
    decreases fs.len(),
{
    if fs.len() > 0 {
        let init = fs.drop_last();
        lemma_untaken_outside(span, init);
        assert forall|j: int| 0 <= j < fs.len() && overlaps_span(span, #[trigger] fs[j]) implies overlapping(
            span,
            fs,
        ).contains(fs[j]) by {
            let o = overlapping(span, fs);
            if j < init.len() {
                assert(init[j] == fs[j]);
                let oi = overlapping(span, init);
                assert(oi.contains(init[j]));
                let k = choose|k: int| 0 <= k < oi.len() && oi[k] == init[j];
                if overlaps_span(span, fs.last()) {
                    assert(o[k] == oi[k]);
                } else {
                    assert(o == oi);
                }
            } else {
                assert(o[o.len() - 1] == fs[j]);
            }
        }
    }
}

/// Whether `g` overlaps the range of the files `span`.
fn overlaps_files(span: &Vec<FileMetadata>, g: &FileMetadata) -> (r: bool)
    ensures
        r == overlaps_span(files_view(span@), g@),
{
    let ghost sv = files_view(span@);
    let mut starts_before = false;
    let mut ends_after = false;
    let mut i: usize = 0;
    while i < span.len()
        invariant
            i <= span@.len(),
            sv == files_view(span@),
            starts_before == exists|b: int| 0 <= b < i && lex_le(g@.min_key, #[trigger] sv[b].max_key),
            ends_after == exists|a: int| 0 <= a < i && lex_le(#[trigger] sv[a].min_key, g@.max_key),
        decreases span@.len() - i,
    {
        assert(sv[i as int] == span@[i as int]@);
        let ghost hi = sv[i as int].max_key;
        let ghost lo = sv[i as int].min_key;
        if bytes_le(g.min_key.as_slice(), span[i].max_key.as_slice()) {
            starts_before = true;
        }
        if bytes_le(span[i].min_key.as_slice(), g.max_key.as_slice()) {
            ends_after = true;
        }
        assert(starts_before == exists|b: int| 0 <= b < i + 1 && lex_le(g@.min_key, #[trigger] sv[b].max_key)) by {
            if lex_le(g@.min_key, hi) {
                assert(lex_le(g@.min_key, sv[i as int].max_key));
            }
        }
        assert(ends_after == exists|a: int| 0 <= a < i + 1 && lex_le(#[trigger] sv[a].min_key, g@.max_key)) by {
            if lex_le(lo, g@.max_key) {
                assert(lex_le(sv[i as int].min_key, g@.max_key));
            }
        }
        i = i + 1;
    }
    starts_before && ends_after
}

impl CompactionPicker {
    /// The number of level-0 files from which a compaction is due.
    pub closed spec fn threshold(self) -> usize {
        self.l0_threshold
    }

    pub fn new(l0_threshold: usize) -> (r: Self)
        ensures
            r.threshold() == l0_threshold,
    {
        Self { l0_threshold }
    }

    /// A compaction into level 1 of all level-0 files and the level-1 files
    /// that overlap their range, once level 0 holds at least the
    /// threshold's number of files; else none.
    pub fn pick_compaction(&self, version: &Version) -> (r: Option<CompactionJob>)
        requires
            version@.len() > 0,
        ensures
            r is Some <==> version@[0].len() >= self.threshold(),
            r matches Some(job) ==> {
                &&& job.from_level == 0
                &&& job.to_level == 1
                &&& job.input_files@.len() == job_inputs(version@).len()
                &&& forall|i: int|
                    0 <= i < job.input_files@.len() ==> (#[trigger] job.input_files@[i])@
                        == job_inputs(version@)[i].path
            },
    {
        let level0 = &version.levels[0];
        if level0.len() >= self.l0_threshold {
            let ghost l0 = version@[0];
            let mut input_files: Vec<String> = Vec::new();
            let mut i: usize = 0;
            while i < level0.len()
                invariant
                    level0@ == version.levels@[0]@,
                    l0 == files_view(level0@),
                    i <= level0@.len(),
                    input_files@.len() == i,
                    forall|j: int| 0 <= j < i ==> (#[trigger] input_files@[j])@ == l0[j].path,
                decreases level0@.len() - i,
            {
                input_files.push(level0[i].path.clone());
                i = i + 1;
            }
            if version.levels.len() > 1 {
                let level1 = &version.levels[1];
                let ghost l1 = version@[1];
                assert(l1.take(0) =~= Seq::<FileView>::empty());
                let mut j: usize = 0;
                while j < level1.len()
                    invariant
                        level0@ == version.levels@[0]@,
                        level1@ == version.levels@[1]@,
                        l0 == files_view(level0@),
                        l1 == files_view(level1@),
                        j <= level1@.len(),
                        input_files@.len() == (l0 + overlapping(l0, l1.take(j as int))).len(),
                        forall|k: int|
                            0 <= k < input_files@.len() ==> (#[trigger] input_files@[k])@ == (l0
                                + overlapping(l0, l1.take(j as int)))[k].path,
                    decreases level1@.len() - j,
                {
                    let ghost before = l0 + overlapping(l0, l1.take(j as int));
                    assert(l1.take(j + 1).drop_last() =~= l1.take(j as int));
                    assert(l1.take(j + 1).last() == level1@[j as int]@);
                    if overlaps_files(level0, &level1[j]) {
                        input_files.push(level1[j].path.clone());
                        assert(l0 + overlapping(l0, l1.take(j + 1)) =~= before.push(level1@[j as int]@));
                    } else {
                        assert(l0 + overlapping(l0, l1.take(j + 1)) =~= before);
                    }
                    j = j + 1;
                }
                assert(l1.take(level1@.len() as int) =~= l1);
            }
            return Some(CompactionJob { from_level: 0, to_level: 1, input_files });
        }
        None
    }
}

} // verus!
