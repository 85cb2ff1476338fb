//! Versions of the set of table files, and the edits between them.
use crate::manifest::record::{EditView, FileMetadata, FileView, VersionEdit};
use std::sync::Arc;
use vstd::prelude::*;

verus! {

/// The number of levels a new version has (L0 to L6).
pub const NUM_LEVELS: usize = 7;

/// The files of each level of a version after an edit: an added file goes
/// to the end of its level, a removal drops every file of its level with
/// that id, and a file-id edit leaves the files as they are.
pub open spec fn apply_edit_view(levels: Seq<Seq<FileView>>, edit: EditView) -> Seq<Seq<FileView>> {
    match edit {
        EditView::AddFile { level, file } => levels.update(level as int, levels[level as int].push(file)),
        EditView::RemoveFile { level, id } => levels.update(
            level as int,
            levels[level as int].filter(|f: FileView| f.id != id),
        ),
        EditView::NextFileId(_) => levels,
    }
}

/// The edit can be applied to a version with `n` levels: its level exists.
pub open spec fn edit_fits(edit: EditView, n: int) -> bool {
    match edit {
        EditView::AddFile { level, .. } => level < n,
        EditView::RemoveFile { level, .. } => level < n,
        EditView::NextFileId(_) => true,
    }
}

/// The views of a level's files.
pub open spec fn files_view(fs: Seq<FileMetadata>) -> Seq<FileView> {
    Seq::new(fs.len(), |i: int| fs[i]@)
}

/// A snapshot of the files at every level.
#[derive(Debug)]
pub struct Version {
    pub levels: Vec<Vec<FileMetadata>>,
}

impl View for Version {
    type V = Seq<Seq<FileView>>;

    open spec fn view(&self) -> Seq<Seq<FileView>> {
        Seq::new(self.levels@.len(), |i: int| files_view(self.levels@[i]@))
    }
}

fn clone_files(fs: &Vec<FileMetadata>) -> (r: Vec<FileMetadata>)
    ensures
        files_view(r@) == files_view(fs@),
{
    let mut r: Vec<FileMetadata> = Vec::new();
    let mut i: usize = 0;
    while i < fs.len()
        invariant
            i <= fs@.len(),
            r@.len() == i,
            forall|j: int| 0 <= j < i ==> #[trigger] r@[j]@ == fs@[j]@,
        decreases fs@.len() - i,
    {
        r.push(fs[i].clone());
        i = i + 1;
    }
    assert(files_view(r@) =~= files_view(fs@));
    r
}

fn files_without(fs: &Vec<FileMetadata>, id: u64) -> (r: Vec<FileMetadata>)
    ensures
        files_view(r@) == files_view(fs@).filter(|f: FileView| f.id != id),
{
    let ghost pred = |f: FileView| f.id != id;
    let mut r: Vec<FileMetadata> = Vec::new();
    let mut i: usize = 0;
    assert(files_view(fs@).take(0) =~= Seq::<FileView>::empty());
    reveal(Seq::filter);
    while i < fs.len()
        invariant
            i <= fs@.len(),
            files_view(r@) == files_view(fs@).take(i as int).filter(pred),
            pred == (|f: FileView| f.id != id),
        decreases fs@.len() - i,
    {
        let ghost before = files_view(fs@).take(i as int);
        assert(files_view(fs@).take(i + 1).drop_last() =~= before);
        assert(files_view(fs@).take(i + 1).last() == fs@[i as int]@);
        reveal(Seq::filter);
        assert(files_view(fs@).take(i + 1).filter(pred) == if pred(fs@[i as int]@) {
            before.filter(pred).push(fs@[i as int]@)
        } else {
            before.filter(pred)
        });
        if fs[i].id != id {
            let ghost old_r = r@;
            r.push(fs[i].clone());
            assert(files_view(r@) =~= files_view(old_r).push(fs@[i as int]@));
        }
        i = i + 1;
    }
    assert(files_view(fs@).take(fs@.len() as int) =~= files_view(fs@));
    r
}

impl Clone for Version {
    fn clone(&self) -> (r: Self)
        ensures
            r@ == self@,
    {
        let mut levels: Vec<Vec<FileMetadata>> = Vec::new();
        let mut i: usize = 0;
        while i < self.levels.len()
            invariant
                i <= self.levels@.len(),
                levels@.len() == i,
                forall|j: int| 0 <= j < i ==> files_view(#[trigger] levels@[j]@) == files_view(self.levels@[j]@),
            decreases self.levels@.len() - i,
        {
            levels.push(clone_files(&self.levels[i]));
            i = i + 1;
        }
        let r = Version { levels };
        assert(r@ =~= self@);
        r
    }
}

impl Default for Version {
    fn default() -> (r: Self)
        ensures
            r@ == Seq::new(NUM_LEVELS as nat, |i: int| Seq::<FileView>::empty()),
    {
        Self::new()
    }
}

impl Version {
    /// A version with every level empty.
    pub fn new() -> (r: Self)
        ensures
            r@ == Seq::new(NUM_LEVELS as nat, |i: int| Seq::<FileView>::empty()),
    {
        let mut levels: Vec<Vec<FileMetadata>> = Vec::new();
        let mut i: usize = 0;
        while i < NUM_LEVELS
            invariant
                i <= NUM_LEVELS,
                levels@.len() == i,
                forall|j: int| 0 <= j < i ==> (#[trigger] levels@[j])@.len() == 0,
            decreases NUM_LEVELS - i,
        {
            levels.push(Vec::new());
            i = i + 1;
        }
        let r = Version { levels };
        assert forall|j: int| 0 <= j < NUM_LEVELS implies files_view(#[trigger] r.levels@[j]@) =~= Seq::<FileView>::empty() by {}
        assert(r@ =~= Seq::new(NUM_LEVELS as nat, |i: int| Seq::<FileView>::empty()));
        r
    }

    /// The version that `edit` makes of this one.
    pub fn apply(&self, edit: &VersionEdit) -> (r: Self)
        requires
            edit_fits(edit@, self@.len() as int),
        ensures
            r@ == apply_edit_view(self@, edit@),
    {
        let mut new_version = self.clone();
        match edit {
            VersionEdit::AddFile { level, metadata } => {
                let l = *level as usize;
                let mut files = clone_files(&new_version.levels[l]);
                let ghost before = files@;
                files.push(metadata.clone());
                assert(files_view(files@) =~= files_view(before).push(metadata@));
                new_version.levels.set(l, files);
                assert(new_version@ =~= apply_edit_view(self@, edit@));
            },
            VersionEdit::RemoveFile { level, id } => {
                let l = *level as usize;
                let kept = files_without(&new_version.levels[l], *id);
                new_version.levels.set(l, kept);
                assert(new_version@ =~= apply_edit_view(self@, edit@));
            },
            VersionEdit::NextFileId(_) => {},  // Handled by VersionSet
        }
        new_version
    }
}

/// Calls `Arc::clone`, which hands out another handle to the same shared
/// version; claimed: the version it gives is the one shared.
#[verifier::external_body]
fn share(v: &Arc<Version>) -> (r: Arc<Version>)
    ensures
        r@ == v@,
{
    Arc::clone(v)
}

/// The current version and the next file id.
pub struct VersionSet {
    current: Arc<Version>,
    next_file_id: u64,
}

impl VersionSet {
    /// The current version has every level, from L0 to L6.
    #[verifier::type_invariant]
    spec fn has_all_levels(self) -> bool {
        self.current@.len() == NUM_LEVELS
    }

    /// The files of the current version.
    pub closed spec fn files(self) -> Seq<Seq<FileView>> {
        self.current@
    }

    /// The next file id.
    pub closed spec fn next_id(self) -> u64 {
        self.next_file_id
    }

    /// An empty version, with file ids starting at 1.
    pub fn new() -> (r: Self)
        ensures
            r.files() == Seq::new(NUM_LEVELS as nat, |i: int| Seq::<FileView>::empty()),
            r.next_id() == 1,
    {
        Self { current: Arc::new(Version::new()), next_file_id: 1 }
    }

    /// The current version.
    pub fn current(&self) -> (r: Arc<Version>)
        ensures
            r@ == self.files(),
            r@.len() == NUM_LEVELS,
    {
        proof {
            use_type_invariant(self);
        }
        share(&self.current)
    }

    /// Hands out the next file id.
    pub fn next_file_id(&mut self) -> (r: u64)
        requires
            old(self).next_id() < u64::MAX,
        ensures
            r == old(self).next_id(),
            final(self).next_id() == old(self).next_id() + 1,
            final(self).files() == old(self).files(),
    {
        proof {
            use_type_invariant(&*self);
        }
        let id = self.next_file_id;
        self.next_file_id += 1;
        id
    }

    /// The next file id, without handing it out.
    pub fn next_file_id_value(&self) -> (r: u64)
        ensures
            r == self.next_id(),
    {
        self.next_file_id
    }

    /// Applies an edit: a file-id edit sets the next file id; any other
    /// edit makes a new current version.
    pub fn apply_edit(&mut self, edit: VersionEdit)
        requires
            edit_fits(edit@, NUM_LEVELS as int),
        ensures
            old(self).files().len() == NUM_LEVELS,
            match edit@ {
                EditView::NextFileId(id) => final(self).next_id() == id && final(self).files()
                    == old(self).files(),
                _ => final(self).next_id() == old(self).next_id() && final(self).files()
                    == apply_edit_view(old(self).files(), edit@),
            },
    {
        proof {
            use_type_invariant(&*self);
        }
        if let VersionEdit::NextFileId(id) = edit {
            self.next_file_id = id;
        } else {
            let new_version = self.current.apply(&edit);
            assert(new_version@.len() == NUM_LEVELS);
            self.current = Arc::new(new_version);
        }
    }
}

impl Default for VersionSet {
    fn default() -> (r: Self)
        ensures
            r.files() == Seq::new(NUM_LEVELS as nat, |i: int| Seq::<FileView>::empty()),
            r.next_id() == 1,
    {
        Self::new()
    }
}

} // verus!
