//! The records of the manifest: table files and the edits between versions.
use crate::common::key_value::Key;
use vstd::prelude::*;

verus! {

/// The content of a file's metadata.
pub struct FileView {
    pub id: u64,
    pub path: Seq<char>,
    pub min_key: Seq<u8>,
    pub max_key: Seq<u8>,
    pub size: u64,
}

/// A table file: its id, path, key range and size in bytes.
#[derive(Debug, PartialEq)]
pub struct FileMetadata {
    pub id: u64,
    pub path: String,
    pub min_key: Key,
    pub max_key: Key,
    pub size: u64,
}

impl View for FileMetadata {
    type V = FileView;

    open spec fn view(&self) -> FileView {
        FileView {
            id: self.id,
            path: self.path@,
            min_key: self.min_key@,
            max_key: self.max_key@,
            size: self.size,
        }
    }
}

impl Clone for FileMetadata {
    fn clone(&self) -> (r: Self)
        ensures
            r@ == self@,
    {
        FileMetadata {
            id: self.id,
            path: self.path.clone(),
            min_key: self.min_key.clone(),
            max_key: self.max_key.clone(),
            size: self.size,
        }
    }
}

/// The content of an edit.
pub enum EditView {
    AddFile { level: u32, file: FileView },
    RemoveFile { level: u32, id: u64 },
    NextFileId(u64),
}

/// A change from one version to the next.
#[derive(Debug, PartialEq)]
pub enum VersionEdit {
    AddFile { level: u32, metadata: FileMetadata },
    RemoveFile { level: u32, id: u64 },
    NextFileId(u64),
}

impl View for VersionEdit {
    type V = EditView;

    open spec fn view(&self) -> EditView {
        match self {
            VersionEdit::AddFile { level, metadata } => EditView::AddFile {
                level: *level,
                file: metadata@,
            },
            VersionEdit::RemoveFile { level, id } => EditView::RemoveFile { level: *level, id: *id },
            VersionEdit::NextFileId(id) => EditView::NextFileId(*id),
        }
    }
}

impl Clone for VersionEdit {
    fn clone(&self) -> (r: Self)
        ensures
            r@ == self@,
    {
        match self {
            VersionEdit::AddFile { level, metadata } => VersionEdit::AddFile {
                level: *level,
                metadata: metadata.clone(),
            },
            VersionEdit::RemoveFile { level, id } => VersionEdit::RemoveFile { level: *level, id: *id },
            VersionEdit::NextFileId(id) => VersionEdit::NextFileId(*id),
        }
    }
}

} // verus!
