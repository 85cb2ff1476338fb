use dzong::manifest::log::manifest_edit_lines;
use dzong::{FileMetadata, Key, VersionEdit, VersionSet};

fn meta(id: u64) -> FileMetadata {
    FileMetadata {
        id,
        path: format!("{:06}.sst", id),
        min_key: Key::new(&b"a"[..]),
        max_key: Key::new(&b"z"[..]),
        size: 1024,
    }
}

#[test]
fn test_version_set_applies_edits() {
    let edit1 = VersionEdit::AddFile { level: 0, metadata: meta(1) };
    let edit2 = VersionEdit::NextFileId(2);

    let mut vs = VersionSet::new();
    for edit in vec![edit1, edit2] {
        vs.apply_edit(edit);
    }

    assert_eq!(vs.current().levels[0].len(), 1);
    assert_eq!(vs.current().levels[0][0].id, 1);
    assert_eq!(vs.current().levels[0][0].path, "000001.sst");
    assert_eq!(vs.next_file_id_value(), 2);
}

#[test]
fn test_add_then_remove() {
    let mut vs = VersionSet::new();
    vs.apply_edit(VersionEdit::AddFile { level: 2, metadata: meta(7) });
    vs.apply_edit(VersionEdit::AddFile { level: 2, metadata: meta(8) });
    vs.apply_edit(VersionEdit::RemoveFile { level: 2, id: 7 });
    let v = vs.current();
    assert_eq!(v.levels.len(), 7);
    assert_eq!(v.levels[2].len(), 1);
    assert_eq!(v.levels[2][0].id, 8);
    vs.apply_edit(VersionEdit::RemoveFile { level: 2, id: 8 });
    assert!(vs.current().levels.iter().all(|l| l.is_empty()));
}

#[test]
fn test_next_file_ids_increase() {
    let mut vs = VersionSet::new();
    assert_eq!(vs.next_file_id(), 1);
    assert_eq!(vs.next_file_id(), 2);
    assert_eq!(vs.next_file_id_value(), 3);
    // earlier versions are kept by their holders
    let before = vs.current();
    vs.apply_edit(VersionEdit::AddFile { level: 0, metadata: meta(3) });
    assert_eq!(before.levels[0].len(), 0);
    assert_eq!(vs.current().levels[0].len(), 1);
}

#[test]
fn test_edit_clone_and_eq() {
    let e = VersionEdit::AddFile { level: 0, metadata: meta(1) };
    assert_eq!(e.clone(), e);
    assert_ne!(e, VersionEdit::NextFileId(1));
}

#[test]
fn test_manifest_edit_lines() {
    use_lines("a\n\n  \r\nb\r\nc", &["a", "b", "c"]);
    use_lines("x\r", &["x\r"]);
    use_lines("x\n", &["x"]);
    use_lines("\u{a0}\t\n\u{3000}", &[]);
    use_lines("", &[]);
    use_lines("\n\n{\"NextFileId\":2}\n", &["{\"NextFileId\":2}"]);
}

fn use_lines(text: &str, expected: &[&str]) {
    let lines = manifest_edit_lines(text);
    let expected: Vec<String> = expected.iter().map(|s| s.to_string()).collect();
    assert_eq!(lines, expected);
}

#[test]
fn test_version_set_has_seven_levels() {
    let mut vs = VersionSet::new();
    assert_eq!(vs.current().levels.len(), 7);
    vs.apply_edit(VersionEdit::RemoveFile { level: 6, id: 1 });
    assert_eq!(vs.current().levels.len(), 7);
}
