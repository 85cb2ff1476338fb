use dzong::{
    CompactionJob, CompactionPicker, CompactionWorker, DzongError, FileMetadata, Key, MemTable,
    MergeIterator, Result, Sstable, SstableOp, SstableReader, SstableRecord, SstableWriter, Value,
    Version, VersionEdit,
    VersionSet,
};

fn rec(lsn: u64, k: &[u8], v: Option<&[u8]>) -> SstableRecord {
    SstableRecord { op: SstableOp::Put, lsn, key: Key::new(k), value: v.map(Value::new) }
}

#[test]
fn test_merge_iterator_lsn_priority() -> Result<()> {
    let k1 = Key::new(&b"key1"[..]);
    let v1 = Value::new(&b"val1"[..]);
    let v2 = Value::new(&b"val2"[..]);

    // Iter 1: key1 @ LSN 10
    let rec1 = SstableRecord { op: SstableOp::Put, lsn: 10, key: k1.clone(), value: Some(v1.clone()) };
    // Iter 2: key1 @ LSN 20 (Should win)
    let rec2 = SstableRecord { op: SstableOp::Put, lsn: 20, key: k1.clone(), value: Some(v2.clone()) };

    let merger = MergeIterator::new(vec![vec![Ok(rec1)], vec![Ok(rec2)]])?;
    let results: Vec<_> = merger.collect()?;

    assert_eq!(results.len(), 1);
    assert_eq!(results[0].lsn, 20);
    assert_eq!(results[0].value, Some(v2));

    Ok(())
}

#[test]
fn test_merge_multiple_keys() -> Result<()> {
    let k1 = Key::new(&b"a"[..]);
    let k2 = Key::new(&b"b"[..]);
    let k3 = Key::new(&b"c"[..]);

    let iter1 = vec![
        Ok(SstableRecord { op: SstableOp::Put, lsn: 1, key: k1.clone(), value: None }),
        Ok(SstableRecord { op: SstableOp::Put, lsn: 1, key: k3.clone(), value: None }),
    ];
    let iter2 = vec![Ok(SstableRecord { op: SstableOp::Put, lsn: 1, key: k2.clone(), value: None })];

    let merger = MergeIterator::new(vec![iter1, iter2])?;
    let results: Vec<_> = merger.collect()?;

    assert_eq!(results.len(), 3);
    assert_eq!(results[0].key, k1);
    assert_eq!(results[1].key, k2);
    assert_eq!(results[2].key, k3);

    Ok(())
}

#[test]
fn test_merge_dedups_newest_across_runs() -> Result<()> {
    let a = vec![Ok(rec(1, b"a", Some(b"a1"))), Ok(rec(5, b"c", Some(b"c5"))), Ok(rec(2, b"d", Some(b"d2")))];
    let b = vec![Ok(rec(3, b"a", Some(b"a3"))), Ok(rec(4, b"b", Some(b"b4"))), Ok(rec(1, b"c", Some(b"c1")))];
    let c = vec![Ok(rec(2, b"a", Some(b"a2"))), Ok(rec(9, b"e", Some(b"e9")))];
    let out = MergeIterator::new(vec![a, b, c])?.collect()?;
    let keys: Vec<&[u8]> = out.iter().map(|r| r.key.as_slice()).collect();
    assert_eq!(keys, vec![&b"a"[..], b"b", b"c", b"d", b"e"]);
    let lsns: Vec<u64> = out.iter().map(|r| r.lsn).collect();
    assert_eq!(lsns, vec![3, 4, 5, 2, 9]);
    assert_eq!(out[0].value, Some(Value::new(&b"a3"[..])));
    Ok(())
}

#[test]
fn test_merge_tie_takes_first_run() -> Result<()> {
    let a = vec![Ok(rec(7, b"k", Some(b"first")))];
    let b = vec![Ok(rec(7, b"k", Some(b"second")))];
    let out = MergeIterator::new(vec![a, b])?.collect()?;
    assert_eq!(out.len(), 1);
    assert_eq!(out[0].value, Some(Value::new(&b"first"[..])));
    Ok(())
}

#[test]
fn test_merge_empty_inputs() -> Result<()> {
    let out = MergeIterator::new(vec![Vec::new(), Vec::new()])?.collect()?;
    assert!(out.is_empty());
    let mut m = MergeIterator::new(Vec::new())?;
    assert!(m.next().is_none());
    Ok(())
}

#[test]
fn test_merge_fails_on_first_item_error() {
    let bad = DzongError::Invariant { message: "boom".to_string(), context: None };
    let r = MergeIterator::new(vec![vec![Ok(rec(1, b"a", None))], vec![Err(bad)]]);
    match r {
        Err(DzongError::Invariant { message, .. }) => assert_eq!(message, "boom"),
        _ => panic!("expected the run's error"),
    }
}

#[test]
fn test_merge_reports_error_reached() -> Result<()> {
    let bad = DzongError::Invariant { message: "late".to_string(), context: None };
    let a = vec![Ok(rec(1, b"a", None)), Err(bad), Ok(rec(1, b"z", None))];
    let b = vec![Ok(rec(1, b"b", None))];
    let mut m = MergeIterator::new(vec![a, b])?;
    // the top run moves on to its error once its first record is taken
    match m.next() {
        Some(Err(DzongError::Invariant { message, .. })) => assert_eq!(message, "late"),
        _ => panic!("expected the error"),
    }
    // the failed run is given up; the other goes on
    assert_eq!(m.next().unwrap()?.key, Key::new(&b"b"[..]));
    assert!(m.next().is_none());
    Ok(())
}

#[test]
fn test_picker_threshold() {
    let picker = CompactionPicker::new(2);
    let mut version = Version::new();
    assert!(picker.pick_compaction(&version).is_none());
    for id in 1..3u64 {
        version = version.apply(&VersionEdit::AddFile {
            level: 0,
            metadata: FileMetadata {
                id,
                path: format!("{:06}.sst", id),
                min_key: Key::new(&b"a"[..]),
                max_key: Key::new(&b"z"[..]),
                size: 10,
            },
        });
    }
    let job = picker.pick_compaction(&version).unwrap();
    assert_eq!(job.from_level, 0);
    assert_eq!(job.to_level, 1);
    assert_eq!(job.input_files, vec!["000001.sst".to_string(), "000002.sst".to_string()]);
}

fn table(entries: &[(&[u8], Option<&[u8]>)]) -> Vec<u8> {
    let mut mt = MemTable::new();
    for (k, v) in entries {
        match v {
            Some(v) => mt.put(Key::new(k), Value::new(v)),
            None => mt.delete(Key::new(k)),
        }
    }
    Sstable::write_from_memtable(&mt).unwrap()
}

fn scan_all(bytes: &[u8]) -> Result<Vec<SstableRecord>> {
    let reader = SstableReader::open(bytes.to_vec())?;
    let mut it = reader.scan()?;
    let mut out = Vec::new();
    while let Some(r) = it.next_record() {
        out.push(r?);
    }
    Ok(out)
}

fn file(id: u64, path: &str, lo: &[u8], hi: &[u8]) -> FileMetadata {
    FileMetadata { id, path: path.to_string(), min_key: Key::new(lo), max_key: Key::new(hi), size: 10 }
}

#[test]
fn test_run_compaction_merges_tables() -> Result<()> {
    let t1 = table(&[(b"a", Some(b"1")), (b"c", None)]);
    let t2 = table(&[(b"b", Some(b"2")), (b"c", Some(b"3"))]);
    let worker = CompactionWorker::new("data".to_string());
    let mut vs = VersionSet::new();
    vs.apply_edit(VersionEdit::AddFile { level: 0, metadata: file(1, "x", b"a", b"c") });
    vs.apply_edit(VersionEdit::AddFile { level: 0, metadata: file(2, "y", b"b", b"c") });
    vs.apply_edit(VersionEdit::AddFile { level: 1, metadata: file(3, "z", b"x", b"z") });
    vs.apply_edit(VersionEdit::NextFileId(4));
    let job = CompactionJob { from_level: 0, to_level: 1, input_files: vec!["x".into(), "y".into()] };
    let (edits, bytes) = worker.run_compaction(job, vec![t1, t2], &mut vs)?;
    assert_eq!(vs.next_file_id_value(), 5);
    assert_eq!(edits.len(), 3);
    assert_eq!(edits[0], VersionEdit::RemoveFile { level: 0, id: 1 });
    assert_eq!(edits[1], VersionEdit::RemoveFile { level: 0, id: 2 });
    match &edits[2] {
        VersionEdit::AddFile { level, metadata } => {
            assert_eq!(*level, 1);
            assert_eq!(metadata.id, 4);
            assert_eq!(metadata.path, "data/000004.sst");
            assert_eq!(metadata.min_key, Key::new(&b"a"[..]));
            // both records of "c" have LSN 0: the first table's tombstone
            // wins, and a key whose newest record is a delete is dropped
            assert_eq!(metadata.max_key, Key::new(&b"b"[..]));
            assert_eq!(metadata.size, bytes.len() as u64);
        }
        _ => panic!("expected an added file"),
    }
    assert_eq!(Sstable::get(&bytes, &Key::new(&b"a"[..]))?, Some(Value::new(&b"1"[..])));
    assert_eq!(Sstable::get(&bytes, &Key::new(&b"b"[..]))?, Some(Value::new(&b"2"[..])));
    assert_eq!(Sstable::get(&bytes, &Key::new(&b"c"[..]))?, None);
    // the output holds only puts
    let records = scan_all(&bytes)?;
    assert_eq!(records.len(), 2);
    assert!(records.iter().all(|r| r.op == SstableOp::Put));
    // applied, the edits leave level 0 empty and level 1 with the new table
    for e in edits {
        vs.apply_edit(e);
    }
    let v = vs.current();
    assert!(v.levels[0].is_empty());
    let level1: Vec<u64> = v.levels[1].iter().map(|f| f.id).collect();
    assert_eq!(level1, vec![3, 4]);
    Ok(())
}

#[test]
fn test_run_compaction_drops_tombstones() -> Result<()> {
    let t1 = table(&[(b"k", None)]);
    let mut vs = VersionSet::new();
    let job = CompactionJob { from_level: 0, to_level: 1, input_files: vec!["t".into()] };
    let (edits, bytes) = CompactionWorker::new("d".to_string()).run_compaction(job, vec![t1], &mut vs)?;
    assert_eq!(edits.len(), 1);
    assert_eq!(bytes.len(), 32);
    assert!(scan_all(&bytes)?.is_empty());
    assert_eq!(Sstable::get(&bytes, &Key::new(&b"k"[..]))?, None);
    Ok(())
}

#[test]
fn test_run_compaction_removes_level1_inputs() -> Result<()> {
    let old = table(&[(b"a", Some(b"old")), (b"m", Some(b"keep"))]);
    let newer = SstableWriter::write_records(&vec![SstableRecord {
        op: SstableOp::Put,
        lsn: 7,
        key: Key::new(&b"a"[..]),
        value: Some(Value::new(&b"new"[..])),
    }]);
    let mut vs = VersionSet::new();
    vs.apply_edit(VersionEdit::AddFile { level: 0, metadata: file(1, "n", b"a", b"a") });
    vs.apply_edit(VersionEdit::AddFile { level: 1, metadata: file(2, "o", b"a", b"m") });
    vs.apply_edit(VersionEdit::NextFileId(3));
    let job = CompactionPicker::new(1).pick_compaction(&vs.current()).unwrap();
    assert_eq!(job.input_files, vec!["n".to_string(), "o".to_string()]);
    let (edits, bytes) = CompactionWorker::new("d".to_string()).run_compaction(job, vec![newer, old], &mut vs)?;
    assert_eq!(edits[0], VersionEdit::RemoveFile { level: 0, id: 1 });
    assert_eq!(edits[1], VersionEdit::RemoveFile { level: 1, id: 2 });
    assert_eq!(Sstable::get(&bytes, &Key::new(&b"a"[..]))?, Some(Value::new(&b"new"[..])));
    assert_eq!(Sstable::get(&bytes, &Key::new(&b"m"[..]))?, Some(Value::new(&b"keep"[..])));
    for e in edits {
        vs.apply_edit(e);
    }
    let v = vs.current();
    assert!(v.levels[0].is_empty());
    assert_eq!(v.levels[1].len(), 1);
    assert_eq!(v.levels[1][0].id, 3);
    Ok(())
}

#[test]
fn test_run_compaction_paths_and_empty_output() -> Result<()> {
    let mut vs = VersionSet::new();
    let job = CompactionJob { from_level: 0, to_level: 1, input_files: Vec::new() };
    let (edits, bytes) = CompactionWorker::new(String::new()).run_compaction(job, Vec::new(), &mut vs)?;
    assert_eq!(edits.len(), 1);
    match &edits[0] {
        VersionEdit::AddFile { metadata, .. } => {
            assert_eq!(metadata.path, "000001.sst");
            assert_eq!(metadata.min_key, Key::new(&b""[..]));
            assert_eq!(metadata.max_key, Key::new(&b""[..]));
            assert_eq!(metadata.size, 32);
        }
        _ => panic!("expected an added file"),
    }
    assert_eq!(bytes.len(), 32);
    let job = CompactionJob { from_level: 0, to_level: 1, input_files: Vec::new() };
    let (edits, _) = CompactionWorker::new("dir/".to_string()).run_compaction(job, Vec::new(), &mut vs)?;
    match &edits[0] {
        VersionEdit::AddFile { metadata, .. } => assert_eq!(metadata.path, "dir/000002.sst"),
        _ => panic!("expected an added file"),
    }
    Ok(())
}

#[test]
fn test_picker_takes_overlapping_level1_files() {
    let mut version = Version::new();
    version = version.apply(&VersionEdit::AddFile { level: 0, metadata: file(1, "l0a", b"c", b"f") });
    version = version.apply(&VersionEdit::AddFile { level: 0, metadata: file(2, "l0b", b"e", b"h") });
    version = version.apply(&VersionEdit::AddFile { level: 1, metadata: file(3, "before", b"a", b"b") });
    version = version.apply(&VersionEdit::AddFile { level: 1, metadata: file(4, "touch", b"b", b"c") });
    version = version.apply(&VersionEdit::AddFile { level: 1, metadata: file(5, "inside", b"g", b"g") });
    version = version.apply(&VersionEdit::AddFile { level: 1, metadata: file(6, "after", b"i", b"k") });
    let job = CompactionPicker::new(2).pick_compaction(&version).unwrap();
    assert_eq!(
        job.input_files,
        vec!["l0a".to_string(), "l0b".to_string(), "touch".to_string(), "inside".to_string()]
    );
}

#[test]
fn test_run_compaction_bad_table() {
    let mut vs = VersionSet::new();
    let job = CompactionJob { from_level: 0, to_level: 1, input_files: vec!["x".into()] };
    let r = CompactionWorker::new("d".to_string()).run_compaction(job, vec![vec![1, 2, 3]], &mut vs);
    assert!(matches!(r, Err(DzongError::Corruption { .. })));
    // no file id is handed out when a table does not open
    assert_eq!(vs.next_file_id_value(), 1);
}

#[test]
fn test_merge_skips_duplicates_newest_first() -> Result<()> {
    let err = |m: &str| DzongError::Invariant { message: m.to_string(), context: None };
    let top = vec![Ok(rec(9, b"a", None))];
    let older = vec![Ok(rec(1, b"a", None)), Err(err("older"))];
    let newer = vec![Ok(rec(5, b"a", None)), Err(err("newer"))];
    let mut m = MergeIterator::new(vec![top, older, newer])?;
    // the run whose front record has the higher LSN skips first, and fails
    match m.next() {
        Some(Err(DzongError::Invariant { message, .. })) => assert_eq!(message, "newer"),
        _ => panic!("expected the error of the newer run"),
    }
    // the older run was left as it was: its record comes up, then its error
    match m.next() {
        Some(Err(DzongError::Invariant { message, .. })) => assert_eq!(message, "older"),
        _ => panic!("expected the error of the older run"),
    }
    assert!(m.next().is_none());
    Ok(())
}
