use dzong::{DzongEngine, DzongError, Key, MemTable, Options, Result, SequenceNumber, Value, WalOp, WalRecord};

#[test]
fn test_memtable_basic() {
    let mut mt = MemTable::new();
    let k1 = Key::new(&b"k1"[..]);
    let v1 = Value::new(&b"v1"[..]);

    mt.put(k1.clone(), v1.clone());
    assert_eq!(mt.get(&k1), Some(v1));

    mt.delete(k1.clone());
    assert_eq!(mt.get(&k1), None);
}

#[test]
fn test_memtable_keeps_keys_sorted() {
    let mut mt = MemTable::new();
    for k in [&b"m"[..], b"a", b"z", b"b", b"a"] {
        mt.put(Key::new(k), Value::new(k));
    }
    assert_eq!(mt.len(), 4);
    let keys: Vec<&[u8]> = mt.as_slice().iter().map(|(k, _)| k.as_slice()).collect();
    assert_eq!(keys, vec![&b"a"[..], b"b", b"m", b"z"]);
}

#[test]
fn test_engine_persistence_and_recovery() -> Result<()> {
    let _options = Options::new("");
    let mut log: Vec<u8> = Vec::new();

    {
        let mut engine = DzongEngine::open(&log)?;
        let r = engine.put(Key::new(&b"k1"[..]), Value::new(&b"v1"[..]))?;
        log.extend_from_slice(&r.encode());
        engine.apply(r);
        let r = engine.put(Key::new(&b"k2"[..]), Value::new(&b"v2"[..]))?;
        log.extend_from_slice(&r.encode());
        engine.apply(r);
        let r = engine.delete(Key::new(&b"k1"[..]))?;
        log.extend_from_slice(&r.encode());
        engine.apply(r);
    }

    // Recovery
    let engine = DzongEngine::open(&log)?;
    assert_eq!(engine.get(&Key::new(&b"k1"[..]))?, None);
    assert_eq!(engine.get(&Key::new(&b"k2"[..]))?, Some(Value::new(&b"v2"[..])));
    assert_eq!(engine.next_lsn().as_u64(), 4); // 3 ops done, next is 4

    Ok(())
}

#[test]
fn test_read_after_write() -> Result<()> {
    let mut engine = DzongEngine::open(&[])?;
    assert_eq!(engine.next_lsn().as_u64(), 1);
    let r = engine.put(Key::new(&b"k"[..]), Value::new(&b"v"[..]))?;
    assert_eq!(r.lsn.as_u64(), 1);
    // nothing changes before the record is applied
    assert_eq!(engine.get(&Key::new(&b"k"[..]))?, None);
    engine.apply(r);
    assert_eq!(engine.get(&Key::new(&b"k"[..]))?, Some(Value::new(&b"v"[..])));
    let r = engine.delete(Key::new(&b"k"[..]))?;
    assert_eq!(r.lsn.as_u64(), 2);
    engine.apply(r);
    assert_eq!(engine.get(&Key::new(&b"k"[..]))?, None);
    Ok(())
}

#[test]
fn test_recovery_reports_damaged_log() {
    let r = WalRecord { op: WalOp::Put, lsn: SequenceNumber::new(1), key: Key::new(&b"k"[..]), value: Some(Value::new(&b"v"[..])) };
    let mut log = r.encode();
    log.pop();
    assert!(matches!(DzongEngine::open(&log), Err(DzongError::Io(_))));
}

#[test]
fn test_recovery_lsn_exhausted() {
    let r = WalRecord { op: WalOp::Delete, lsn: SequenceNumber::new(u64::MAX), key: Key::new(&b"k"[..]), value: None };
    match DzongEngine::open(&r.encode()) {
        Err(DzongError::Invariant { message, .. }) => assert_eq!(message, "LSN space exhausted"),
        _ => panic!("expected the LSN error"),
    }
}

#[test]
fn test_recovery_takes_largest_lsn() -> Result<()> {
    let a = WalRecord { op: WalOp::Put, lsn: SequenceNumber::new(9), key: Key::new(&b"a"[..]), value: Some(Value::new(&b"1"[..])) };
    let b = WalRecord { op: WalOp::Put, lsn: SequenceNumber::new(3), key: Key::new(&b"a"[..]), value: Some(Value::new(&b"2"[..])) };
    let mut log = a.encode();
    log.extend_from_slice(&b.encode());
    let engine = DzongEngine::open(&log)?;
    assert_eq!(engine.next_lsn().as_u64(), 10);
    // records apply in log order, whatever their LSNs
    assert_eq!(engine.get(&Key::new(&b"a"[..]))?, Some(Value::new(&b"2"[..])));
    Ok(())
}

#[test]
fn test_options_new() {
    let o = Options::new("/tmp/db");
    assert_eq!(o.data_dir, "/tmp/db");
    assert_eq!(o.clone().data_dir, "/tmp/db");
    assert_eq!(o.max_memtable_size, 1000);
    assert_eq!(o.l0_compaction_threshold, 4);
    let mut o = Options::new("");
    o.max_memtable_size = 50;
    o.l0_compaction_threshold = 2;
    let c = o.clone();
    assert_eq!((c.max_memtable_size, c.l0_compaction_threshold), (50, 2));
}
