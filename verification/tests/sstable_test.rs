use dzong::sstable::footer::FOOTER_MAGIC;
use dzong::sstable::writer::{memtable_fits, records_fit};
use dzong::{
    BlockBuilder, BlockReader, DzongError, Footer, Index, IndexEntry, Key, MemTable, Result, Sstable,
    SstableOp, SstableReader, SstableRecord, SstableWriter, Value,
};

fn record(op: SstableOp, lsn: u64, k: &[u8], v: Option<&[u8]>) -> SstableRecord {
    SstableRecord { op, lsn, key: Key::new(k), value: v.map(Value::new) }
}

#[test]
fn test_sstable_basic_roundtrip() -> Result<()> {
    let mut memtable = MemTable::new();

    let k1 = Key::new(&b"key1"[..]);
    let v1 = Value::new(&b"val1"[..]);
    let k2 = Key::new(&b"key2"[..]);
    let v2 = Value::new(&b"val2"[..]);

    memtable.put(k1.clone(), v1.clone());
    memtable.put(k2.clone(), v2.clone());

    let table = Sstable::write_from_memtable(&memtable)?;

    assert_eq!(Sstable::get(&table, &k1)?, Some(v1));
    assert_eq!(Sstable::get(&table, &k2)?, Some(v2));
    assert_eq!(Sstable::get(&table, &Key::new(&b"unknown"[..]))?, None);

    Ok(())
}

#[test]
fn test_sstable_with_tombstones() -> Result<()> {
    let mut memtable = MemTable::new();
    let k1 = Key::new(&b"key1"[..]);
    memtable.delete(k1.clone()); // Tombstone

    let table = Sstable::write_from_memtable(&memtable)?;

    assert_eq!(Sstable::get(&table, &k1)?, None);

    Ok(())
}

#[test]
fn test_sstable_multi_block() -> Result<()> {
    let mut memtable = MemTable::new();

    // Insert 1000 keys to trigger multiple blocks (4KB threshold)
    for i in 0..1000 {
        let key = Key::new(format!("key{:04}", i).as_bytes());
        let val = Value::new(format!("val{:04}", i).as_bytes());
        memtable.put(key, val);
    }

    let table = Sstable::write_from_memtable(&memtable)?;
    assert!(table.len() > 2 * 4096);

    for i in 0..1000 {
        let key = Key::new(format!("key{:04}", i).as_bytes());
        let val = Value::new(format!("val{:04}", i).as_bytes());
        assert_eq!(Sstable::get(&table, &key)?, Some(val));
    }

    Ok(())
}

#[test]
fn test_sstable_corruption() -> Result<()> {
    let data = b"garbage data that is not a valid sstable";
    let result = Sstable::get(&data[..], &Key::new(&b"k"[..]));
    assert!(result.is_err());
    Ok(())
}

#[test]
fn test_sstable_too_small() {
    let result = SstableReader::open(vec![1, 2, 3]);
    match result {
        Err(DzongError::Corruption { message, offset, .. }) => {
            assert_eq!(message, "SSTable file too small for footer");
            assert_eq!(offset, Some(0));
        }
        _ => panic!("expected a corruption error"),
    }
}

fn footer_bytes(offset: u64, size: u64, magic: u64) -> Vec<u8> {
    let mut v = offset.to_le_bytes().to_vec();
    v.extend_from_slice(&size.to_le_bytes());
    v.extend_from_slice(&0u64.to_le_bytes());
    v.extend_from_slice(&magic.to_le_bytes());
    v
}

#[test]
fn test_sstable_bad_magic() {
    let mut data = vec![0u8; 4];
    data.extend_from_slice(&footer_bytes(0, 0, 7));
    match SstableReader::open(data) {
        Err(DzongError::Corruption { message, offset, .. }) => {
            assert_eq!(message, "Invalid SSTable magic number");
            assert_eq!(offset, Some(4));
        }
        _ => panic!("expected a corruption error"),
    }
}

#[test]
fn test_sstable_bad_index_offset() {
    let mut data = vec![0u8; 4];
    data.extend_from_slice(&footer_bytes(100, 0, FOOTER_MAGIC));
    match SstableReader::open(data) {
        Err(DzongError::Corruption { message, offset, .. }) => {
            assert_eq!(message, "Invalid index_offset in footer");
            assert_eq!(offset, Some(4));
        }
        _ => panic!("expected a corruption error"),
    }
}

#[test]
fn test_empty_table() -> Result<()> {
    let memtable = MemTable::new();
    let table = Sstable::write_from_memtable(&memtable)?;
    // no block, an empty index, and a footer pointing at offset 0
    assert_eq!(table, footer_bytes(0, 0, FOOTER_MAGIC));
    assert_eq!(&table[24..], b"100GN0ZD");
    assert_eq!(Sstable::get(&table, &Key::new(&b"a"[..]))?, None);
    Ok(())
}

#[test]
fn test_add_after_finish_fails() -> Result<()> {
    let mut writer = SstableWriter::new();
    writer.add(&record(SstableOp::Put, 1, b"a", Some(b"1")))?;
    writer.finish()?;
    let mut same = SstableWriter::new();
    same.add(&record(SstableOp::Put, 1, b"a", Some(b"1")))?;
    same.finish()?;
    let before = same.into_bytes();
    match writer.add(&record(SstableOp::Put, 2, b"b", Some(b"2"))) {
        Err(DzongError::Invariant { message, context }) => {
            assert_eq!(message, "SSTable writer already finished");
            assert!(context.is_none());
        }
        _ => panic!("expected an invariant error"),
    }
    assert_eq!(writer.into_bytes(), before);
    Ok(())
}

#[test]
fn test_writer_and_scan() -> Result<()> {
    let mut writer = SstableWriter::new();
    writer.add(&record(SstableOp::Put, 5, b"a", Some(b"1")))?;
    writer.add(&record(SstableOp::Delete, 6, b"b", None))?;
    writer.add(&record(SstableOp::Put, 7, b"c", Some(b"3")))?;
    writer.finish()?;
    let table = writer.into_bytes();

    let reader = SstableReader::open(table)?;
    let mut it = reader.scan()?;
    let mut seen = Vec::new();
    while let Some(item) = it.next_record() {
        seen.push(item?);
    }
    assert_eq!(seen.len(), 3);
    assert_eq!(seen[0].key, Key::new(&b"a"[..]));
    assert_eq!(seen[0].lsn, 5);
    assert_eq!(seen[1].op, SstableOp::Delete);
    assert_eq!(seen[1].value, None);
    assert_eq!(seen[2].value, Some(Value::new(&b"3"[..])));

    let found = reader.get(&Key::new(&b"b"[..]))?.unwrap();
    assert_eq!(found.lsn, 6);
    assert!(reader.get(&Key::new(&b"bb"[..]))?.is_none());
    Ok(())
}

#[test]
fn test_record_encoding_roundtrip() -> Result<()> {
    let rec = record(SstableOp::Put, 0x0102, b"key", Some(b"value"));
    let mut buf = Vec::new();
    let n = rec.encode(&mut buf)?;
    assert_eq!(n, 17 + 3 + 5);
    assert_eq!(buf[0], 1);
    assert_eq!(&buf[1..9], &0x0102u64.to_le_bytes()[..]);
    let (back, m) = SstableRecord::decode(&buf)?;
    assert_eq!(m, n);
    assert_eq!(back.key, rec.key);
    assert_eq!(back.value, rec.value);
    assert_eq!(back.lsn, rec.lsn);

    buf[0] = 9;
    match SstableRecord::decode(&buf) {
        Err(DzongError::Corruption { message, .. }) => assert_eq!(message, "Invalid SstableOp: 9"),
        _ => panic!("expected a corruption error"),
    }
    buf[0] = 1;
    assert!(matches!(SstableRecord::decode(&buf[..5]), Err(DzongError::Io(_))));
    Ok(())
}

#[test]
fn test_sstable_op_from_u8() {
    assert_eq!(SstableOp::from_u8(1), Some(SstableOp::Put));
    assert_eq!(SstableOp::from_u8(2), Some(SstableOp::Delete));
    assert_eq!(SstableOp::from_u8(0), None);
}

#[test]
fn test_footer_roundtrip() -> Result<()> {
    let footer = Footer { index_offset: 4242, index_size: 17, filter_offset: 0, magic: FOOTER_MAGIC };
    let mut buf = Vec::new();
    assert_eq!(footer.encode(&mut buf)?, 32);
    assert_eq!(buf.len(), 32);
    let back = Footer::decode(&buf)?;
    assert_eq!(back.index_offset, 4242);
    assert_eq!(back.index_size, 17);
    assert_eq!(back.filter_offset, 0);
    assert_eq!(back.magic, FOOTER_MAGIC);
    match Footer::decode(&buf[..31]) {
        Err(DzongError::Io(e)) => assert_eq!(e.kind(), std::io::ErrorKind::UnexpectedEof),
        _ => panic!("expected an I/O error"),
    }
    Ok(())
}

#[test]
fn test_block_builder_and_reader() -> Result<()> {
    let mut builder = BlockBuilder::new();
    assert!(builder.is_empty());
    builder.add(&record(SstableOp::Put, 1, b"a", Some(b"x")))?;
    builder.add(&record(SstableOp::Put, 2, b"c", Some(b"y")))?;
    assert_eq!(builder.count(), 2);
    assert_eq!(builder.first_key(), Some(Key::new(&b"a"[..])));
    let data = builder.build();
    let reader = BlockReader::new(&data);
    assert_eq!(reader.get(&Key::new(&b"c"[..]))?.unwrap().lsn, 2);
    assert!(reader.get(&Key::new(&b"b"[..]))?.is_none());
    Ok(())
}

#[test]
fn test_index_find_block() -> Result<()> {
    let mut index = Index::new();
    index.add(IndexEntry { first_key: Key::new(&b"b"[..]), offset: 0, block_size: 10 });
    index.add(IndexEntry { first_key: Key::new(&b"m"[..]), offset: 10, block_size: 10 });
    assert!(index.find_block(&Key::new(&b"a"[..])).is_none());
    assert_eq!(index.find_block(&Key::new(&b"c"[..])).unwrap().offset, 0);
    assert_eq!(index.find_block(&Key::new(&b"z"[..])).unwrap().offset, 10);

    let mut buf = Vec::new();
    let n = index.entries[1].encode(&mut buf)?;
    let (back, m) = IndexEntry::decode(&buf)?;
    assert_eq!(n, m);
    assert_eq!(back.first_key, Key::new(&b"m"[..]));
    assert_eq!(back.offset, 10);
    Ok(())
}

#[test]
fn test_fit_checks() {
    let mut mt = MemTable::new();
    assert!(memtable_fits(&mt));
    mt.put(Key::new(&b"k"[..]), Value::new(&b"v"[..]));
    assert!(memtable_fits(&mt));
    let recs = vec![record(SstableOp::Put, 1, b"a", Some(b"x"))];
    assert!(records_fit(&recs));
    assert!(records_fit(&Vec::new()));
}
