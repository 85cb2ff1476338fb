use dzong::wal::checksum::calculate;
use dzong::{DzongError, Key, Result, SequenceNumber, Value, WalOp, WalReader, WalRecord};

fn put_record(lsn: u64, k: &[u8], v: &[u8]) -> WalRecord {
    WalRecord { op: WalOp::Put, lsn: SequenceNumber::new(lsn), key: Key::new(k), value: Some(Value::new(v)) }
}

#[test]
fn test_checksum_consistency() {
    let data = b"dzong-wal-test";
    let c1 = calculate(data);
    let c2 = calculate(data);
    assert_eq!(c1, c2);
    assert_ne!(c1, 0);
}

#[test]
fn test_checksum_known_value() {
    assert_eq!(calculate(b"123456789"), 0xCBF43926);
    assert_eq!(calculate(b""), 0);
    assert_eq!(calculate(b"a"), 0xE8B7BE43);
    // one changed byte changes the checksum
    assert_ne!(calculate(b"123456789"), calculate(b"123456788"));
}

#[test]
fn test_record_encoding() {
    let record = put_record(1, b"k1", b"v1");
    let encoded = record.encode();
    assert_eq!(encoded.len(), record.encoded_size());
}

#[test]
fn test_record_encoding_layout() {
    let record = put_record(1, b"k1", b"v1");
    let encoded = record.encode();
    assert_eq!(encoded.len(), 21 + 2 + 2);
    // checksum of what follows, then op, LSN, key length, value length, key, value
    assert_eq!(&encoded[0..4], &calculate(&encoded[4..]).to_be_bytes()[..]);
    assert_eq!(encoded[4], 0);
    assert_eq!(&encoded[5..13], &1u64.to_be_bytes()[..]);
    assert_eq!(&encoded[13..17], &[0, 0, 0, 2][..]);
    assert_eq!(&encoded[17..21], &[0, 0, 0, 2][..]);
    assert_eq!(&encoded[21..23], b"k1");
    assert_eq!(&encoded[23..25], b"v1");
}

#[test]
fn test_wal_roundtrip() -> Result<()> {
    let r1 = put_record(1, b"k1", b"v1");
    let r2 = WalRecord { op: WalOp::Delete, lsn: SequenceNumber::new(2), key: Key::new(&b"k2"[..]), value: None };

    let mut log = r1.encode();
    log.extend_from_slice(&r2.encode());

    let mut reader = WalReader::open(log);
    assert_eq!(reader.next_record()?.unwrap(), r1);
    assert_eq!(reader.next_record()?.unwrap(), r2);
    assert!(reader.next_record()?.is_none());
    Ok(())
}

#[test]
fn test_wal_corruption_detection() -> Result<()> {
    let r1 = put_record(1, b"k1", b"v1");
    let mut log = r1.encode();
    let last = log.len() - 1;
    log[last] = !log[last];

    let mut reader = WalReader::open(log);
    let result = reader.next_record();
    assert!(result.is_err());
    match result {
        Err(DzongError::Corruption { message, .. }) => assert_eq!(message, "WAL record checksum mismatch"),
        _ => panic!("expected a checksum mismatch"),
    }
    Ok(())
}

#[test]
fn test_wal_truncated_frame() {
    let r1 = put_record(1, b"k1", b"v1");
    let mut log = r1.encode();
    log.truncate(log.len() - 2);
    let mut reader = WalReader::open(log);
    assert!(matches!(reader.next_record(), Err(DzongError::Io(_))));
}

#[test]
fn test_wal_bad_op_byte() {
    // a frame whose payload starts with an unknown operation byte
    let mut payload = vec![7u8];
    payload.extend_from_slice(&1u64.to_be_bytes());
    payload.extend_from_slice(&[0, 0, 0, 0, 0, 0, 0, 0]);
    let mut log = calculate(&payload).to_be_bytes().to_vec();
    log.extend_from_slice(&payload);
    let mut reader = WalReader::open(log);
    match reader.next_record() {
        Err(DzongError::Codec { message, .. }) => assert_eq!(message, "Unknown WalOp type: 7"),
        _ => panic!("expected a codec error"),
    }
}

#[test]
fn test_empty_value_survives() -> Result<()> {
    let r = put_record(3, b"k", b"");
    let mut reader = WalReader::open(r.encode());
    let back = reader.next_record()?.unwrap();
    assert_eq!(back.value, Some(Value::new(&b""[..])));
    assert_eq!(back, r);
    Ok(())
}

#[test]
fn test_wal_op_from_u8() {
    assert_eq!(WalOp::from_u8(0).unwrap(), WalOp::Put);
    assert_eq!(WalOp::from_u8(1).unwrap(), WalOp::Delete);
    assert!(matches!(WalOp::from_u8(2), Err(DzongError::Codec { .. })));
    assert_eq!(WalOp::Delete.to_u8(), 1);
}

#[test]
fn test_empty_log_reads_nothing() -> Result<()> {
    let mut reader = WalReader::open(Vec::new());
    assert!(reader.next_record()?.is_none());
    Ok(())
}

#[test]
fn test_torn_header_fails() -> Result<()> {
    let r1 = put_record(1, b"k1", b"v1");
    let r2 = put_record(2, b"k2", b"v2");
    let mut log = r1.encode();
    log.extend_from_slice(&r2.encode()[..3]);
    let mut reader = WalReader::open(log);
    assert_eq!(reader.next_record()?.unwrap(), r1);
    // a partly written frame is detected, not taken for the end
    assert!(matches!(reader.next_record(), Err(DzongError::Io(_))));
    Ok(())
}

#[test]
fn test_torn_frame_after_prefix_fails() {
    let r1 = put_record(1, b"k1", b"v1");
    let r2 = put_record(2, b"k2", b"v2");
    let mut log = r1.encode();
    log.extend_from_slice(&r2.encode()[..22]);
    let mut reader = WalReader::open(log);
    assert!(reader.next_record().is_ok());
    assert!(matches!(reader.next_record(), Err(DzongError::Io(_))));
}

#[test]
fn test_changed_record_bytes_detected() {
    let r1 = put_record(9, b"key", b"value");
    let clean = r1.encode();
    // every byte of the operation, the LSN, the key and the value
    for q in (4..13).chain(21..clean.len()) {
        for flip in [1u8, 0x80, 0xff] {
            let mut log = clean.clone();
            log[q] ^= flip;
            match WalReader::open(log).next_record() {
                Err(DzongError::Corruption { message, .. }) => {
                    assert_eq!(message, "WAL record checksum mismatch")
                }
                _ => panic!("expected a checksum mismatch at byte {}", q),
            }
        }
    }
}
