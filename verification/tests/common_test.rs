use dzong::common::text::push_zero_padded;
use dzong::endian::{get_u32_be, get_u64_le, put_u32_be, put_u64_le};
use dzong::{Decode, DzongError, Encode, FileId, Key, Level, Result, SequenceNumber, SizeOf, TableId, Value, LSN};
use std::cmp::Ordering;
use std::io;

struct MockType(u32);

impl Encode for MockType {
    fn encode(&self, dst: &mut Vec<u8>) -> Result<()> {
        dst.extend_from_slice(&self.0.to_be_bytes());
        Ok(())
    }

    fn encoded_size(&self) -> usize {
        4
    }
}

impl Decode for MockType {
    fn decode(src: &[u8]) -> Result<(Self, usize)> {
        if src.len() < 4 {
            return Err(DzongError::Codec {
                message: "Insufficient bytes".to_string(),
                source_context: None,
            });
        }
        let mut bytes = [0u8; 4];
        bytes.copy_from_slice(&src[..4]);
        Ok((Self(u32::from_be_bytes(bytes)), 4))
    }
}

#[test]
fn test_codec_mock() {
    let val = MockType(0xDEADBEEF);
    let mut buf = Vec::new();
    val.encode(&mut buf).unwrap();
    assert_eq!(buf.len(), 4);

    let (decoded, size) = MockType::decode(&buf).unwrap();
    assert_eq!(decoded.0, 0xDEADBEEF);
    assert_eq!(size, 4);
}

#[test]
fn test_io_propagation() {
    fn fail() -> Result<()> {
        Err(io::Error::other("disk failure").into())
    }
    let res = fail();
    assert!(matches!(res, Err(DzongError::Io(_))));
}

#[test]
fn test_corruption_formatting() {
    let err = DzongError::Corruption {
        message: "invalid block checksum".to_string(),
        file_id: Some(123),
        offset: Some(4096),
    };
    let msg = err.to_string();
    assert!(msg.contains("invalid block checksum"));
    assert!(msg.contains("123"));
    assert!(msg.contains("4096"));
}

#[test]
fn test_not_found_context() {
    let err = DzongError::NotFound { key: b"user_123".to_vec() };
    if let DzongError::NotFound { key } = err {
        assert_eq!(key, b"user_123");
    } else {
        panic!("expected NotFound variant");
    }
}

#[test]
fn test_sizeof_vec() {
    let v: Vec<u8> = vec![1, 2, 3];
    assert_eq!(v.size_of(), 3);
}

#[test]
fn test_id_values() {
    let tid = TableId::new(42);
    assert_eq!(tid.as_u64(), 42);
    let fid = FileId::new(100);
    assert_eq!(fid.as_u64(), 100);
    let lvl = Level::new(1);
    assert_eq!(lvl.as_u32(), 1);
}

#[test]
fn test_sequence_values() {
    let seq = SequenceNumber::new(123);
    assert_eq!(seq.as_u64(), 123);
    let lsn = LSN::new(456);
    assert_eq!(lsn.as_u64(), 456);
}

#[test]
fn test_key_value_deref() {
    let key = Key::new(&b"hello"[..]);
    assert_eq!(&*key, b"hello");
    let val = Value::new(&b"world"[..]);
    assert_eq!(&*val, b"world");
}

#[test]
fn test_key_ordering() {
    let k1 = Key::new(&b"a"[..]);
    let k2 = Key::new(&b"b"[..]);
    assert!(k1 < k2);
}

#[test]
fn test_key_from_vec_and_len() {
    let k = Key::from(vec![1u8, 2, 3]);
    assert_eq!(k.as_slice(), &[1u8, 2, 3][..]);
    assert_eq!(k.len(), 3);
    let v = Value::new(&b""[..]);
    assert_eq!(v.len(), 0);
}

#[test]
fn test_error_texts() {
    let e = DzongError::Corruption { message: "bad".to_string(), file_id: None, offset: Some(7) };
    assert_eq!(e.to_string(), "Corruption: bad (file_id: None, offset: Some(7))");
    let e = DzongError::Codec { message: "m".to_string(), source_context: Some("s\"q".to_string()) };
    assert_eq!(e.to_string(), "Codec error: m (source: Some(\"s\\\"q\"))");
    let e = DzongError::NotFound { key: vec![1, 20] };
    assert_eq!(e.to_string(), "Key not found: [1, 20]");
    let e = DzongError::Invariant { message: "x".to_string(), context: None };
    assert_eq!(e.to_string(), "Internal invariant violation: x (context: None)");
    let e: DzongError = io::Error::other("disk failure").into();
    assert_eq!(e.to_string(), "I/O error: disk failure");
}

#[test]
fn test_zero_padded_names() {
    let mut s = String::new();
    push_zero_padded(&mut s, 42, 6);
    assert_eq!(s, "000042");
    let mut s = String::from("x");
    push_zero_padded(&mut s, 1234567, 6);
    assert_eq!(s, "x1234567");
}

#[test]
fn test_endian_roundtrip() {
    let mut out = Vec::new();
    put_u32_be(&mut out, 0x01020304);
    assert_eq!(out, vec![1, 2, 3, 4]);
    assert_eq!(get_u32_be(&out, 0), 0x01020304);
    let mut out = Vec::new();
    put_u64_le(&mut out, 0x0102030405060708);
    assert_eq!(out, vec![8, 7, 6, 5, 4, 3, 2, 1]);
    assert_eq!(get_u64_le(&out, 0), 0x0102030405060708);
}

#[test]
fn test_error_text_escapes_as_debug() {
    let ctx = "a\u{85}b\u{7f}\n\u{e9}".to_string();
    let e = DzongError::Invariant { message: "x".to_string(), context: Some(ctx.clone()) };
    assert_eq!(e.to_string(), format!("Internal invariant violation: x (context: Some({:?}))", ctx));
    assert_eq!(e.to_string(), "Internal invariant violation: x (context: Some(\"a\\u{85}b\\u{7f}\\n\u{e9}\"))");
}

#[test]
fn test_key_order_is_bytewise() {
    let k = |b: &[u8]| Key::new(b);
    assert_eq!(k(b"a").partial_cmp(&k(b"a")), Some(Ordering::Equal));
    assert!(k(b"a") < k(b"ab"));
    assert!(k(b"ab") < k(b"b"));
    assert!(k(&[0x7f]) < k(&[0x80]));
    assert!(k(b"") < k(&[0]));
    assert!(k(b"b") > k(b"abc"));
}
