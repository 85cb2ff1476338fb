//! Write-ahead log records and their binary frames.
//!
//! A frame is the big-endian CRC-32 (`u32`) of the bytes after it, the
//! operation byte, the big-endian LSN (`u64`), the key length (`u32`), the
//! value length (`u32`), then the key and the value bytes: 21 bytes of
//! header before the key and value.
use crate::common::endian::{
    get_u32_be, get_u64_be, put_u32_be, put_u64_be, u32_be, u32_from_be, u64_be, u64_from_be,
};
use crate::common::error::{opt_text, DzongError, Result};
use crate::common::key_value::{clone_opt_value, opt_value_view, Key, Value};
use crate::common::sequence::SequenceNumber;
use crate::common::text::{decimal, push_decimal};
use crate::wal::checksum::{calculate, crc32_ieee};
use vstd::prelude::*;
use vstd::string::*;

verus! {

/// Represents the type of operation in a WAL record.
#[derive(Clone, Copy, Debug, PartialEq, Eq, Structural)]
pub enum WalOp {
    Put,
    Delete,
}

/// The byte that encodes an operation.
pub open spec fn wal_op_byte(op: WalOp) -> u8 {
    match op {
        WalOp::Put => 0,
        WalOp::Delete => 1,
    }
}

/// The message of the error for an unknown operation byte.
pub open spec fn unknown_op_text(v: u8) -> Seq<char> {
    "Unknown WalOp type: "@ + decimal(v as nat)
}

/// `e` is a codec error with the given message and source context.
pub open spec fn is_codec_error(e: DzongError, message: Seq<char>, source: Seq<char>) -> bool {
    &&& e matches DzongError::Codec { message: m, source_context: c }
    &&& m@ == message
    &&& opt_text(c) == Some(source)
}

/// `e` is a corruption error with the given message and no location.
pub open spec fn is_corruption_error(e: DzongError, message: Seq<char>) -> bool {
    &&& e matches DzongError::Corruption { message: m, file_id: f, offset: o }
    &&& m@ == message
    &&& f is None
    &&& o is None
}

impl WalOp {
    /// The operation encoded by `v`: 0 is a put, 1 a delete, anything else
    /// a codec error.
    pub fn from_u8(v: u8) -> (r: Result<Self>)
        ensures
            v == 0 ==> r == Ok::<WalOp, DzongError>(WalOp::Put),
            v == 1 ==> r == Ok::<WalOp, DzongError>(WalOp::Delete),
            v > 1 ==> r is Err && is_codec_error(r->Err_0, unknown_op_text(v), "WalOp::from_u8"@),
    {
        match v {
            0 => Ok(WalOp::Put),
            1 => Ok(WalOp::Delete),
            _ => {
                proof {
                    reveal_strlit("Unknown WalOp type: ");
                    reveal_strlit("WalOp::from_u8");
                }
                let mut message = String::from_str("Unknown WalOp type: ");
                push_decimal(&mut message, v as u64);
                let e = DzongError::Codec {
                    message,
                    source_context: Some(String::from_str("WalOp::from_u8")),
                };
                Err(e)
            },
        }
    }

    /// The byte that encodes this operation.
    pub fn to_u8(&self) -> (r: u8)
        ensures
            r == wal_op_byte(*self),
    {
        match self {
            WalOp::Put => 0,
            WalOp::Delete => 1,
        }
    }
}

/// The content of a write-ahead log record.
pub struct WalEntry {
    pub op: WalOp,
    pub lsn: u64,
    pub key: Seq<u8>,
    pub value: Option<Seq<u8>>,
}

/// The bytes written for an optional value: its bytes, or none.
pub open spec fn value_bytes(v: Option<Seq<u8>>) -> Seq<u8> {
    match v {
        Some(b) => b,
        None => Seq::empty(),
    }
}

/// The payload of the record `e`: the operation byte, the LSN, the key and
/// value lengths, the key and the value. Lengths are written as `u32`,
/// truncated as `as u32` truncates.
#[verifier::opaque]
pub open spec fn wal_payload(e: WalEntry) -> Seq<u8> {
    seq![wal_op_byte(e.op)] + u64_be(e.lsn) + u32_be(e.key.len() as u32) + u32_be(
        value_bytes(e.value).len() as u32,
    ) + e.key + value_bytes(e.value)
}

/// The frame of a payload: its checksum, then itself.
pub open spec fn wal_frame(payload: Seq<u8>) -> Seq<u8> {
    u32_be(crc32_ieee(payload)) + payload
}

/// The frame of the record `e`.
#[verifier::opaque]
pub open spec fn wal_encoding(e: WalEntry) -> Seq<u8> {
    wal_frame(wal_payload(e))
}

/// The record a payload holds, if it is well formed: at least 17 bytes, a
/// known operation, and a length that matches the key and value lengths. A
/// put carries its value, empty or not; a delete carries one only where it
/// is not empty. The frame writes a missing value and an empty one alike (a
/// value length of 0), so a put without a value reads back with the empty
/// value; the engine never writes a put without a value.
pub open spec fn decode_wal_payload(p: Seq<u8>) -> Option<WalEntry> {
    if p.len() < 17 || p[0] > 1 {
        None
    } else {
        let klen = u32_from_be(p.subrange(9, 13)) as int;
        let vlen = u32_from_be(p.subrange(13, 17)) as int;
        if p.len() != 17 + klen + vlen {
            None
        } else {
            Some(
                WalEntry {
                    op: if p[0] == 0 {
                        WalOp::Put
                    } else {
                        WalOp::Delete
                    },
                    lsn: u64_from_be(p.subrange(1, 9)),
                    key: p.subrange(17, 17 + klen),
                    value: if p[0] == 0 || vlen > 0 {
                        Some(p.subrange(17 + klen, p.len() as int))
                    } else {
                        None
                    },
                },
            )
        }
    }
}

/// The codec error that a malformed payload gives: its message and source.
pub open spec fn wal_payload_error(p: Seq<u8>, e: DzongError) -> bool {
    if p.len() < 17 {
        is_codec_error(e, "WAL record payload too short"@, "WalReader::parse_record"@)
    } else if p[0] > 1 {
        is_codec_error(e, unknown_op_text(p[0]), "WalOp::from_u8"@)
    } else {
        is_codec_error(e, "WAL record payload length mismatch"@, "WalReader::parse_record"@)
    }
}

/// A single record in the Write-Ahead Log.
#[derive(Debug, PartialEq, Eq)]
pub struct WalRecord {
    pub op: WalOp,
    pub lsn: SequenceNumber,
    pub key: Key,
    pub value: Option<Value>,
}

impl View for WalRecord {
    type V = WalEntry;

    open spec fn view(&self) -> WalEntry {
        WalEntry {
            op: self.op,
            lsn: self.lsn@,
            key: self.key@,
            value: opt_value_view(self.value),
        }
    }
}

impl Clone for WalRecord {
    fn clone(&self) -> (r: Self)
        ensures
            r@ == self@,
    {
        WalRecord {
            op: self.op,
            lsn: self.lsn,
            key: self.key.clone(),
            value: clone_opt_value(&self.value),
        }
    }
}

/// The record's payload fits in memory with its frame.
pub open spec fn wal_record_fits(e: WalEntry) -> bool {
    e.key.len() + value_bytes(e.value).len() + 21 <= usize::MAX
}

impl WalRecord {
    /// Encodes the record into a binary format.
    pub fn encode(&self) -> (r: Vec<u8>)
        requires
            wal_record_fits(self@),
        ensures
            r@ == wal_encoding(self@),
    {
        let key_bytes = self.key.as_slice();
        let val_bytes: &[u8] = match &self.value {
            Some(v) => v.as_slice(),
            None => &[],
        };
        assert(val_bytes@ == value_bytes(self@.value));
        let payload_len = 1 + 8 + 4 + 4 + key_bytes.len() + val_bytes.len();
        let mut payload: Vec<u8> = Vec::with_capacity(payload_len);
        payload.push(self.op.to_u8());
        put_u64_be(&mut payload, self.lsn.as_u64());
        put_u32_be(&mut payload, key_bytes.len() as u32);
        put_u32_be(&mut payload, val_bytes.len() as u32);
        payload.extend_from_slice(key_bytes);
        payload.extend_from_slice(val_bytes);
        assert(payload@ =~= wal_payload(self@)) by {
            reveal(wal_payload);
        }

        // Checksum first, then the payload
        let checksum = calculate(payload.as_slice());
        let mut buf: Vec<u8> = Vec::with_capacity(4 + payload_len);
        put_u32_be(&mut buf, checksum);
        buf.extend_from_slice(payload.as_slice());
        assert(buf@ =~= wal_encoding(self@)) by {
            reveal(wal_encoding);
        }
        buf
    }

    /// Returns the expected size of the encoded record.
    pub fn encoded_size(&self) -> (r: usize)
        requires
            wal_record_fits(self@),
        ensures
            r == wal_encoding(self@).len(),
    {
        proof {
            reveal(wal_encoding);
            reveal(wal_payload);
        }
        let key_len = self.key.len();
        let val_len = match &self.value {
            Some(v) => v.len(),
            None => 0,
        };
        4 + 1 + 8 + 4 + 4 + key_len + val_len
    }

    /// Reads the record that a frame's payload holds.
    pub fn decode_payload(payload: &[u8]) -> (r: Result<WalRecord>)
        ensures
            match r {
                Ok(rec) => decode_wal_payload(payload@) == Some(rec@),
                Err(e) => decode_wal_payload(payload@) is None && wal_payload_error(payload@, e),
            },
    {
        proof {
            reveal_strlit("WAL record payload too short");
            reveal_strlit("WAL record payload length mismatch");
            reveal_strlit("WalReader::parse_record");
        }
        if payload.len() < 17 {
            // op(1) + lsn(8) + klen(4) + vlen(4)
            return Err(
                DzongError::Codec {
                    message: String::from_str("WAL record payload too short"),
                    source_context: Some(String::from_str("WalReader::parse_record")),
                },
            );
        }
        let op = WalOp::from_u8(payload[0])?;
        let lsn = SequenceNumber::new(get_u64_be(payload, 1));
        let klen = get_u32_be(payload, 9) as usize;
        let vlen = get_u32_be(payload, 13) as usize;
        if payload.len() - 17 < klen || payload.len() - 17 - klen != vlen {
            return Err(
                DzongError::Codec {
                    message: String::from_str("WAL record payload length mismatch"),
                    source_context: Some(String::from_str("WalReader::parse_record")),
                },
            );
        }
        let key = Key::new(vstd::slice::slice_subrange(payload, 17, 17 + klen));
        let value = if op == WalOp::Put || vlen > 0 {
            Some(Value::new(vstd::slice::slice_subrange(payload, 17 + klen, payload.len())))
        } else {
            None
        };
        let rec = WalRecord { op, lsn, key, value };
        assert(rec@ == decode_wal_payload(payload@)->0);
        Ok(rec)
    }
}

} // verus!
