//! Records as sorted tables store them.
//!
//! A record is the operation byte (1 put, 2 delete), the little-endian LSN
//! (`u64`), the key length (`u32`), the key, the value length (`u32`) and
//! the value bytes (none for a missing value).
use crate::common::endian::{
    get_u32_le, get_u64_le, put_u32_le, put_u64_le, u32_from_le, u32_le, u64_from_le, u64_le,
};
use crate::common::error::{unexpected_eof, DzongError, Result};
use crate::common::key_value::{clone_opt_value, opt_value_view, Key, Value};
use crate::common::text::{decimal, push_decimal};
use crate::wal::record::{is_corruption_error, value_bytes};
use vstd::prelude::*;
use vstd::string::*;

verus! {

/// Operation type stored in the SSTable.
#[derive(Debug, Clone, Copy, PartialEq, Eq, Structural)]
pub enum SstableOp {
    Put,
    Delete,
}

/// The byte that encodes an operation.
pub open spec fn sst_op_byte(op: SstableOp) -> u8 {
    match op {
        SstableOp::Put => 1,
        SstableOp::Delete => 2,
    }
}

impl SstableOp {
    /// The operation encoded by `v`: 1 is a put, 2 a delete.
    pub fn from_u8(v: u8) -> (r: Option<Self>)
        ensures
            v == 1 ==> r == Some(SstableOp::Put),
            v == 2 ==> r == Some(SstableOp::Delete),
            v != 1 && v != 2 ==> r is None,
    {
        match v {
            1 => Some(SstableOp::Put),
            2 => Some(SstableOp::Delete),
            _ => None,
        }
    }

    /// The byte that encodes this operation.
    pub fn to_u8(&self) -> (r: u8)
        ensures
            r == sst_op_byte(*self),
    {
        match self {
            SstableOp::Put => 1,
            SstableOp::Delete => 2,
        }
    }
}

/// The content of a table record.
pub struct RecordView {
    pub op: SstableOp,
    pub lsn: u64,
    pub key: Seq<u8>,
    pub value: Option<Seq<u8>>,
}

/// The bytes of a table record. Lengths are written as `u32`, truncated as
/// `as u32` truncates.
#[verifier::opaque]
pub open spec fn sst_record_bytes(r: RecordView) -> Seq<u8> {
    seq![sst_op_byte(r.op)] + u64_le(r.lsn) + u32_le(r.key.len() as u32) + r.key + u32_le(
        value_bytes(r.value).len() as u32,
    ) + value_bytes(r.value)
}

/// A record takes 17 bytes besides its key and value.
pub proof fn lemma_sst_record_bytes_len(r: RecordView)
    ensures
        sst_record_bytes(r).len() == 17 + r.key.len() + value_bytes(r.value).len(),
{
    reveal(sst_record_bytes);
}

/// What decoding a record from the front of some bytes finds.
pub enum RecordDecode {
    /// The bytes end before the record does.
    Eof,
    /// The operation byte is neither 1 nor 2.
    BadOp(u8),
    /// A record, and the number of bytes it took.
    Record(RecordView, int),
}

/// Decodes a record from the front of `s`. A delete record reads with no
/// value, whatever bytes it carries; a put record always has one.
#[verifier::opaque]
pub open spec fn decode_sst_record(s: Seq<u8>) -> RecordDecode {
    if s.len() < 1 {
        RecordDecode::Eof
    } else if s[0] != 1 && s[0] != 2 {
        RecordDecode::BadOp(s[0])
    } else if s.len() < 13 {
        RecordDecode::Eof
    } else {
        let klen = u32_from_le(s.subrange(9, 13)) as int;
        if s.len() < 13 + klen + 4 {
            RecordDecode::Eof
        } else {
            let vlen = u32_from_le(s.subrange(13 + klen, 17 + klen)) as int;
            if s.len() < 17 + klen + vlen {
                RecordDecode::Eof
            } else {
                let op = if s[0] == 1 {
                    SstableOp::Put
                } else {
                    SstableOp::Delete
                };
                RecordDecode::Record(
                    RecordView {
                        op,
                        lsn: u64_from_le(s.subrange(1, 9)),
                        key: s.subrange(13, 13 + klen),
                        value: if op == SstableOp::Delete {
                            None
                        } else {
                            Some(s.subrange(17 + klen, 17 + klen + vlen))
                        },
                    },
                    17 + klen + vlen,
                )
            }
        }
    }
}

/// A decoded record took at least 17 of the bytes there were.
pub proof fn lemma_decode_sst_record_len(s: Seq<u8>)
    ensures
        decode_sst_record(s) matches RecordDecode::Record(_, n) ==> 17 <= n <= s.len(),
{
    reveal(decode_sst_record);
}

/// The message of the error for an unknown operation byte.
pub open spec fn bad_op_text(b: u8) -> Seq<char> {
    "Invalid SstableOp: "@ + decimal(b as nat)
}

/// `e` is the error that decoding a record from the front of `s` gives,
/// when no record is found there.
pub open spec fn record_decode_error(s: Seq<u8>, e: DzongError) -> bool {
    match decode_sst_record(s) {
        RecordDecode::Eof => e is Io,
        RecordDecode::BadOp(b) => is_corruption_error(e, bad_op_text(b)),
        RecordDecode::Record(_, _) => false,
    }
}

/// A physical record in an SSTable.
#[derive(Debug)]
pub struct SstableRecord {
    pub op: SstableOp,
    pub lsn: u64,
    pub key: Key,
    pub value: Option<Value>,
}

impl View for SstableRecord {
    type V = RecordView;

    open spec fn view(&self) -> RecordView {
        RecordView { op: self.op, lsn: self.lsn, key: self.key@, value: opt_value_view(self.value) }
    }
}

impl Clone for SstableRecord {
    fn clone(&self) -> (r: Self)
        ensures
            r@ == self@,
    {
        SstableRecord {
            op: self.op,
            lsn: self.lsn,
            key: self.key.clone(),
            value: clone_opt_value(&self.value),
        }
    }
}

/// The record's encoding fits in memory.
pub open spec fn sst_record_fits(r: RecordView) -> bool {
    r.key.len() + value_bytes(r.value).len() + 17 <= usize::MAX
}

impl SstableRecord {
    /// Appends the record's bytes to `writer`; returns how many were written.
    pub fn encode(&self, writer: &mut Vec<u8>) -> (r: Result<usize>)
        requires
            sst_record_fits(self@),
            old(writer)@.len() + sst_record_bytes(self@).len() <= usize::MAX,
        ensures
            final(writer)@ == old(writer)@ + sst_record_bytes(self@),
            r matches Ok(n) && n == sst_record_bytes(self@).len(),
    {
        proof {
            reveal(sst_record_bytes);
        }
        let mut size: usize = 0;
        writer.push(self.op.to_u8());
        size += 1;
        put_u64_le(writer, self.lsn);
        size += 8;

        let key_bytes = self.key.as_slice();
        put_u32_le(writer, key_bytes.len() as u32);
        size += 4;
        writer.extend_from_slice(key_bytes);
        size += key_bytes.len();

        let val_bytes: &[u8] = match &self.value {
            Some(v) => v.as_slice(),
            None => &[],
        };
        assert(val_bytes@ == value_bytes(self@.value));
        put_u32_le(writer, val_bytes.len() as u32);
        size += 4;
        writer.extend_from_slice(val_bytes);
        size += val_bytes.len();

        assert(writer@ =~= old(writer)@ + sst_record_bytes(self@));
        Ok(size)
    }

    /// Decodes a record from the front of `src`; returns it with the number
    /// of bytes it took.
    pub fn decode(src: &[u8]) -> (r: Result<(SstableRecord, usize)>)
        ensures
            match decode_sst_record(src@) {
                RecordDecode::Record(v, n) => r matches Ok((rec, m)) && rec@ == v && m == n,
                _ => r is Err && record_decode_error(src@, r->Err_0),
            },
            r matches Ok((_, m)) ==> 17 <= m <= src@.len(),
    {
        proof {
            reveal(decode_sst_record);
        }
        let len = src.len();
        if len < 1 {
            return Err(DzongError::Io(unexpected_eof()));
        }
        let op = match SstableOp::from_u8(src[0]) {
            Some(op) => op,
            None => {
                proof {
                    reveal_strlit("Invalid SstableOp: ");
                }
                let mut message = String::from_str("Invalid SstableOp: ");
                push_decimal(&mut message, src[0] as u64);
                return Err(DzongError::Corruption { message, file_id: None, offset: None });
            },
        };
        if len < 13 {
            return Err(DzongError::Io(unexpected_eof()));
        }
        let lsn = get_u64_le(src, 1);
        let key_len = get_u32_le(src, 9) as usize;
        if len - 13 < key_len || len - 13 - key_len < 4 {
            return Err(DzongError::Io(unexpected_eof()));
        }
        let key = Key::new(vstd::slice::slice_subrange(src, 13, 13 + key_len));
        let val_len = get_u32_le(src, 13 + key_len) as usize;
        if len - 17 - key_len < val_len {
            return Err(DzongError::Io(unexpected_eof()));
        }
        let end = 17 + key_len + val_len;
        let value = match op {
            SstableOp::Delete => None,
            SstableOp::Put => Some(Value::new(vstd::slice::slice_subrange(src, 17 + key_len, end))),
        };
        let rec = SstableRecord { op, lsn, key, value };
        Ok((rec, end))
    }
}

} // verus!
