//! Replaying the records of a write-ahead log.
use crate::common::endian::{get_u32_be, u32_from_be};
use crate::common::error::{unexpected_eof, DzongError, Result};
use crate::wal::checksum::{calculate, crc32_ieee};
use crate::wal::record::{
    decode_wal_payload, is_corruption_error, wal_payload_error, WalEntry, WalRecord,
};
use vstd::prelude::*;
use vstd::string::*;

verus! {

/// What reading a frame at a position of a log finds.
pub enum FrameRead {
    /// No byte is left: the log ends.
    End,
    /// The header, or the key and value it announces, run past the end.
    Truncated,
    /// The stored checksum does not match the payload.
    Mismatch,
    /// The checksum matches but the payload is malformed.
    Malformed,
    /// A well-formed record, and the length of its frame.
    Record(WalEntry, int),
}

/// The length of the frame at `pos`: 21 header bytes, then the key and the
/// value whose lengths the header declares.
pub open spec fn frame_len(data: Seq<u8>, pos: int) -> int {
    21 + u32_from_be(data.subrange(pos + 13, pos + 17)) + u32_from_be(
        data.subrange(pos + 17, pos + 21),
    )
}

/// The payload of the frame at `pos`: everything after its checksum.
pub open spec fn frame_payload(data: Seq<u8>, pos: int) -> Seq<u8> {
    data.subrange(pos + 4, pos + frame_len(data, pos))
}

/// The checksum stored at the front of the frame at `pos`.
pub open spec fn frame_checksum(data: Seq<u8>, pos: int) -> u32 {
    u32_from_be(data.subrange(pos, pos + 4))
}

/// Reads the frame at `pos` of `data`.
#[verifier::opaque]
pub open spec fn read_frame(data: Seq<u8>, pos: int) -> FrameRead {
    if data.len() - pos <= 0 {
        FrameRead::End
    } else if data.len() - pos < 21 {
        FrameRead::Truncated
    } else if data.len() - pos < frame_len(data, pos) {
        FrameRead::Truncated
    } else if frame_checksum(data, pos) != crc32_ieee(frame_payload(data, pos)) {
        FrameRead::Mismatch
    } else {
        match decode_wal_payload(frame_payload(data, pos)) {
            Some(e) => FrameRead::Record(e, frame_len(data, pos)),
            None => FrameRead::Malformed,
        }
    }
}

/// The records of `data` from `pos` on, read frame after frame until the
/// log ends; `None` if a frame is truncated, corrupt or malformed first.
pub open spec fn replay_from(data: Seq<u8>, pos: int) -> Option<Seq<WalEntry>>
    decreases data.len() - pos,
{
    if pos < 0 || pos > data.len() {
        None
    } else {
        match read_frame(data, pos) {
            FrameRead::End => Some(Seq::empty()),
            FrameRead::Record(e, len) => if len > 0 && pos + len <= data.len() {
                match replay_from(data, pos + len) {
                    Some(rest) => Some(seq![e] + rest),
                    None => None,
                }
            } else {
                None
            },
            _ => None,
        }
    }
}

/// The records of a whole log.
pub open spec fn replay_log(data: Seq<u8>) -> Option<Seq<WalEntry>> {
    replay_from(data, 0)
}

/// Responsible for reading and replaying records from a Write-Ahead Log,
/// given the log's bytes.
pub struct WalReader {
    data: Vec<u8>,
    pos: usize,
}

impl WalReader {
    #[verifier::type_invariant]
    spec fn inv(self) -> bool {
        self.pos <= self.data@.len()
    }

    /// The bytes of the log.
    pub closed spec fn data(self) -> Seq<u8> {
        self.data@
    }

    /// The position of the next frame.
    pub closed spec fn pos(self) -> int {
        self.pos as int
    }

    /// Starts reading a log whose bytes are `contents`.
    pub fn open(contents: Vec<u8>) -> (r: Self)
        ensures
            r.data() == contents@,
            r.pos() == 0,
    {
        WalReader { data: contents, pos: 0 }
    }

    /// Reads the next record from the log. Returns `None` at the end.
    pub fn next_record(&mut self) -> (r: Result<Option<WalRecord>>)
        ensures
            final(self).data() == old(self).data(),
            old(self).pos() <= final(self).pos() <= old(self).data().len(),
            r matches Ok(Some(_)) ==> old(self).pos() < final(self).pos(),
            match read_frame(old(self).data(), old(self).pos()) {
                FrameRead::End => r matches Ok(None) && final(self).pos() == old(self).data().len(),
                FrameRead::Truncated => r matches Err(DzongError::Io(_)) && final(self).pos()
                    == old(self).data().len(),
                FrameRead::Mismatch => r is Err && is_corruption_error(
                    r->Err_0,
                    "WAL record checksum mismatch"@,
                ) && final(self).pos() == old(self).pos() + frame_len(
                    old(self).data(),
                    old(self).pos(),
                ),
                FrameRead::Malformed => r is Err && wal_payload_error(
                    frame_payload(old(self).data(), old(self).pos()),
                    r->Err_0,
                ) && final(self).pos() == old(self).pos() + frame_len(
                    old(self).data(),
                    old(self).pos(),
                ),
                FrameRead::Record(e, len) => r matches Ok(Some(rec)) && rec@ == e
                    && final(self).pos() == old(self).pos() + len,
            },
    {
        proof {
            use_type_invariant(&*self);
            reveal(read_frame);
        }
        let len = self.data.len();
        if self.pos == len {
            return Ok(None);
        }
        if len - self.pos < 21 {
            self.pos = len;
            return Err(DzongError::Io(unexpected_eof()));
        }
        let klen = get_u32_be(self.data.as_slice(), self.pos + 13) as usize;
        let vlen = get_u32_be(self.data.as_slice(), self.pos + 17) as usize;
        let avail = len - self.pos - 21;
        if avail < klen || avail - klen < vlen {
            self.pos = len;
            return Err(DzongError::Io(unexpected_eof()));
        }
        let start = self.pos + 4;
        let end = self.pos + 21 + klen + vlen;
        proof {
            assert(self.data@.subrange(self.pos + 13, self.pos + 17) =~= self.data@.subrange(
                self.pos + 13,
                self.pos + 13 + 4,
            ));
        }
        let payload = vstd::slice::slice_subrange(self.data.as_slice(), start, end);
        let expected_checksum = get_u32_be(self.data.as_slice(), self.pos);
        let actual_checksum = calculate(payload);
        let next = end;
        if actual_checksum != expected_checksum {
            self.pos = next;
            proof {
                reveal_strlit("WAL record checksum mismatch");
            }
            return Err(
                DzongError::Corruption {
                    message: String::from_str("WAL record checksum mismatch"),
                    file_id: None,
                    offset: None,
                },
            );
        }
        let rec = WalRecord::decode_payload(payload);
        self.pos = next;
        match rec {
            Ok(rec) => Ok(Some(rec)),
            Err(e) => Err(e),
        }
    }
}

} // verus!

verus! {

/// `e` is the error that reading the frame at `pos` gives, when that frame
/// is not a record.
pub open spec fn frame_error(data: Seq<u8>, pos: int, e: DzongError) -> bool {
    match read_frame(data, pos) {
        FrameRead::Truncated => e is Io,
        FrameRead::Mismatch => is_corruption_error(e, "WAL record checksum mismatch"@),
        FrameRead::Malformed => wal_payload_error(frame_payload(data, pos), e),
        _ => false,
    }
}

/// Replaying `data` from `pos` stops at a frame that is not a record and
/// fails with `e`.
pub open spec fn replay_fails_with(data: Seq<u8>, pos: int, e: DzongError) -> bool
    decreases data.len() - pos,
{
    if pos < 0 || pos > data.len() {
        false
    } else {
        match read_frame(data, pos) {
            FrameRead::End => false,
            FrameRead::Record(_, len) => len > 0 && pos + len <= data.len() && replay_fails_with(
                data,
                pos + len,
                e,
            ),
            _ => frame_error(data, pos, e),
        }
    }
}

} // verus!
