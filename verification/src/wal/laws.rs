//! What the write-ahead log format guarantees: a record reads back as it was
//! written, a log of records replays in order, and a damaged checksum, a
//! changed byte of a record or a partly written frame is detected.
use crate::common::endian::{
    lemma_u32_be_bytes_roundtrip, lemma_u32_be_roundtrip, lemma_u64_be_roundtrip, u32_be, u64_be,
};
use crate::wal::checksum::{crc32_ieee, lemma_crc_detects_one_byte};
use crate::wal::reader::{
    frame_checksum, frame_len, frame_payload, read_frame, replay_from, replay_log, FrameRead,
};
use crate::wal::record::{
    decode_wal_payload, value_bytes, wal_encoding, wal_op_byte, wal_payload, WalEntry, WalOp,
};
use vstd::prelude::*;

verus! {

/// A record that the log format carries faithfully: its key and value
/// lengths fit their `u32` fields, a put has a value (possibly empty), and a
/// delete has no empty value (it is written exactly as a missing one).
pub open spec fn wal_encodable(e: WalEntry) -> bool {
    &&& e.key.len() <= u32::MAX
    &&& value_bytes(e.value).len() <= u32::MAX
    &&& e.op == WalOp::Put ==> e.value is Some
    &&& e.op == WalOp::Delete ==> e.value != Some(Seq::<u8>::empty())
}

/// The log made of the frames of `es`, in order.
pub open spec fn wal_log(es: Seq<WalEntry>) -> Seq<u8>
    decreases es.len(),
{
    if es.len() == 0 {
        Seq::empty()
    } else {
        wal_encoding(es[0]) + wal_log(es.drop_first())
    }
}

/// The payload of a record reads back as that record.
pub proof fn lemma_wal_payload_roundtrip(e: WalEntry)
    requires
        wal_encodable(e),
    ensures
        decode_wal_payload(wal_payload(e)) == Some(e),
{
    reveal(wal_payload);
    let p = wal_payload(e);
    let k = e.key;
    let v = value_bytes(e.value);
    lemma_u64_be_roundtrip(e.lsn);
    lemma_u32_be_roundtrip(k.len() as u32);
    lemma_u32_be_roundtrip(v.len() as u32);
    let klen = k.len() as int;
    assert(p.subrange(1, 9) =~= u64_be(e.lsn));
    assert(p.subrange(9, 13) =~= u32_be(k.len() as u32));
    assert(p.subrange(13, 17) =~= u32_be(v.len() as u32));
    assert(p.subrange(17, 17 + klen) =~= k);
    assert(p.subrange(17 + klen, p.len() as int) =~= v);
    assert(p[0] == wal_op_byte(e.op));
    assert((v.len() as u32) as int == v.len());
    assert((k.len() as u32) as int == k.len());
    let d = decode_wal_payload(p)->0;
    assert(d.op == e.op);
    match e.value {
        Some(b) => {
            if b.len() == 0 {
                assert(b =~= Seq::<u8>::empty());
                assert(e.op == WalOp::Put);
            }
            assert(d.value == Some(b));
        },
        None => {
            assert(e.op == WalOp::Delete);
            assert(d.value == e.value);
        },
    }
}

/// The frame of a record, found at `pos` in a log, reads as that record.
pub proof fn lemma_read_frame_of_encoding(data: Seq<u8>, pos: int, e: WalEntry)
    requires
        wal_encodable(e),
        0 <= pos,
        pos + wal_encoding(e).len() <= data.len(),
        data.subrange(pos, pos + wal_encoding(e).len()) == wal_encoding(e),
    ensures
        read_frame(data, pos) == FrameRead::Record(e, wal_encoding(e).len() as int),
        frame_len(data, pos) == wal_encoding(e).len(),
{
    lemma_encoding_len(e);
    assert(wal_encoding(e).subrange(0, wal_encoding(e).len() as int) =~= wal_encoding(e));
    lemma_frame_header_of_encoding(data, pos, e, wal_encoding(e).len() as int);
    let p = wal_payload(e);
    let enc = wal_encoding(e);
    reveal(wal_encoding);
    reveal(read_frame);
    lemma_u32_be_roundtrip(crc32_ieee(p));
    assert(frame_payload(data, pos) =~= enc.subrange(4, enc.len() as int));
    assert(enc.subrange(4, enc.len() as int) =~= p);
    assert(data.subrange(pos, pos + 4) =~= enc.subrange(0, 4));
    assert(enc.subrange(0, 4) =~= u32_be(crc32_ieee(p)));
    assert(frame_checksum(data, pos) == crc32_ieee(p));
    lemma_wal_payload_roundtrip(e);
}

/// A record's frame takes 21 bytes besides its key and value.
proof fn lemma_encoding_len(e: WalEntry)
    ensures
        wal_encoding(e).len() == 21 + e.key.len() + value_bytes(e.value).len(),
{
    reveal(wal_encoding);
    reveal(wal_payload);
    lemma_u32_be_roundtrip(e.key.len() as u32);
    lemma_u32_be_roundtrip(value_bytes(e.value).len() as u32);
    lemma_u32_be_roundtrip(crc32_ieee(wal_payload(e)));
    lemma_u64_be_roundtrip(e.lsn);
}

/// Where at least the first 21 bytes of a record's frame stand at `pos`, the
/// header there declares the frame's full length.
proof fn lemma_frame_header_of_encoding(data: Seq<u8>, pos: int, e: WalEntry, k: int)
    requires
        wal_encodable(e),
        0 <= pos,
        21 <= k <= wal_encoding(e).len(),
        pos + k <= data.len(),
        data.subrange(pos, pos + k) == wal_encoding(e).subrange(0, k),
    ensures
        frame_len(data, pos) == wal_encoding(e).len(),
{
    lemma_encoding_len(e);
    let p = wal_payload(e);
    let enc = wal_encoding(e);
    reveal(wal_encoding);
    reveal(wal_payload);
    let kl = e.key.len() as u32;
    let vl = value_bytes(e.value).len() as u32;
    lemma_u32_be_roundtrip(kl);
    lemma_u32_be_roundtrip(vl);
    lemma_u32_be_roundtrip(crc32_ieee(p));
    lemma_u64_be_roundtrip(e.lsn);
    assert(enc.len() == 21 + e.key.len() + value_bytes(e.value).len());
    assert forall|j: int| 13 <= j < 21 implies data[pos + j] == enc[j] by {
        assert(data.subrange(pos, pos + k)[j] == enc.subrange(0, k)[j]);
    }
    assert(data.subrange(pos + 13, pos + 17) =~= enc.subrange(13, 17));
    assert(enc.subrange(13, 17) =~= u32_be(kl));
    assert(data.subrange(pos + 17, pos + 21) =~= enc.subrange(17, 21));
    assert(enc.subrange(17, 21) =~= u32_be(vl));
}

proof fn lemma_wal_log_replays_after(prefix: Seq<u8>, es: Seq<WalEntry>)
    requires
        forall|i: int| 0 <= i < es.len() ==> wal_encodable(#[trigger] es[i]),
    ensures
        replay_from(prefix + wal_log(es), prefix.len() as int) == Some(es),
    decreases es.len(),
{
    let data = prefix + wal_log(es);
    if es.len() == 0 {
        assert(data =~= prefix);
        reveal(read_frame);
    } else {
        let e = es[0];
        let enc = wal_encoding(e);
        let rest = es.drop_first();
        assert(wal_log(es) == enc + wal_log(rest));
        assert(data.subrange(prefix.len() as int, prefix.len() + enc.len() as int) =~= enc);
        assert(wal_encodable(es[0]));
        lemma_read_frame_of_encoding(data, prefix.len() as int, e);
        assert forall|i: int| 0 <= i < rest.len() implies wal_encodable(#[trigger] rest[i]) by {
            assert(rest[i] == es[i + 1]);
        }
        lemma_wal_log_replays_after(prefix + enc, rest);
        assert(prefix + enc + wal_log(rest) =~= data);
        assert(seq![e] + rest =~= es);
    }
}

/// Replaying a log of records gives back those records, in the order they
/// were written.
pub proof fn lemma_wal_log_replays(es: Seq<WalEntry>)
    requires
        forall|i: int| 0 <= i < es.len() ==> wal_encodable(#[trigger] es[i]),
    ensures
        replay_log(wal_log(es)) == Some(es),
{
    lemma_wal_log_replays_after(Seq::empty(), es);
    assert(Seq::<u8>::empty() + wal_log(es) =~= wal_log(es));
}

/// A frame whose checksum bytes were altered is reported as a checksum
/// mismatch.
pub proof fn lemma_damaged_checksum_detected(e: WalEntry, damaged: Seq<u8>)
    requires
        wal_encodable(e),
        damaged.len() == wal_encoding(e).len(),
        damaged.subrange(4, damaged.len() as int) == wal_encoding(e).subrange(
            4,
            damaged.len() as int,
        ),
        damaged != wal_encoding(e),
    ensures
        read_frame(damaged, 0) == FrameRead::Mismatch,
{
    let enc = wal_encoding(e);
    let p = wal_payload(e);
    lemma_encoding_len(e);
    assert forall|i: int| 4 <= i < damaged.len() implies damaged[i] == enc[i] by {
        assert(damaged.subrange(4, damaged.len() as int)[i - 4] == enc.subrange(
            4,
            damaged.len() as int,
        )[i - 4]);
    }
    assert(damaged.subrange(0, damaged.len() as int) =~= damaged);
    assert(enc.subrange(0, enc.len() as int) =~= enc);
    assert(damaged.subrange(13, 21) =~= enc.subrange(13, 21));
    lemma_frame_header_of_encoding(enc, 0, e, enc.len() as int);
    assert(damaged.subrange(13, 17) =~= enc.subrange(13, 17));
    assert(damaged.subrange(17, 21) =~= enc.subrange(17, 21));
    assert(frame_len(damaged, 0) == frame_len(enc, 0));
    reveal(wal_encoding);
    reveal(read_frame);
    assert(frame_payload(damaged, 0) =~= enc.subrange(4, enc.len() as int));
    assert(enc.subrange(4, enc.len() as int) =~= p);
    let stored = damaged.subrange(0, 4);
    lemma_u32_be_bytes_roundtrip(stored);
    if frame_checksum(damaged, 0) == crc32_ieee(p) {
        assert(stored =~= enc.subrange(0, 4));
        assert(damaged =~= stored + damaged.subrange(4, damaged.len() as int));
        assert(enc =~= enc.subrange(0, 4) + enc.subrange(4, enc.len() as int));
        assert(false);
    }
}

/// A frame with one byte of its record changed (its operation, LSN, key or
/// value; not the lengths, which decide where the frame ends) is reported
/// as a checksum mismatch.
pub proof fn lemma_damaged_payload_detected(e: WalEntry, damaged: Seq<u8>, q: int)
    requires
        wal_encodable(e),
        damaged.len() == wal_encoding(e).len(),
        (4 <= q < 13) || (21 <= q < damaged.len()),
        damaged[q] != wal_encoding(e)[q],
        forall|i: int| 0 <= i < damaged.len() && i != q ==> damaged[i] == wal_encoding(e)[i],
    ensures
        read_frame(damaged, 0) == FrameRead::Mismatch,
{
    let enc = wal_encoding(e);
    let p = wal_payload(e);
    lemma_encoding_len(e);
    assert(damaged.subrange(13, 17) =~= enc.subrange(13, 17));
    assert(damaged.subrange(17, 21) =~= enc.subrange(17, 21));
    lemma_frame_header_of_encoding(enc, 0, e, enc.len() as int);
    assert(enc.subrange(0, enc.len() as int) =~= enc);
    assert(frame_len(damaged, 0) == frame_len(enc, 0));
    reveal(wal_encoding);
    reveal(read_frame);
    let dp = frame_payload(damaged, 0);
    assert(enc.subrange(4, enc.len() as int) =~= p);
    assert(dp.len() == p.len());
    assert forall|i: int| 0 <= i < dp.len() && i != q - 4 implies dp[i] == p[i] by {
        assert(dp[i] == damaged[i + 4]);
        assert(p[i] == enc[i + 4]);
    }
    assert(dp[q - 4] == damaged[q] && p[q - 4] == enc[q]);
    lemma_crc_detects_one_byte(dp, p, q - 4);
    lemma_u32_be_bytes_roundtrip(damaged.subrange(0, 4));
    lemma_u32_be_roundtrip(crc32_ieee(p));
    assert(damaged.subrange(0, 4) =~= enc.subrange(0, 4));
    assert(enc.subrange(0, 4) =~= u32_be(crc32_ieee(p)));
}

/// Replaying a log runs through the frames of `es` and goes on with what
/// follows them.
proof fn lemma_replay_through(prefix: Seq<u8>, es: Seq<WalEntry>, tail: Seq<u8>)
    requires
        forall|i: int| 0 <= i < es.len() ==> wal_encodable(#[trigger] es[i]),
    ensures
        replay_from(prefix + wal_log(es) + tail, prefix.len() as int) == match replay_from(
            prefix + wal_log(es) + tail,
            (prefix.len() + wal_log(es).len()) as int,
        ) {
            Some(r) => Some(es + r),
            None => None::<Seq<WalEntry>>,
        },
    decreases es.len(),
{
    let data = prefix + wal_log(es) + tail;
    if es.len() == 0 {
        assert(wal_log(es) =~= Seq::<u8>::empty());
        match replay_from(data, prefix.len() as int) {
            Some(r) => {
                assert(es + r =~= r);
            },
            None => {},
        }
    } else {
        let e = es[0];
        let enc = wal_encoding(e);
        let rest = es.drop_first();
        assert(wal_log(es) == enc + wal_log(rest));
        assert(data.subrange(prefix.len() as int, prefix.len() + enc.len() as int) =~= enc);
        assert(wal_encodable(es[0]));
        lemma_read_frame_of_encoding(data, prefix.len() as int, e);
        assert forall|i: int| 0 <= i < rest.len() implies wal_encodable(#[trigger] rest[i]) by {
            assert(rest[i] == es[i + 1]);
        }
        assert(data =~= (prefix + enc) + wal_log(rest) + tail);
        lemma_replay_through(prefix + enc, rest, tail);
        reveal(wal_encoding);
        match replay_from(data, (prefix.len() + wal_log(es).len()) as int) {
            Some(r) => {
                assert(seq![e] + (rest + r) =~= es + r);
            },
            None => {},
        }
    }
}

/// A record whose frame was cut short (a partial write at the end of the
/// log) makes the replay fail instead of being read or taken for the end.
pub proof fn lemma_torn_frame_detected(es: Seq<WalEntry>, e: WalEntry, k: int)
    requires
        forall|i: int| 0 <= i < es.len() ==> wal_encodable(#[trigger] es[i]),
        wal_encodable(e),
        1 <= k < wal_encoding(e).len(),
    ensures
        replay_log(wal_log(es) + wal_encoding(e).take(k)) is None,
{
    let tail = wal_encoding(e).take(k);
    let data = wal_log(es) + tail;
    assert(Seq::<u8>::empty() + wal_log(es) + tail =~= data);
    lemma_replay_through(Seq::empty(), es, tail);
    let pos = wal_log(es).len() as int;
    lemma_encoding_len(e);
    if k >= 21 {
        assert(data.subrange(pos, pos + k) =~= wal_encoding(e).subrange(0, k));
        lemma_frame_header_of_encoding(data, pos, e, k);
    }
    reveal(read_frame);
    assert(read_frame(data, pos) == FrameRead::Truncated);
}

} // verus!
