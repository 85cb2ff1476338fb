//! What a scan of a written table yields: its records, in order, and
//! nothing else.
use crate::common::error::DzongError;
use crate::sstable::block::records_bytes;
use crate::sstable::laws::{
    concat_blocks, lemma_block_entries_at, lemma_block_entries_len, lemma_blocks_bytes_records,
    lemma_concat_blocks_concat, lemma_concat_blocks_split, lemma_open_layout,
    lemma_records_bytes_concat, lemma_sst_record_roundtrip, lemma_table_blocks_props, sst_encodable,
};
use crate::sstable::layout::{block_entries, blocks_bytes, table_blocks, table_layout};
use crate::sstable::index::IndexEntryView;
use crate::sstable::reader::{
    block_bytes, block_in_bounds, open_table, scan_yields, seek_block, Seek, TableOpen,
};
use crate::sstable::record::{
    decode_sst_record, lemma_sst_record_bytes_len, sst_record_bytes, RecordDecode, RecordView,
};
use crate::sstable::writer::{lemma_records_bytes_push, table_fits};
use vstd::prelude::*;

verus! {

/// The items a scan yields for records read without error.
pub open spec fn ok_items(rs: Seq<RecordView>) -> Seq<core::result::Result<RecordView, DzongError>> {
    Seq::new(rs.len(), |i: int| Ok::<RecordView, DzongError>(rs[i]))
}

/// Scanning the bytes of a block's records yields those records, then
/// whatever the scan yields past the block.
proof fn lemma_scan_block(
    d: Seq<u8>,
    es: Seq<IndexEntryView>,
    i: int,
    b: Seq<RecordView>,
    x: Seq<core::result::Result<RecordView, DzongError>>,
)
    requires
        forall|j: int| 0 <= j < b.len() ==> sst_encodable(#[trigger] b[j]),
    ensures
        scan_yields(d, es, i, records_bytes(b), x) == (x.len() >= b.len() && x.take(b.len() as int)
            == ok_items(b) && scan_yields(d, es, i, Seq::empty(), x.skip(b.len() as int))),
    decreases b.len(),
{
    if b.len() == 0 {
        assert(records_bytes(b) =~= Seq::<u8>::empty());
        assert(x.take(0) =~= ok_items(b));
        assert(x.skip(0) =~= x);
    } else {
        let r = b[0];
        let t = b.drop_first();
        assert(seq![r] + t =~= b);
        lemma_records_bytes_concat(seq![r], t);
        lemma_records_bytes_push(Seq::empty(), r);
        assert(Seq::<RecordView>::empty().push(r) =~= seq![r]);
        assert(records_bytes(Seq::<RecordView>::empty()) =~= Seq::<u8>::empty());
        assert(records_bytes(seq![r]) =~= sst_record_bytes(r));
        let bytes = records_bytes(b);
        let n = sst_record_bytes(r).len() as int;
        assert(bytes == sst_record_bytes(r) + records_bytes(t));
        lemma_sst_record_roundtrip(r, records_bytes(t));
        lemma_sst_record_bytes_len(r);
        assert(decode_sst_record(bytes) == RecordDecode::Record(r, n));
        assert(bytes.subrange(n, bytes.len() as int) =~= records_bytes(t));
        assert forall|j: int| 0 <= j < t.len() implies sst_encodable(#[trigger] t[j]) by {
            assert(t[j] == b[j + 1]);
        }
        if x.len() > 0 {
            lemma_scan_block(d, es, i, t, x.drop_first());
            let y = x.drop_first();
            if x.len() >= b.len() {
                assert(y.skip(t.len() as int) =~= x.skip(b.len() as int));
                if x.take(b.len() as int) == ok_items(b) {
                    assert(x[0] == x.take(b.len() as int)[0]);
                    assert forall|j: int| 0 <= j < t.len() implies y.take(t.len() as int)[j]
                        == ok_items(t)[j] by {
                        assert(y.take(t.len() as int)[j] == x.take(b.len() as int)[j + 1]);
                    }
                    assert(y.take(t.len() as int) =~= ok_items(t));
                }
                if x[0] == Ok::<RecordView, DzongError>(r) && y.take(t.len() as int) == ok_items(t) {
                    assert forall|j: int| 0 <= j < b.len() implies x.take(b.len() as int)[j]
                        == ok_items(b)[j] by {
                        if j > 0 {
                            assert(x.take(b.len() as int)[j] == y.take(t.len() as int)[j - 1]);
                        }
                    }
                    assert(x.take(b.len() as int) =~= ok_items(b));
                }
            }
        }
    }
}

/// The blocks a scan finds: block `k` is the next one with bytes, and its
/// bytes are its records'.
proof fn lemma_block_found(bs: Seq<Seq<RecordView>>, k: int)
    requires
        0 <= k < bs.len(),
        forall|j: int| 0 <= j < bs.len() ==> (#[trigger] bs[j]).len() > 0,
        forall|j: int| 0 <= j < bs.len() ==> records_bytes(#[trigger] bs[j]).len() < u32::MAX,
        forall|j: int, q: int| 0 <= j < bs.len() && 0 <= q < bs[j].len() ==> sst_encodable(#[trigger] bs[j][q]),
        blocks_bytes(bs).len() <= u64::MAX,
    ensures
        seek_block(table_layout(bs), block_entries(bs), k) == Seek::Block(k),
        block_bytes(table_layout(bs), block_entries(bs)[k]) == records_bytes(bs[k]),
{
    let d = table_layout(bs);
    let es = block_entries(bs);
    let b = bs[k];
    lemma_block_entries_len(bs);
    lemma_block_entries_at(bs, k);
    lemma_concat_blocks_split(bs, k);
    let off = blocks_bytes(bs.take(k)).len();
    let size = records_bytes(b).len();
    assert(es[k].offset == off);
    assert(es[k].block_size == size);
    assert(d =~= blocks_bytes(bs) + crate::sstable::layout::table_trailer(bs));
    assert(block_in_bounds(d, es[k]));
    assert(block_bytes(d, es[k]) =~= records_bytes(b));
    assert(sst_encodable(bs[k][0]));
    lemma_sst_record_bytes_len(b[0]);
    lemma_records_bytes_concat(seq![b[0]], b.drop_first());
    assert(seq![b[0]] + b.drop_first() =~= b);
    lemma_records_bytes_push(Seq::empty(), b[0]);
    assert(Seq::<RecordView>::empty().push(b[0]) =~= seq![b[0]]);
    assert(records_bytes(Seq::<RecordView>::empty()) =~= Seq::<u8>::empty());
    assert(size > 0);
}

/// Items that are the records of a block followed by those of the rest.
proof fn lemma_split_items(
    b: Seq<RecordView>,
    rest: Seq<RecordView>,
    x: Seq<core::result::Result<RecordView, DzongError>>,
)
    ensures
        (x == ok_items(b + rest)) == (x.len() >= b.len() && x.take(b.len() as int) == ok_items(b)
            && x.skip(b.len() as int) == ok_items(rest)),
{
    let n = b.len() as int;
    let all = b + rest;
    if x == ok_items(all) {
        assert(x.take(n) =~= ok_items(b));
        assert(x.skip(n) =~= ok_items(rest));
    }
    if x.len() >= n && x.take(n) == ok_items(b) && x.skip(n) == ok_items(rest) {
        assert(x.skip(n).len() == x.len() - n);
        assert(x.len() == all.len());
        assert forall|j: int| 0 <= j < x.len() implies x[j] == ok_items(all)[j] by {
            if j < n {
                assert(x[j] == x.take(n)[j]);
                assert(x.take(n)[j] == ok_items(b)[j]);
                assert(all[j] == b[j]);
            } else {
                assert(x[j] == x.skip(n)[j - n]);
                assert(x.skip(n)[j - n] == ok_items(rest)[j - n]);
                assert(all[j] == rest[j - n]);
            }
        }
        assert(x =~= ok_items(all));
    }
}

/// Scanning a table from block `k` on yields the records of the blocks
/// from `k` on, and nothing else.
proof fn lemma_scan_blocks(
    bs: Seq<Seq<RecordView>>,
    k: int,
    x: Seq<core::result::Result<RecordView, DzongError>>,
)
    requires
        0 <= k <= bs.len(),
        forall|j: int| 0 <= j < bs.len() ==> (#[trigger] bs[j]).len() > 0,
        forall|j: int| 0 <= j < bs.len() ==> records_bytes(#[trigger] bs[j]).len() < u32::MAX,
        forall|j: int, q: int| 0 <= j < bs.len() && 0 <= q < bs[j].len() ==> sst_encodable(#[trigger] bs[j][q]),
        blocks_bytes(bs).len() <= u64::MAX,
    ensures
        scan_yields(table_layout(bs), block_entries(bs), k, Seq::empty(), x) == (x == ok_items(
            concat_blocks(bs.skip(k)),
        )),
    decreases bs.len() - k,
{
    let d = table_layout(bs);
    let es = block_entries(bs);
    lemma_block_entries_len(bs);
    if k == bs.len() {
        assert(bs.skip(k) =~= Seq::<Seq<RecordView>>::empty());
        assert(seek_block(d, es, k) == Seek::End);
        if x.len() == 0 {
            assert(x =~= ok_items(concat_blocks(bs.skip(k))));
        }
    } else {
        let b = bs[k];
        lemma_block_found(bs, k);
        assert(scan_yields(d, es, k, Seq::empty(), x) == scan_yields(d, es, k + 1, records_bytes(b), x));
        assert forall|q: int| 0 <= q < b.len() implies sst_encodable(#[trigger] b[q]) by {
            assert(sst_encodable(bs[k][q]));
        }
        lemma_scan_block(d, es, k + 1, b, x);
        let n = b.len() as int;
        lemma_scan_blocks(bs, k + 1, x.skip(n));
        let rest = concat_blocks(bs.skip(k + 1));
        assert(seq![b] + bs.skip(k + 1) =~= bs.skip(k));
        lemma_concat_blocks_concat(seq![b], bs.skip(k + 1));
        assert(concat_blocks(seq![b]) =~= b) by {
            assert(seq![b].drop_last() =~= Seq::<Seq<RecordView>>::empty());
            assert(concat_blocks(Seq::<Seq<RecordView>>::empty()) =~= Seq::<RecordView>::empty());
            assert(Seq::<RecordView>::empty() + b =~= b);
        }
        lemma_split_items(b, rest, x);
    }
}

/// Scanning a table written from records yields exactly those records, in
/// the order they were written, with no error.
pub proof fn lemma_table_scan(rs: Seq<RecordView>, x: Seq<core::result::Result<RecordView, DzongError>>)
    requires
        table_fits(rs),
        forall|i: int| 0 <= i < rs.len() ==> sst_encodable(#[trigger] rs[i]),
    ensures
        open_table(table_layout(table_blocks(rs))) == TableOpen::Opened(block_entries(table_blocks(rs))),
        scan_yields(
            table_layout(table_blocks(rs)),
            block_entries(table_blocks(rs)),
            0,
            Seq::empty(),
            x,
        ) <==> x == ok_items(rs),
{
    let bs = table_blocks(rs);
    lemma_table_blocks_props(rs);
    lemma_blocks_bytes_records(bs);
    assert forall|j: int, q: int| 0 <= j < bs.len() && 0 <= q < bs[j].len() implies sst_encodable(
        #[trigger] bs[j][q],
    ) by {
        crate::sstable::laws::lemma_block_position(bs, j);
        assert(rs[concat_blocks(bs.take(j)).len() + q] == bs[j][q]);
    }
    assert forall|j: int| 0 <= j < bs.len() implies (#[trigger] bs[j]).len() > 0 && bs[j][0].key.len()
        <= u32::MAX by {
        assert(sst_encodable(bs[j][0]));
    }
    crate::sstable::laws::lemma_open_written(rs);
    crate::sstable::writer::lemma_index_bytes_le_blocks(bs);
    assert(bs.skip(0) =~= bs);
    lemma_scan_blocks(bs, 0, x);
}

} // verus!
