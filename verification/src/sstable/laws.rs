//! What the sorted-table format guarantees: a record, an index entry and a
//! whole table read back as they were written, and a lookup in a table
//! written from a memtable finds what the memtable held.
use crate::common::endian::{lemma_u32_le_roundtrip, lemma_u64_le_roundtrip, u32_le, u64_le};
use crate::sstable::block::{best_match, decode_records_from, records_bytes};
use crate::common::order::{lex_le, lex_lt};
use crate::sstable::index::index_sorted;
use crate::sstable::index::{decode_index_entry, index_entry_bytes, IndexEntryView};
use crate::sstable::layout::{
    block_entries, block_entry, blocks_bytes, index_bytes, partition, table_blocks, table_layout,
    BLOCK_SIZE_THRESHOLD,
};
use crate::sstable::reader::{
    decode_index_from, footer_index_size, footer_offset, is_last_le, open_table, TableOpen,
};
use crate::sstable::footer::{footer_bytes, FOOTER_MAGIC};
use crate::sstable::record::{
    decode_sst_record, sst_op_byte, sst_record_bytes, RecordDecode, RecordView, SstableOp,
};
use crate::sstable::writer::{lemma_records_bytes_push, sst_record_small};
use crate::wal::record::value_bytes;
use crate::common::key_value::{opt_value_view, Key, Value};
use crate::common::error::Result;
use crate::db::memtable::{entries_map, has_key, lemma_entries_map_at, sorted_entries};
use crate::sstable::reader::{block_bytes, block_lookup, index_lookup, no_block_before};
use crate::sstable::record::{lemma_sst_record_bytes_len, SstableRecord};
use crate::sstable::table::{record_value, table_get_outcome, value_from_lookup};
use crate::sstable::writer::{lemma_records_bytes_ge, memtable_records, table_fits};
use vstd::prelude::*;

verus! {

/// A record that a table carries faithfully: its lengths fit the `u32`
/// fields, a put has a value and a delete has none.
pub open spec fn sst_encodable(r: RecordView) -> bool {
    &&& 17 + r.key.len() + value_bytes(r.value).len() <= u32::MAX
    &&& (r.op == SstableOp::Put <==> r.value is Some)
}

/// Records written after records: the bytes concatenate.
pub proof fn lemma_records_bytes_concat(a: Seq<RecordView>, b: Seq<RecordView>)
    ensures
        records_bytes(a + b) == records_bytes(a) + records_bytes(b),
    decreases b.len(),
{
    if b.len() == 0 {
        assert(a + b =~= a);
        assert(records_bytes(a) + Seq::<u8>::empty() =~= records_bytes(a));
    } else {
        lemma_records_bytes_concat(a, b.drop_last());
        assert((a + b).drop_last() =~= a + b.drop_last());
        assert((a + b).last() == b.last());
        assert(records_bytes(a) + records_bytes(b) =~= records_bytes(a) + records_bytes(b.drop_last()) + sst_record_bytes(b.last()));
    }
}

/// Blocks written after blocks: the bytes concatenate.
pub proof fn lemma_blocks_bytes_concat(a: Seq<Seq<RecordView>>, b: Seq<Seq<RecordView>>)
    ensures
        blocks_bytes(a + b) == blocks_bytes(a) + blocks_bytes(b),
    decreases b.len(),
{
    if b.len() == 0 {
        assert(a + b =~= a);
        assert(blocks_bytes(a) + Seq::<u8>::empty() =~= blocks_bytes(a));
    } else {
        lemma_blocks_bytes_concat(a, b.drop_last());
        assert((a + b).drop_last() =~= a + b.drop_last());
        assert((a + b).last() == b.last());
        assert(blocks_bytes(a) + blocks_bytes(b) =~= blocks_bytes(a) + blocks_bytes(b.drop_last()) + records_bytes(b.last()));
    }
}

/// Index entries written after index entries: the bytes concatenate.
pub proof fn lemma_index_bytes_concat(a: Seq<IndexEntryView>, b: Seq<IndexEntryView>)
    ensures
        index_bytes(a + b) == index_bytes(a) + index_bytes(b),
    decreases b.len(),
{
    if b.len() == 0 {
        assert(a + b =~= a);
        assert(index_bytes(a) + Seq::<u8>::empty() =~= index_bytes(a));
    } else {
        lemma_index_bytes_concat(a, b.drop_last());
        assert((a + b).drop_last() =~= a + b.drop_last());
        assert((a + b).last() == b.last());
        assert(index_bytes(a) + index_bytes(b) =~= index_bytes(a) + index_bytes(b.drop_last()) + index_entry_bytes(b.last()));
    }
}

/// A record reads back from the front of its bytes, whatever follows.
pub proof fn lemma_sst_record_roundtrip(r: RecordView, rest: Seq<u8>)
    requires
        sst_encodable(r),
    ensures
        decode_sst_record(sst_record_bytes(r) + rest) == RecordDecode::Record(
            r,
            sst_record_bytes(r).len() as int,
        ),
{
    reveal(sst_record_bytes);
    reveal(decode_sst_record);
    let b = sst_record_bytes(r);
    let s = b + rest;
    let k = r.key.len() as int;
    let v = value_bytes(r.value);
    let vl = v.len() as int;
    lemma_u64_le_roundtrip(r.lsn);
    lemma_u32_le_roundtrip(k as u32);
    lemma_u32_le_roundtrip(vl as u32);
    assert(s[0] == sst_op_byte(r.op));
    assert(s.subrange(1, 9) =~= u64_le(r.lsn));
    assert(s.subrange(9, 13) =~= u32_le(k as u32));
    assert(s.subrange(13, 13 + k) =~= r.key);
    assert(s.subrange(13 + k, 17 + k) =~= u32_le(vl as u32));
    assert(s.subrange(17 + k, 17 + k + vl) =~= v);
    match decode_sst_record(s) {
        RecordDecode::Record(d, n) => {
            assert(d.op == r.op);
            assert(d.value == r.value);
        },
        _ => {},
    }
}

/// Records written one after another decode back, whatever precedes them.
pub proof fn lemma_decode_records_after(prefix: Seq<u8>, rs: Seq<RecordView>)
    requires
        forall|i: int| 0 <= i < rs.len() ==> sst_encodable(#[trigger] rs[i]),
    ensures
        decode_records_from(prefix + records_bytes(rs), prefix.len() as int) == Some(rs),
    decreases rs.len(),
{
    let s = prefix + records_bytes(rs);
    if rs.len() == 0 {
        assert(s =~= prefix);
    } else {
        let r = rs[0];
        let tail = rs.drop_first();
        assert(rs =~= seq![r] + tail);
        lemma_records_bytes_concat(seq![r], tail);
        assert(seq![r].drop_last() =~= Seq::<RecordView>::empty());
        assert(records_bytes(Seq::<RecordView>::empty()) =~= Seq::<u8>::empty());
        assert(records_bytes(seq![r]) =~= sst_record_bytes(r));
        let b = sst_record_bytes(r);
        crate::sstable::record::lemma_sst_record_bytes_len(r);
        assert(s.subrange(prefix.len() as int, s.len() as int) =~= b + records_bytes(tail));
        assert(sst_encodable(rs[0]));
        lemma_sst_record_roundtrip(r, records_bytes(tail));
        assert forall|i: int| 0 <= i < tail.len() implies sst_encodable(#[trigger] tail[i]) by {
            assert(tail[i] == rs[i + 1]);
        }
        lemma_decode_records_after(prefix + b, tail);
        assert(prefix + b + records_bytes(tail) =~= s);
    }
}

/// A block's records decode back from the block's bytes.
pub proof fn lemma_decode_block(rs: Seq<RecordView>)
    requires
        forall|i: int| 0 <= i < rs.len() ==> sst_encodable(#[trigger] rs[i]),
    ensures
        decode_records_from(records_bytes(rs), 0) == Some(rs),
{
    lemma_decode_records_after(Seq::empty(), rs);
    assert(Seq::<u8>::empty() + records_bytes(rs) =~= records_bytes(rs));
}

/// An index entry reads back from the front of its bytes, whatever follows.
pub proof fn lemma_index_entry_roundtrip(e: IndexEntryView, rest: Seq<u8>)
    requires
        e.first_key.len() <= u32::MAX,
    ensures
        decode_index_entry(index_entry_bytes(e) + rest) == Some(
            (e, index_entry_bytes(e).len() as int),
        ),
{
    reveal(index_entry_bytes);
    reveal(decode_index_entry);
    let s = index_entry_bytes(e) + rest;
    let k = e.first_key.len() as int;
    lemma_u32_le_roundtrip(k as u32);
    lemma_u64_le_roundtrip(e.offset);
    lemma_u32_le_roundtrip(e.block_size);
    assert(s.subrange(0, 4) =~= u32_le(k as u32));
    assert(s.subrange(4, 4 + k) =~= e.first_key);
    assert(s.subrange(4 + k, 12 + k) =~= u64_le(e.offset));
    assert(s.subrange(12 + k, 16 + k) =~= u32_le(e.block_size));
}

/// Index entries written one after another decode back, whatever precedes
/// them.
pub proof fn lemma_decode_index_after(prefix: Seq<u8>, es: Seq<IndexEntryView>)
    requires
        forall|i: int| 0 <= i < es.len() ==> (#[trigger] es[i]).first_key.len() <= u32::MAX,
    ensures
        decode_index_from(prefix + index_bytes(es), prefix.len() as int) == Some(es),
    decreases es.len(),
{
    let s = prefix + index_bytes(es);
    if es.len() == 0 {
        assert(s =~= prefix);
    } else {
        let e = es[0];
        let tail = es.drop_first();
        assert(es =~= seq![e] + tail);
        lemma_index_bytes_concat(seq![e], tail);
        assert(seq![e].drop_last() =~= Seq::<IndexEntryView>::empty());
        assert(index_bytes(Seq::<IndexEntryView>::empty()) =~= Seq::<u8>::empty());
        assert(index_bytes(seq![e]) =~= index_entry_bytes(e));
        let b = index_entry_bytes(e);
        crate::sstable::index::lemma_index_entry_bytes_len(e);
        assert(s.subrange(prefix.len() as int, s.len() as int) =~= b + index_bytes(tail));
        assert(es[0].first_key.len() <= u32::MAX);
        lemma_index_entry_roundtrip(e, index_bytes(tail));
        assert forall|i: int| 0 <= i < tail.len() implies (#[trigger] tail[i]).first_key.len() <= u32::MAX by {
            assert(tail[i] == es[i + 1]);
        }
        lemma_decode_index_after(prefix + b, tail);
        assert(prefix + b + index_bytes(tail) =~= s);
    }
}

} // verus!

verus! {

/// The records of blocks, one block after another.
pub open spec fn concat_blocks(bs: Seq<Seq<RecordView>>) -> Seq<RecordView>
    decreases bs.len(),
{
    if bs.len() == 0 {
        Seq::empty()
    } else {
        concat_blocks(bs.drop_last()) + bs.last()
    }
}

pub proof fn lemma_concat_blocks_concat(a: Seq<Seq<RecordView>>, b: Seq<Seq<RecordView>>)
    ensures
        concat_blocks(a + b) == concat_blocks(a) + concat_blocks(b),
    decreases b.len(),
{
    if b.len() == 0 {
        assert(a + b =~= a);
        assert(concat_blocks(a) + Seq::<RecordView>::empty() =~= concat_blocks(a));
    } else {
        lemma_concat_blocks_concat(a, b.drop_last());
        assert((a + b).drop_last() =~= a + b.drop_last());
        assert((a + b).last() == b.last());
        assert(concat_blocks(a) + concat_blocks(b) =~= concat_blocks(a) + concat_blocks(b.drop_last()) + b.last());
    }
}

/// Blocks split around block `j`: those before it, it, those after it.
pub proof fn lemma_concat_blocks_split(bs: Seq<Seq<RecordView>>, j: int)
    requires
        0 <= j < bs.len(),
    ensures
        concat_blocks(bs) == concat_blocks(bs.take(j)) + bs[j] + concat_blocks(bs.skip(j + 1)),
        blocks_bytes(bs) == blocks_bytes(bs.take(j)) + records_bytes(bs[j]) + blocks_bytes(bs.skip(j + 1)),
{
    let single = seq![bs[j]];
    assert(bs =~= bs.take(j) + (single + bs.skip(j + 1)));
    lemma_concat_blocks_concat(bs.take(j), single + bs.skip(j + 1));
    lemma_concat_blocks_concat(single, bs.skip(j + 1));
    lemma_blocks_bytes_concat(bs.take(j), single + bs.skip(j + 1));
    lemma_blocks_bytes_concat(single, bs.skip(j + 1));
    assert(single.drop_last() =~= Seq::<Seq<RecordView>>::empty());
    assert(concat_blocks(Seq::<Seq<RecordView>>::empty()) =~= Seq::<RecordView>::empty());
    assert(blocks_bytes(Seq::<Seq<RecordView>>::empty()) =~= Seq::<u8>::empty());
    assert(concat_blocks(single) =~= bs[j]);
    assert(blocks_bytes(single) =~= records_bytes(bs[j]));
    assert(concat_blocks(bs.take(j)) + (bs[j] + concat_blocks(bs.skip(j + 1))) =~= concat_blocks(bs.take(j)) + bs[j] + concat_blocks(bs.skip(j + 1)));
    assert(blocks_bytes(bs.take(j)) + (records_bytes(bs[j]) + blocks_bytes(bs.skip(j + 1))) =~= blocks_bytes(bs.take(j)) + records_bytes(bs[j]) + blocks_bytes(bs.skip(j + 1)));
}

/// The index entry of block `j` of a table.
pub proof fn lemma_block_entries_at(bs: Seq<Seq<RecordView>>, j: int)
    requires
        0 <= j < bs.len(),
    ensures
        block_entries(bs).len() == bs.len(),
        block_entries(bs)[j] == block_entry(bs[j], blocks_bytes(bs.take(j)).len() as int),
    decreases bs.len(),
{
    lemma_block_entries_len(bs);
    if j < bs.len() - 1 {
        lemma_block_entries_at(bs.drop_last(), j);
        assert(bs.drop_last().take(j) =~= bs.take(j));
    } else {
        assert(bs.drop_last() =~= bs.take(j));
    }
}

pub proof fn lemma_block_entries_len(bs: Seq<Seq<RecordView>>)
    ensures
        block_entries(bs).len() == bs.len(),
    decreases bs.len(),
{
    if bs.len() > 0 {
        lemma_block_entries_len(bs.drop_last());
    }
}

} // verus!

verus! {

proof fn lemma_partition_props(rs: Seq<RecordView>)
    requires
        forall|i: int| 0 <= i < rs.len() ==> sst_record_small(#[trigger] rs[i]),
    ensures
        concat_blocks(partition(rs).0) + partition(rs).1 == rs,
        forall|j: int| 0 <= j < partition(rs).0.len() ==> (#[trigger] partition(rs).0[j]).len() > 0,
        forall|j: int|
            0 <= j < partition(rs).0.len() ==> records_bytes(#[trigger] partition(rs).0[j]).len()
                < u32::MAX,
        records_bytes(partition(rs).1).len() < u32::MAX,
    decreases rs.len(),
{
    if rs.len() == 0 {
        assert(concat_blocks(Seq::<Seq<RecordView>>::empty()) + Seq::<RecordView>::empty() =~= rs);
        assert(records_bytes(Seq::<RecordView>::empty()) =~= Seq::<u8>::empty());
    } else {
        let init = rs.drop_last();
        let r = rs.last();
        assert forall|i: int| 0 <= i < init.len() implies sst_record_small(#[trigger] init[i]) by {
            assert(init[i] == rs[i]);
        }
        lemma_partition_props(init);
        let (bs, cur) = partition(init);
        assert(sst_record_small(rs[rs.len() - 1]));
        lemma_records_bytes_push(cur, r);
        if records_bytes(cur).len() > BLOCK_SIZE_THRESHOLD {
            if cur.len() == 0 {
                assert(records_bytes(cur) =~= Seq::<u8>::empty());
            }
            assert(bs.push(cur).drop_last() =~= bs);
            assert(concat_blocks(bs.push(cur)) == concat_blocks(bs) + cur);
            assert(concat_blocks(bs) + cur + seq![r] =~= init.push(r));
            assert(init.push(r) =~= rs);
            lemma_records_bytes_push(Seq::empty(), r);
            assert(Seq::<RecordView>::empty().push(r) =~= seq![r]);
            assert(records_bytes(Seq::<RecordView>::empty()) =~= Seq::<u8>::empty());
            assert forall|j: int| 0 <= j < bs.push(cur).len() implies (#[trigger] bs.push(cur)[j]).len() > 0
                && records_bytes(bs.push(cur)[j]).len() < u32::MAX by {
                if j < bs.len() {
                    assert(bs.push(cur)[j] == bs[j]);
                }
            }
        } else {
            assert(concat_blocks(bs) + cur.push(r) =~= init.push(r));
            assert(init.push(r) =~= rs);
        }
    }
}

/// The blocks of a table written from records hold those records, in
/// order; none is empty and each one's size fits the index's `u32`.
pub proof fn lemma_table_blocks_props(rs: Seq<RecordView>)
    requires
        forall|i: int| 0 <= i < rs.len() ==> sst_record_small(#[trigger] rs[i]),
    ensures
        concat_blocks(table_blocks(rs)) == rs,
        forall|j: int| 0 <= j < table_blocks(rs).len() ==> (#[trigger] table_blocks(rs)[j]).len() > 0,
        forall|j: int|
            0 <= j < table_blocks(rs).len() ==> records_bytes(#[trigger] table_blocks(rs)[j]).len()
                < u32::MAX,
{
    lemma_partition_props(rs);
    let (bs, cur) = partition(rs);
    if cur.len() > 0 {
        assert(bs.push(cur).drop_last() =~= bs);
        assert forall|j: int| 0 <= j < bs.push(cur).len() implies (#[trigger] bs.push(cur)[j]).len() > 0
            && records_bytes(bs.push(cur)[j]).len() < u32::MAX by {
            if j < bs.len() {
                assert(bs.push(cur)[j] == bs[j]);
            }
        }
    } else {
        assert(cur =~= Seq::<RecordView>::empty());
        assert(concat_blocks(bs) + cur =~= concat_blocks(bs));
    }
}

} // verus!

verus! {

/// The bytes of blocks are the bytes of their records.
pub proof fn lemma_blocks_bytes_records(bs: Seq<Seq<RecordView>>)
    ensures
        blocks_bytes(bs) == records_bytes(concat_blocks(bs)),
    decreases bs.len(),
{
    if bs.len() == 0 {
        assert(records_bytes(Seq::<RecordView>::empty()) =~= Seq::<u8>::empty());
    } else {
        lemma_blocks_bytes_records(bs.drop_last());
        lemma_records_bytes_concat(concat_blocks(bs.drop_last()), bs.last());
    }
}

/// A table's bytes open to the index of its blocks.
pub proof fn lemma_open_layout(bs: Seq<Seq<RecordView>>)
    requires
        forall|j: int| 0 <= j < bs.len() ==> (#[trigger] bs[j]).len() > 0 && bs[j][0].key.len() <= u32::MAX,
        blocks_bytes(bs).len() + index_bytes(block_entries(bs)).len() <= u64::MAX,
    ensures
        open_table(table_layout(bs)) == TableOpen::Opened(block_entries(bs)),
{
    let b = blocks_bytes(bs);
    let es = block_entries(bs);
    let i = index_bytes(es);
    let bl = b.len() as u64;
    let il = i.len() as u64;
    let f = footer_bytes(bl, il, 0, FOOTER_MAGIC);
    let data = table_layout(bs);
    lemma_u64_le_roundtrip(bl);
    lemma_u64_le_roundtrip(il);
    lemma_u64_le_roundtrip(0);
    lemma_u64_le_roundtrip(FOOTER_MAGIC);
    assert(data =~= b + i + f);
    let n = data.len() as int;
    assert(data.subrange(n - 32, n - 32 + 8) =~= u64_le(bl));
    assert(data.subrange(n - 32 + 8, n - 32 + 8 + 8) =~= u64_le(il));
    assert(data.subrange(n - 32 + 24, n - 32 + 24 + 8) =~= u64_le(FOOTER_MAGIC));
    assert(footer_offset(data) == b.len());
    assert(footer_index_size(data) == i.len());
    assert(data.subrange(b.len() as int, (b.len() + i.len()) as int) =~= i);
    lemma_block_entries_len(bs);
    assert forall|j: int| 0 <= j < es.len() implies (#[trigger] es[j]).first_key.len() <= u32::MAX by {
        lemma_block_entries_at(bs, j);
    }
    lemma_decode_index_after(Seq::empty(), es);
    assert(Seq::<u8>::empty() + i =~= i);
}

/// Block `j`'s records sit in the concatenation right after the records of
/// the blocks before it.
pub proof fn lemma_block_position(bs: Seq<Seq<RecordView>>, j: int)
    requires
        0 <= j < bs.len(),
    ensures
        concat_blocks(bs.take(j)).len() + bs[j].len() <= concat_blocks(bs).len(),
        forall|x: int|
            0 <= x < bs[j].len() ==> concat_blocks(bs)[concat_blocks(bs.take(j)).len() + x]
                == #[trigger] bs[j][x],
        j + 1 < bs.len() ==> concat_blocks(bs.take(j + 1)).len() == concat_blocks(bs.take(j)).len()
            + bs[j].len(),
        j + 1 == bs.len() ==> concat_blocks(bs.take(j)).len() + bs[j].len() == concat_blocks(bs).len(),
{
    lemma_concat_blocks_split(bs, j);
    if j + 1 < bs.len() {
        lemma_concat_blocks_split(bs.take(j + 1), j);
        assert(bs.take(j + 1).take(j) =~= bs.take(j));
        assert(bs.take(j + 1).skip(j + 1) =~= Seq::<Seq<RecordView>>::empty());
        assert(concat_blocks(Seq::<Seq<RecordView>>::empty()) =~= Seq::<RecordView>::empty());
    } else {
        assert(bs.skip(j + 1) =~= Seq::<Seq<RecordView>>::empty());
        assert(concat_blocks(Seq::<Seq<RecordView>>::empty()) =~= Seq::<RecordView>::empty());
    }
}

/// The starts of blocks increase along the blocks.
pub proof fn lemma_block_starts_increase(bs: Seq<Seq<RecordView>>, j1: int, j2: int)
    requires
        0 <= j1 < j2 <= bs.len(),
        forall|j: int| 0 <= j < bs.len() ==> (#[trigger] bs[j]).len() > 0,
    ensures
        concat_blocks(bs.take(j1)).len() < concat_blocks(bs.take(j2)).len(),
        concat_blocks(bs.take(j1)).len() + bs[j1].len() <= concat_blocks(bs.take(j2)).len(),
{
    let t = bs.take(j2);
    lemma_concat_blocks_split(t, j1);
    assert(t.take(j1) =~= bs.take(j1));
    assert(t[j1] == bs[j1]);
    assert(bs[j1].len() > 0);
}

/// The keys of records strictly increase.
pub open spec fn keys_increasing(rs: Seq<RecordView>) -> bool {
    forall|i: int, j: int| 0 <= i < j < rs.len() ==> lex_lt(#[trigger] rs[i].key, #[trigger] rs[j].key)
}

/// When the records' keys increase, so do the first keys of the table's
/// blocks.
pub proof fn lemma_index_sorted(rs: Seq<RecordView>)
    requires
        keys_increasing(rs),
        forall|i: int| 0 <= i < rs.len() ==> sst_record_small(#[trigger] rs[i]),
    ensures
        index_sorted(block_entries(table_blocks(rs))),
{
    let bs = table_blocks(rs);
    let es = block_entries(bs);
    lemma_table_blocks_props(rs);
    lemma_block_entries_len(bs);
    assert forall|j1: int, j2: int| 0 <= j1 < j2 < es.len() implies lex_le(
        #[trigger] es[j1].first_key,
        #[trigger] es[j2].first_key,
    ) by {
        lemma_block_entries_at(bs, j1);
        lemma_block_entries_at(bs, j2);
        lemma_block_position(bs, j1);
        lemma_block_position(bs, j2);
        lemma_block_starts_increase(bs, j1, j2);
        let p1 = concat_blocks(bs.take(j1)).len() as int;
        let p2 = concat_blocks(bs.take(j2)).len() as int;
        assert(rs[p1] == bs[j1][0]);
        assert(rs[p2] == bs[j2][0]);
        assert(lex_lt(rs[p1].key, rs[p2].key));
    }
}

/// In any index, a block at or before `key` means there is a last one.
pub proof fn lemma_last_le_exists(es: Seq<IndexEntryView>, key: Seq<u8>, j: int)
    requires
        0 <= j < es.len(),
        lex_le(es[j].first_key, key),
    ensures
        exists|i: int| is_last_le(es, key, i),
    decreases es.len() - j,
{
    if j + 1 < es.len() && lex_le(es[j + 1].first_key, key) {
        lemma_last_le_exists(es, key, j + 1);
    } else {
        assert(is_last_le(es, key, j));
    }
}

/// Among records with distinct keys, the best match for `key` is the one
/// with `key`, if any.
pub proof fn lemma_best_match_distinct(b: Seq<RecordView>, key: Seq<u8>)
    requires
        keys_increasing(b),
    ensures
        forall|x: int| 0 <= x < b.len() && b[x].key == key ==> best_match(b, key) == Some(#[trigger] b[x]),
        (forall|x: int| 0 <= x < b.len() ==> (#[trigger] b[x]).key != key) ==> best_match(b, key) is None,
    decreases b.len(),
{
    if b.len() > 0 {
        let init = b.drop_last();
        assert(keys_increasing(init)) by {
            assert forall|i: int, j: int| 0 <= i < j < init.len() implies lex_lt(#[trigger] init[i].key, #[trigger] init[j].key) by {
                assert(init[i] == b[i] && init[j] == b[j]);
            }
        }
        lemma_best_match_distinct(init, key);
        assert forall|x: int| 0 <= x < b.len() && b[x].key == key implies best_match(b, key) == Some(#[trigger] b[x]) by {
            if x < b.len() - 1 {
                assert(init[x] == b[x]);
                assert(lex_lt(b[x].key, b[b.len() - 1].key));
                crate::common::order::lemma_lex_asymmetric(key, key);
            } else {
                assert forall|y: int| 0 <= y < init.len() implies (#[trigger] init[y]).key != key by {
                    assert(init[y] == b[y]);
                    assert(lex_lt(b[y].key, b[x].key));
                    crate::common::order::lemma_lex_asymmetric(key, key);
                }
            }
        }
        if forall|x: int| 0 <= x < b.len() ==> (#[trigger] b[x]).key != key {
            assert forall|y: int| 0 <= y < init.len() implies (#[trigger] init[y]).key != key by {
                assert(init[y] == b[y]);
            }
            assert(b[b.len() - 1].key != key);
        }
    }
}

} // verus!

verus! {

/// What a memtable holds for `key`: its value, or nothing for a tombstone
/// or a missing key.
pub open spec fn memtable_value(m: Map<Seq<u8>, Option<Seq<u8>>>, key: Seq<u8>) -> Option<Seq<u8>> {
    if m.contains_key(key) {
        m[key]
    } else {
        None
    }
}

/// What a table written from records holds for `key`: the value of the
/// record with that key if it is a put, nothing for a delete or for a key
/// that no record has.
pub open spec fn written_value(rs: Seq<RecordView>, key: Seq<u8>) -> Option<Seq<u8>> {
    if exists|p: int| 0 <= p < rs.len() && #[trigger] rs[p].key == key {
        record_value(Some(rs[choose|p: int| 0 <= p < rs.len() && #[trigger] rs[p].key == key]))
    } else {
        None
    }
}

/// A table written from records that fit opens to the index of its blocks.
pub proof fn lemma_open_written(rs: Seq<RecordView>)
    requires
        table_fits(rs),
        forall|i: int| 0 <= i < rs.len() ==> sst_encodable(#[trigger] rs[i]),
    ensures
        open_table(table_layout(table_blocks(rs))) == TableOpen::Opened(block_entries(table_blocks(rs))),
{
    let bs = table_blocks(rs);
    lemma_table_blocks_props(rs);
    lemma_blocks_bytes_records(bs);
    assert forall|j: int| 0 <= j < bs.len() implies (#[trigger] bs[j]).len() > 0 && bs[j][0].key.len() <= u32::MAX by {
        lemma_block_position(bs, j);
        let p = concat_blocks(bs.take(j)).len() as int;
        assert(rs[p] == bs[j][0]);
        lemma_sst_record_bytes_len(rs[p]);
    }
    crate::sstable::writer::lemma_index_bytes_le_blocks(bs);
    lemma_open_layout(bs);
}

/// Looking a key up in a table written from records with increasing keys
/// finds what the records hold for it.
#[verifier::rlimit(40)]
pub proof fn lemma_table_lookup_records(rs: Seq<RecordView>, key: Seq<u8>, r: Result<Option<Value>>)
    requires
        keys_increasing(rs),
        table_fits(rs),
        forall|i: int| 0 <= i < rs.len() ==> sst_encodable(#[trigger] rs[i]),
        table_get_outcome(table_layout(table_blocks(rs)), key, r),
    ensures
        r matches Ok(v) && opt_value_view(v) == written_value(rs, key),
{
    let bs = table_blocks(rs);
    let data = table_layout(bs);
    let ents = block_entries(bs);
    let present = exists|p: int| 0 <= p < rs.len() && #[trigger] rs[p].key == key;
    lemma_table_blocks_props(rs);
    lemma_blocks_bytes_records(bs);
    lemma_records_bytes_concat(Seq::empty(), rs);
    lemma_block_entries_len(bs);
    lemma_open_written(rs);
    lemma_index_sorted(rs);
    let rr = choose|rr: Result<Option<SstableRecord>>|
        #[trigger] index_lookup(data, ents, key, rr) && value_from_lookup(rr, r);
    if no_block_before(ents, key) {
        assert(rr matches Ok(None));
        if present {
            let p = choose|p: int| 0 <= p < rs.len() && #[trigger] rs[p].key == key;
            lemma_block_position(bs, 0);
            assert(bs.take(0) =~= Seq::<Seq<RecordView>>::empty());
            assert(concat_blocks(Seq::<Seq<RecordView>>::empty()) =~= Seq::<RecordView>::empty());
            lemma_block_entries_at(bs, 0);
            assert(ents[0].first_key == rs[0].key);
            if p > 0 {
                assert(lex_lt(rs[0].key, rs[p].key));
            }
            assert(lex_le(ents[0].first_key, key));
        }
    } else {
        lemma_last_le_exists(ents, key, 0);
        let i = choose|i: int| is_last_le(ents, key, i);
        assert(block_lookup(data, ents[i], key, rr));
        lemma_block_entries_at(bs, i);
        lemma_concat_blocks_split(bs, i);
        let off = blocks_bytes(bs.take(i)).len();
        let b = bs[i];
        lemma_records_bytes_ge(b, 0);
        assert(ents[i].offset == off);
        assert(ents[i].block_size == records_bytes(b).len());
        assert(block_bytes(data, ents[i]) =~= records_bytes(b));
        assert forall|x: int| 0 <= x < b.len() implies sst_encodable(#[trigger] b[x]) by {
            lemma_block_position(bs, i);
            assert(rs[concat_blocks(bs.take(i)).len() + x] == b[x]);
        }
        lemma_decode_block(b);
        lemma_block_position(bs, i);
        let start = concat_blocks(bs.take(i)).len() as int;
        assert(keys_increasing(b)) by {
            assert forall|x: int, y: int| 0 <= x < y < b.len() implies lex_lt(#[trigger] b[x].key, #[trigger] b[y].key) by {
                assert(rs[start + x] == b[x]);
                assert(rs[start + y] == b[y]);
            }
        }
        lemma_best_match_distinct(b, key);
        if present {
            let p = choose|p: int| 0 <= p < rs.len() && #[trigger] rs[p].key == key;
            assert(rs[p].key == key);
            // The record with `key` lies in block `i`.
            if p < start {
                assert(rs[start] == b[0]);
                assert(lex_lt(rs[p].key, rs[start].key));
                assert(ents[i].first_key == rs[start].key);
                crate::common::order::lemma_lex_asymmetric(key, rs[start].key);
            } else if p >= start + b.len() {
                assert(i + 1 < bs.len()) by {
                    if i + 1 == bs.len() {
                        assert(start + b.len() == rs.len());
                    }
                }
                lemma_block_position(bs, i + 1);
                lemma_block_entries_at(bs, i + 1);
                let next = concat_blocks(bs.take(i + 1)).len() as int;
                assert(next == start + b.len());
                assert(rs[next] == bs[i + 1][0]);
                assert(ents[i + 1].first_key == rs[next].key);
                if p > next {
                    assert(lex_lt(rs[next].key, rs[p].key));
                }
                assert(lex_le(ents[i + 1].first_key, key));
            }
            let x = p - start;
            assert(b[x] == rs[p]);
            assert(best_match(b, key) == Some(b[x]));
        } else {
            assert forall|x: int| 0 <= x < b.len() implies (#[trigger] b[x]).key != key by {
                assert(rs[start + x] == b[x]);
            }
        }
    }
}

/// Looking a key up in a table written from a memtable finds what the
/// memtable held for it: the value of a live key, and nothing for a
/// tombstone or a key the memtable never held.
pub proof fn lemma_table_lookup(
    es: Seq<(Key, Option<Value>)>,
    key: Seq<u8>,
    r: Result<Option<Value>>,
)
    requires
        sorted_entries(es),
        forall|i: int| 0 <= i < es.len() ==> sst_record_small(#[trigger] memtable_records(es)[i]),
        2 * records_bytes(memtable_records(es)).len() + 32 <= usize::MAX,
        table_get_outcome(table_layout(table_blocks(memtable_records(es))), key, r),
    ensures
        r matches Ok(v) && opt_value_view(v) == memtable_value(entries_map(es), key),
{
    let rs = memtable_records(es);
    let m = entries_map(es);
    assert(keys_increasing(rs)) by {
        assert forall|i: int, j: int| 0 <= i < j < rs.len() implies lex_lt(#[trigger] rs[i].key, #[trigger] rs[j].key) by {
            assert(lex_lt(es[i].0@, es[j].0@));
        }
    }
    assert forall|i: int| 0 <= i < rs.len() implies sst_encodable(#[trigger] rs[i]) by {
        lemma_sst_record_bytes_len(rs[i]);
        assert(sst_record_small(memtable_records(es)[i]));
    }
    assert(table_fits(rs)) by {
        assert forall|i: int| 0 <= i < rs.len() implies sst_record_small(#[trigger] rs[i]) by {
            assert(sst_record_small(memtable_records(es)[i]));
        }
    }
    lemma_table_lookup_records(rs, key, r);
    if m.contains_key(key) {
        let p = choose|p: int| 0 <= p < es.len() && #[trigger] es[p].0@ == key;
        lemma_entries_map_at(es, p);
        assert(rs[p].key == key);
        let q = choose|q: int| 0 <= q < rs.len() && #[trigger] rs[q].key == key;
        if q != p {
            assert(es[q].0@ == key);
        }
    } else {
        if exists|q: int| 0 <= q < rs.len() && #[trigger] rs[q].key == key {
            let q = choose|q: int| 0 <= q < rs.len() && #[trigger] rs[q].key == key;
            assert(es[q].0@ == key);
            assert(has_key(es, key));
        }
    }
}

} // verus!
