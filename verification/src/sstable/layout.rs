//! How a sorted table lays out its records: data blocks, then the index of
//! the blocks, then the footer with the index's offset and size.
use crate::sstable::footer::{footer_bytes, FOOTER_MAGIC};
use crate::sstable::block::records_bytes;
use crate::sstable::index::{index_entry_bytes, IndexEntryView};
use crate::sstable::record::RecordView;
use vstd::prelude::*;

verus! {

/// A new block is started once the current one holds more than this many bytes.
pub const BLOCK_SIZE_THRESHOLD: usize = 4096;

/// The bytes of blocks written one after another.
pub open spec fn blocks_bytes(blocks: Seq<Seq<RecordView>>) -> Seq<u8>
    decreases blocks.len(),
{
    if blocks.len() == 0 {
        Seq::empty()
    } else {
        blocks_bytes(blocks.drop_last()) + records_bytes(blocks.last())
    }
}

/// The index entry of the block `b` written at `offset`.
pub open spec fn block_entry(b: Seq<RecordView>, offset: int) -> IndexEntryView {
    IndexEntryView {
        first_key: b[0].key,
        offset: offset as u64,
        block_size: records_bytes(b).len() as u32,
    }
}

/// The index entries of blocks written one after another from offset 0.
pub open spec fn block_entries(blocks: Seq<Seq<RecordView>>) -> Seq<IndexEntryView>
    decreases blocks.len(),
{
    if blocks.len() == 0 {
        Seq::empty()
    } else {
        block_entries(blocks.drop_last()).push(
            block_entry(blocks.last(), blocks_bytes(blocks.drop_last()).len() as int),
        )
    }
}

/// The bytes of index entries written one after another.
pub open spec fn index_bytes(es: Seq<IndexEntryView>) -> Seq<u8>
    decreases es.len(),
{
    if es.len() == 0 {
        Seq::empty()
    } else {
        index_bytes(es.drop_last()) + index_entry_bytes(es.last())
    }
}

/// The index and footer written after the blocks.
pub open spec fn table_trailer(blocks: Seq<Seq<RecordView>>) -> Seq<u8> {
    index_bytes(block_entries(blocks)) + footer_bytes(
        blocks_bytes(blocks).len() as u64,
        index_bytes(block_entries(blocks)).len() as u64,
        0,
        FOOTER_MAGIC,
    )
}

/// The bytes of a table made of `blocks`.
pub open spec fn table_layout(blocks: Seq<Seq<RecordView>>) -> Seq<u8> {
    blocks_bytes(blocks) + table_trailer(blocks)
}

/// How records added one after another are grouped: the completed blocks
/// and the block still open. A record goes into the open block unless that
/// block already holds more than the threshold's worth of bytes, in which case the
/// open block is completed and the record opens a new one.
pub open spec fn partition(rs: Seq<RecordView>) -> (Seq<Seq<RecordView>>, Seq<RecordView>)
    decreases rs.len(),
{
    if rs.len() == 0 {
        (Seq::empty(), Seq::empty())
    } else {
        let (bs, cur) = partition(rs.drop_last());
        if records_bytes(cur).len() > BLOCK_SIZE_THRESHOLD {
            (bs.push(cur), seq![rs.last()])
        } else {
            (bs, cur.push(rs.last()))
        }
    }
}

/// The blocks of a table written from `rs`: the completed blocks and the
/// open one, if it holds any record.
pub open spec fn table_blocks(rs: Seq<RecordView>) -> Seq<Seq<RecordView>> {
    let (bs, cur) = partition(rs);
    if cur.len() > 0 {
        bs.push(cur)
    } else {
        bs
    }
}

} // verus!
