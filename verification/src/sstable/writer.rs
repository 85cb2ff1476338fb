//! Writing a sorted table: records are grouped into blocks, and the index of
//! the blocks and the footer follow them.
use crate::common::error::{DzongError, Result};
use crate::common::key_value::{clone_opt_value, opt_value_view, Key, Value};
use crate::db::memtable::{entries_map, sorted_entries, MemTable};
use crate::sstable::block::{records_bytes, BlockBuilder};
use crate::sstable::footer::{Footer, FOOTER_MAGIC};
use crate::sstable::index::{entry_views, index_entry_bytes, Index, IndexEntry, IndexEntryView};
use crate::sstable::layout::{
    block_entries, block_entry, blocks_bytes, index_bytes, partition, table_blocks, table_layout,
    BLOCK_SIZE_THRESHOLD,
};
use crate::sstable::record::{sst_record_bytes, RecordView, SstableOp, SstableRecord};
use crate::wal::record::value_bytes;
use vstd::prelude::*;
use vstd::string::*;

verus! {

/// The record a table stores for a memtable entry: a put of the value, or a
/// delete for a tombstone, at LSN 0.
pub open spec fn memtable_record(e: (Key, Option<Value>)) -> RecordView {
    RecordView {
        op: if e.1 is Some {
            SstableOp::Put
        } else {
            SstableOp::Delete
        },
        lsn: 0,
        key: e.0@,
        value: opt_value_view(e.1),
    }
}

/// The records a table stores for memtable entries, in order.
pub open spec fn memtable_records(es: Seq<(Key, Option<Value>)>) -> Seq<RecordView> {
    Seq::new(es.len(), |i: int| memtable_record(es[i]))
}

/// The largest record a table accepts: its block size must fit the index's
/// `u32` even when the block already holds the threshold's worth.
pub open spec fn sst_record_small(r: RecordView) -> bool {
    sst_record_bytes(r).len() < u32::MAX - BLOCK_SIZE_THRESHOLD
}

/// The views of some records.
pub open spec fn records_view(v: Seq<SstableRecord>) -> Seq<RecordView> {
    Seq::new(v.len(), |i: int| v[i]@)
}

/// Records fit in a table: each is small enough for a block, and the
/// table's bytes fit in memory twice over.
pub open spec fn table_fits(rs: Seq<RecordView>) -> bool {
    &&& forall|i: int| 0 <= i < rs.len() ==> sst_record_small(#[trigger] rs[i])
    &&& 2 * records_bytes(rs).len() + 32 <= usize::MAX
}

/// Writing blocks after blocks concatenates their bytes.
pub proof fn lemma_blocks_bytes_push(bs: Seq<Seq<RecordView>>, b: Seq<RecordView>)
    ensures
        blocks_bytes(bs.push(b)) == blocks_bytes(bs) + records_bytes(b),
        block_entries(bs.push(b)) == block_entries(bs).push(block_entry(b, blocks_bytes(bs).len() as int)),
{
    assert(bs.push(b).drop_last() =~= bs);
}

/// Appending a record to a block appends its bytes.
pub proof fn lemma_records_bytes_push(rs: Seq<RecordView>, r: RecordView)
    ensures
        records_bytes(rs.push(r)) == records_bytes(rs) + sst_record_bytes(r),
{
    assert(rs.push(r).drop_last() =~= rs);
}

/// Appending an entry to an index appends its bytes.
pub proof fn lemma_index_bytes_push(es: Seq<IndexEntryView>, e: IndexEntryView)
    ensures
        index_bytes(es.push(e)) == index_bytes(es) + index_entry_bytes(e),
{
    assert(es.push(e).drop_last() =~= es);
}

/// A block's bytes are at least as long as any of its records'.
pub proof fn lemma_records_bytes_ge(rs: Seq<RecordView>, j: int)
    requires
        0 <= j < rs.len(),
    ensures
        records_bytes(rs).len() >= sst_record_bytes(rs[j]).len(),
    decreases rs.len(),
{
    if j < rs.len() - 1 {
        lemma_records_bytes_ge(rs.drop_last(), j);
    }
}

/// A prefix of some records takes no more bytes than all of them.
pub proof fn lemma_records_bytes_prefix(rs: Seq<RecordView>, i: int)
    requires
        0 <= i <= rs.len(),
    ensures
        records_bytes(rs.take(i)).len() <= records_bytes(rs).len(),
    decreases rs.len(),
{
    if i < rs.len() {
        assert(rs.drop_last().take(i) =~= rs.take(i));
        lemma_records_bytes_prefix(rs.drop_last(), i);
    } else {
        assert(rs.take(i) =~= rs);
    }
}

/// A prefix of some index entries takes no more bytes than all of them.
pub proof fn lemma_index_bytes_prefix(es: Seq<IndexEntryView>, i: int)
    requires
        0 <= i <= es.len(),
    ensures
        index_bytes(es.take(i)).len() <= index_bytes(es).len(),
    decreases es.len(),
{
    if i < es.len() {
        assert(es.drop_last().take(i) =~= es.take(i));
        lemma_index_bytes_prefix(es.drop_last(), i);
    } else {
        assert(es.take(i) =~= es);
    }
}

/// Grouping records into blocks keeps their bytes: the completed blocks and
/// the open one together are the records' bytes.
pub proof fn lemma_partition_bytes(rs: Seq<RecordView>)
    ensures
        blocks_bytes(partition(rs).0) + records_bytes(partition(rs).1) == records_bytes(rs),
        forall|i: int| 0 <= i < partition(rs).0.len() ==> (#[trigger] partition(rs).0[i]).len() > 0,
    decreases rs.len(),
{
    if rs.len() > 0 {
        let (bs, cur) = partition(rs.drop_last());
        lemma_partition_bytes(rs.drop_last());
        let r = rs.last();
        lemma_records_bytes_push(cur, r);
        if records_bytes(cur).len() > BLOCK_SIZE_THRESHOLD {
            lemma_blocks_bytes_push(bs, cur);
            assert(seq![r] =~= Seq::<RecordView>::empty().push(r));
            lemma_records_bytes_push(Seq::empty(), r);
            assert(records_bytes(Seq::<RecordView>::empty()) =~= Seq::<u8>::empty());
            if cur.len() == 0 {
                assert(records_bytes(cur) =~= Seq::<u8>::empty());
            }
        }
    }
}

/// The index of blocks takes no more bytes than the blocks.
pub proof fn lemma_index_bytes_le_blocks(bs: Seq<Seq<RecordView>>)
    requires
        forall|i: int| 0 <= i < bs.len() ==> (#[trigger] bs[i]).len() > 0,
    ensures
        index_bytes(block_entries(bs)).len() <= blocks_bytes(bs).len(),
    decreases bs.len(),
{
    if bs.len() > 0 {
        let init = bs.drop_last();
        let b = bs.last();
        lemma_index_bytes_le_blocks(init);
        lemma_index_bytes_push(block_entries(init), block_entry(b, blocks_bytes(init).len() as int));
        lemma_records_bytes_ge(b, 0);
        crate::sstable::record::lemma_sst_record_bytes_len(b[0]);
        crate::sstable::index::lemma_index_entry_bytes_len(block_entry(b, blocks_bytes(init).len() as int));
    }
}

/// Responsible for writing a sorted table; the bytes accumulate in memory.
pub struct SstableWriter {
    out: Vec<u8>,
    index: Index,
    offset: u64,
    current_builder: Option<BlockBuilder>,
    blocks: Ghost<Seq<Seq<RecordView>>>,
    trailer: Ghost<Seq<u8>>,
}

/// The largest record a table accepts, in bytes: less than `u32::MAX` less
/// the block threshold.
const MAX_RECORD_BYTES: u64 = 0xFFFF_EFFE;

/// Whether records whose key and value lengths are `lens` fit in a table.
fn lengths_fit(lens: &Vec<(usize, usize)>, Ghost(rs): Ghost<Seq<RecordView>>) -> (r: bool)
    requires
        lens@.len() == rs.len(),
        forall|i: int|
            0 <= i < rs.len() ==> #[trigger] sst_record_bytes(rs[i]).len() == 17 + lens@[i].0
                + lens@[i].1,
    ensures
        r == table_fits(rs),
{
    let limit: usize = (usize::MAX - 32) / 2;
    let mut total: usize = 0;
    let mut i: usize = 0;
    while i < lens.len()
        invariant
            lens@.len() == rs.len(),
            forall|j: int|
                0 <= j < rs.len() ==> #[trigger] sst_record_bytes(rs[j]).len() == 17 + lens@[j].0
                    + lens@[j].1,
            i <= lens@.len(),
            total == records_bytes(rs.take(i as int)).len(),
            total <= limit,
            limit == (usize::MAX - 32) / 2,
            forall|j: int| 0 <= j < i ==> sst_record_small(#[trigger] rs[j]),
        decreases lens@.len() - i,
    {
        let (klen, vlen) = lens[i];
        proof {
            assert(sst_record_bytes(rs[i as int]).len() == 17 + klen + vlen);
            assert(rs.take(i + 1) =~= rs.take(i as int).push(rs[i as int]));
            lemma_records_bytes_push(rs.take(i as int), rs[i as int]);
        }
        if klen as u64 > MAX_RECORD_BYTES - 17 || vlen as u64 > MAX_RECORD_BYTES - 17 - klen as u64 {
            return false;
        }
        let size: usize = 17 + klen + vlen;
        if size > limit - total {
            proof {
                lemma_records_bytes_prefix(rs, i + 1);
            }
            return false;
        }
        total = total + size;
        i = i + 1;
    }
    proof {
        assert(rs.take(lens@.len() as int) =~= rs);
    }
    true
}

/// Whether `records` fit in a table.
pub fn records_fit(records: &Vec<SstableRecord>) -> (r: bool)
    ensures
        r == table_fits(records_view(records@)),
{
    let ghost rs = records_view(records@);
    let mut lens: Vec<(usize, usize)> = Vec::new();
    let mut i: usize = 0;
    while i < records.len()
        invariant
            rs == records_view(records@),
            i <= records@.len(),
            lens@.len() == i,
            forall|j: int|
                0 <= j < i ==> #[trigger] sst_record_bytes(rs[j]).len() == 17 + lens@[j].0
                    + lens@[j].1,
        decreases records@.len() - i,
    {
        let rec = &records[i];
        let vlen: usize = match &rec.value {
            Some(v) => v.len(),
            None => 0,
        };
        proof {
            crate::sstable::record::lemma_sst_record_bytes_len(rs[i as int]);
            assert(value_bytes(rs[i as int].value).len() == vlen);
        }
        lens.push((rec.key.len(), vlen));
        i = i + 1;
    }
    lengths_fit(&lens, Ghost(rs))
}

/// Whether the memtable's entries fit in a table.
pub fn memtable_fits(memtable: &MemTable) -> (r: bool)
    ensures
        r == table_fits(memtable_records(memtable.entries())),
{
    let entries = memtable.as_slice();
    let ghost rs = memtable_records(entries@);
    let mut lens: Vec<(usize, usize)> = Vec::new();
    let mut i: usize = 0;
    while i < entries.len()
        invariant
            entries@ == memtable.entries(),
            rs == memtable_records(entries@),
            i <= entries@.len(),
            lens@.len() == i,
            forall|j: int|
                0 <= j < i ==> #[trigger] sst_record_bytes(rs[j]).len() == 17 + lens@[j].0
                    + lens@[j].1,
        decreases entries@.len() - i,
    {
        let (key, value) = &entries[i];
        let vlen: usize = match value {
            Some(v) => v.len(),
            None => 0,
        };
        proof {
            crate::sstable::record::lemma_sst_record_bytes_len(rs[i as int]);
            assert(value_bytes(rs[i as int].value).len() == vlen);
        }
        lens.push((key.len(), vlen));
        i = i + 1;
    }
    lengths_fit(&lens, Ghost(rs))
}

impl SstableWriter {
    /// The completed blocks.
    pub closed spec fn blocks(self) -> Seq<Seq<RecordView>> {
        self.blocks@
    }

    /// The records of the block still open (none once finished).
    pub closed spec fn pending(self) -> Seq<RecordView> {
        match self.current_builder {
            Some(b) => b.records(),
            None => Seq::empty(),
        }
    }

    /// Whether `finish` has been called.
    pub closed spec fn finished(self) -> bool {
        self.current_builder is None
    }

    /// The bytes written so far.
    pub closed spec fn output(self) -> Seq<u8> {
        self.out@
    }

    pub closed spec fn wf(self) -> bool {
        &&& self.out@ == blocks_bytes(self.blocks@) + self.trailer@
        &&& entry_views(self.index.entries@) == block_entries(self.blocks@)
        &&& self.offset == blocks_bytes(self.blocks@).len()
        &&& forall|i: int| 0 <= i < self.blocks@.len() ==> (#[trigger] self.blocks@[i]).len() > 0
        &&& match self.current_builder {
            Some(b) => b.wf() && self.trailer@.len() == 0 && records_bytes(b.records()).len()
                < u32::MAX,
            None => true,
        }
    }

    /// Starts an empty table.
    pub fn new() -> (r: Self)
        ensures
            r.wf(),
            !r.finished(),
            r.blocks() == Seq::<Seq<RecordView>>::empty(),
            r.pending() == Seq::<RecordView>::empty(),
            r.output() == Seq::<u8>::empty(),
    {
        let r = SstableWriter {
            out: Vec::new(),
            index: Index::new(),
            offset: 0,
            current_builder: Some(BlockBuilder::new()),
            blocks: Ghost(Seq::empty()),
            trailer: Ghost(Seq::empty()),
        };
        assert(entry_views(r.index.entries@) =~= block_entries(Seq::empty()));
        assert(r.out@ =~= blocks_bytes(Seq::empty()) + Seq::<u8>::empty());
        assert(records_bytes(Seq::<RecordView>::empty()) =~= Seq::<u8>::empty());
        r
    }

    /// Writes the table of a memtable's entries, in key order: a put for
    /// each value and a delete for each tombstone, all at LSN 0.
    pub fn write_from_memtable(memtable: &MemTable) -> (r: Result<Vec<u8>>)
        requires
            forall|i: int|
                0 <= i < memtable.entries().len() ==> sst_record_small(
                    #[trigger] memtable_records(memtable.entries())[i],
                ),
            2 * records_bytes(memtable_records(memtable.entries())).len() + 32 <= usize::MAX,
        ensures
            r matches Ok(bytes) && bytes@ == table_layout(
                table_blocks(memtable_records(memtable.entries())),
            ),
            sorted_entries(memtable.entries()),
            memtable@ == entries_map(memtable.entries()),
    {
        let entries = memtable.as_slice();
        let ghost rs = memtable_records(entries@);
        let mut records: Vec<SstableRecord> = Vec::new();
        let mut i: usize = 0;
        while i < entries.len()
            invariant
                entries@ == memtable.entries(),
                rs == memtable_records(entries@),
                i <= entries@.len(),
                records@.len() == i,
                forall|j: int| 0 <= j < i ==> (#[trigger] records@[j])@ == rs[j],
            decreases entries@.len() - i,
        {
            let (key, value) = &entries[i];
            let record = SstableRecord {
                op: if value.is_some() {
                    SstableOp::Put
                } else {
                    SstableOp::Delete
                },
                lsn: 0,
                key: key.clone(),
                value: clone_opt_value(value),
            };
            records.push(record);
            i = i + 1;
        }
        proof {
            assert(records_view(records@) =~= rs);
        }
        Ok(Self::write_records(&records))
    }

    /// A whole writing session: a new writer, each record added in the order
    /// given, then `finish`. The bytes are the documented layout of the
    /// records' table: its blocks, the index of the blocks, the footer.
    pub fn write_records(records: &Vec<SstableRecord>) -> (r: Vec<u8>)
        requires
            table_fits(records_view(records@)),
        ensures
            r@ == table_layout(table_blocks(records_view(records@))),
    {
        let ghost rs = records_view(records@);
        let mut writer = Self::new();
        let mut i: usize = 0;
        assert(rs.take(0) =~= Seq::<RecordView>::empty());
        while i < records.len()
            invariant
                rs == records_view(records@),
                i <= records@.len(),
                writer.wf(),
                !writer.finished(),
                partition(rs.take(i as int)) == (writer.blocks(), writer.pending()),
                writer.output() == blocks_bytes(writer.blocks()),
                table_fits(rs),
            decreases records@.len() - i,
        {
            proof {
                assert(rs.take(i + 1).drop_last() =~= rs.take(i as int));
                lemma_partition_bytes(rs.take(i as int));
                lemma_records_bytes_push(rs.take(i as int), rs[i as int]);
                lemma_records_bytes_prefix(rs, i + 1);
                assert(rs.take(i + 1) =~= rs.take(i as int).push(rs[i as int]));
                assert(sst_record_small(rs[i as int]));
            }
            let _ = writer.add(&records[i]);
            i = i + 1;
        }
        proof {
            assert(rs.take(records@.len() as int) =~= rs);
            lemma_partition_bytes(rs);
            lemma_index_bytes_le_blocks(table_blocks(rs));
            if partition(rs).1.len() > 0 {
                lemma_blocks_bytes_push(partition(rs).0, partition(rs).1);
                assert forall|j: int| 0 <= j < table_blocks(rs).len() implies (#[trigger] table_blocks(rs)[j]).len() > 0 by {
                    if j < partition(rs).0.len() {
                        assert(table_blocks(rs)[j] == partition(rs).0[j]);
                    }
                }
            } else {
                assert(records_bytes(partition(rs).1) =~= Seq::<u8>::empty());
            }
        }
        let _ = writer.finish();
        writer.out
    }

    /// The bytes written so far, handed over.
    pub fn into_bytes(self) -> (r: Vec<u8>)
        ensures
            r@ == self.output(),
    {
        self.out
    }

    /// Adds a record to the table, completing the open block first when it
    /// already holds more than the threshold's worth of bytes. After
    /// `finish`, nothing is added and an invariant error is returned.
    pub fn add(&mut self, record: &SstableRecord) -> (r: Result<()>)
        requires
            old(self).wf(),
            !old(self).finished() ==> sst_record_small(record@),
            !old(self).finished() ==> old(self).output().len() + records_bytes(old(self).pending()).len()
                + sst_record_bytes(record@).len() <= usize::MAX,
        ensures
            final(self).wf(),
            old(self).finished() ==> {
                &&& r matches Err(DzongError::Invariant { message, context })
                &&& message@ == "SSTable writer already finished"@
                &&& context is None
                &&& final(self).finished()
                &&& final(self).output() == old(self).output()
                &&& final(self).blocks() == old(self).blocks()
            },
            !old(self).finished() ==> {
                &&& !final(self).finished()
                &&& r is Ok
                &&& final(self).output() == blocks_bytes(final(self).blocks())
                &&& if records_bytes(old(self).pending()).len() > BLOCK_SIZE_THRESHOLD {
                    &&& final(self).blocks() == old(self).blocks().push(old(self).pending())
                    &&& final(self).pending() == seq![record@]
                } else {
                    &&& final(self).blocks() == old(self).blocks()
                    &&& final(self).pending() == old(self).pending().push(record@)
                }
            },
    {
        if self.current_builder.is_none() {
            proof {
                reveal_strlit("SSTable writer already finished");
            }
            return Err(
                DzongError::Invariant {
                    message: String::from_str("SSTable writer already finished"),
                    context: None,
                },
            );
        }
        let mut builder = match self.current_builder.take() {
            Some(b) => b,
            None => BlockBuilder::new(),
        };
        let ghost old_pending = builder.records();
        proof {
            assert(self.trailer@ =~= Seq::<u8>::empty());
        }
        if builder.size() > BLOCK_SIZE_THRESHOLD {
            proof {
                if old_pending.len() == 0 {
                    assert(records_bytes(old_pending) =~= Seq::<u8>::empty());
                }
            }
            let _ = self.finish_block(builder);
            builder = BlockBuilder::new();
            proof {
                assert(records_bytes(Seq::<RecordView>::empty()) =~= Seq::<u8>::empty());
            }
        }
        let ghost before = builder.records();
        proof {
            crate::sstable::record::lemma_sst_record_bytes_len(record@);
        }
        let _ = builder.add(record);
        proof {
            lemma_records_bytes_push(before, record@);
            assert(before.push(record@) =~= seq![record@] || before.len() > 0);
            if before.len() == 0 {
                assert(before.push(record@) =~= seq![record@]);
            }
        }
        self.current_builder = Some(builder);
        Ok(())
    }

    /// Completes the open block, if it holds any record, and writes the
    /// index and the footer. A second call writes the index and footer again.
    pub fn finish(&mut self) -> (r: Result<()>)
        requires
            old(self).wf(),
            old(self).output().len() + records_bytes(old(self).pending()).len() + index_bytes(
                block_entries(
                    if old(self).pending().len() > 0 {
                        old(self).blocks().push(old(self).pending())
                    } else {
                        old(self).blocks()
                    },
                ),
            ).len() + 32 <= usize::MAX,
        ensures
            final(self).wf(),
            final(self).finished(),
            r is Ok,
            final(self).blocks() == if old(self).pending().len() > 0 {
                old(self).blocks().push(old(self).pending())
            } else {
                old(self).blocks()
            },
            !old(self).finished() ==> final(self).output() == table_layout(final(self).blocks()),
            old(self).finished() ==> final(self).output() == old(self).output()
                + crate::sstable::layout::table_trailer(final(self).blocks()),
    {
        if let Some(builder) = self.current_builder.take() {
            if !builder.is_empty() {
                let _ = self.finish_block(builder);
            } else {
                proof {
                    assert(records_bytes(builder.records()) =~= Seq::<u8>::empty());
                }
            }
        }
        let ghost before = self.out@;
        let _ = self.write_index_and_footer();
        proof {
            assert(self.out@ =~= before + crate::sstable::layout::table_trailer(self.blocks@));
            if !old(self).finished() {
                assert(before =~= blocks_bytes(self.blocks@));
            }
        }
        Ok(())
    }

    fn finish_block(&mut self, builder: BlockBuilder) -> (r: Result<()>)
        requires
            old(self).wf(),
            old(self).current_builder is None,
            old(self).trailer@.len() == 0,
            builder.wf(),
            builder.records().len() > 0,
            records_bytes(builder.records()).len() < u32::MAX,
            old(self).out@.len() + records_bytes(builder.records()).len() <= usize::MAX,
        ensures
            final(self).wf(),
            final(self).current_builder is None,
            final(self).trailer@.len() == 0,
            final(self).blocks@ == old(self).blocks@.push(builder.records()),
            final(self).out@ == old(self).out@ + records_bytes(builder.records()),
            r is Ok,
    {
        let first_key = match builder.first_key() {
            Some(k) => k,
            None => {
                proof {
                    reveal_strlit("Attempted to finish an empty block");
                }
                return Err(
                    DzongError::Invariant {
                        message: String::from_str("Attempted to finish an empty block"),
                        context: None,
                    },
                );
            },
        };
        let ghost b = builder.records();
        let data = builder.build();
        let size = data.len() as u32;
        self.out.extend_from_slice(data.as_slice());
        let entry = IndexEntry { first_key, offset: self.offset, block_size: size };
        assert(entry@ == block_entry(b, blocks_bytes(self.blocks@).len() as int));
        self.index.add(entry);
        self.offset += size as u64;
        proof {
            let old_blocks = self.blocks@;
            lemma_blocks_bytes_push(old_blocks, b);
            self.blocks@ = old_blocks.push(b);
            assert(entry_views(self.index.entries@) =~= block_entries(self.blocks@));
            assert(self.out@ =~= blocks_bytes(self.blocks@) + self.trailer@);
        }
        Ok(())
    }

    fn write_index_and_footer(&mut self) -> (r: Result<()>)
        requires
            old(self).wf(),
            old(self).current_builder is None,
            old(self).out@.len() + index_bytes(block_entries(old(self).blocks@)).len() + 32
                <= usize::MAX,
        ensures
            final(self).wf(),
            final(self).current_builder is None,
            final(self).blocks@ == old(self).blocks@,
            final(self).out@ == old(self).out@ + crate::sstable::layout::table_trailer(old(self).blocks@),
            r is Ok,
    {
        let index_offset = self.offset;
        let start_len = self.out.len();
        let ghost views = block_entries(self.blocks@);
        let ghost start = self.out@;
        let mut i: usize = 0;
        assert(views.take(0) =~= Seq::<IndexEntryView>::empty());
        while i < self.index.entries.len()
            invariant
                self.current_builder is None,
                self.blocks@ == old(self).blocks@,
                self.offset == old(self).offset,
                self.trailer@ == old(self).trailer@,
                entry_views(self.index.entries@) == views,
                views == block_entries(self.blocks@),
                i <= views.len(),
                start == old(self).out@,
                start_len == start.len(),
                self.out@ == start + index_bytes(views.take(i as int)),
                start.len() + index_bytes(views).len() + 32 <= usize::MAX,
            decreases views.len() - i,
        {
            proof {
                assert(views.take(i + 1) =~= views.take(i as int).push(views[i as int]));
                lemma_index_bytes_push(views.take(i as int), views[i as int]);
                lemma_index_bytes_prefix(views, i + 1);
                assert(self.index.entries@[i as int]@ == views[i as int]);
            }
            let _ = self.index.entries[i].encode(&mut self.out);
            proof {
                assert(self.out@ =~= start + index_bytes(views.take(i + 1)));
            }
            i = i + 1;
        }
        proof {
            assert(views.take(views.len() as int) =~= views);
        }
        let index_size = (self.out.len() - start_len) as u64;
        let footer = Footer { index_offset, index_size, filter_offset: 0, magic: FOOTER_MAGIC };
        let _ = footer.encode(&mut self.out);
        proof {
            let t = self.trailer@;
            self.trailer@ = t + crate::sstable::layout::table_trailer(self.blocks@);
            assert(self.out@ =~= blocks_bytes(self.blocks@) + self.trailer@);
        }
        Ok(())
    }
}

} // verus!
