//! Reading a sorted table: opening it through its footer and index, point
//! lookups, and scans.
use crate::common::endian::u64_from_le;
use crate::common::error::{unexpected_eof, DzongError, Result};
use crate::common::key_value::Key;
use crate::common::order::lex_le;
use crate::sstable::block::{best_match, decode_fails_with, decode_records_from, BlockReader};
use crate::sstable::footer::{Footer, FOOTER_MAGIC};
use crate::sstable::index::{
    decode_index_entry, entry_views, index_sorted, Index, IndexEntry, IndexEntryView,
};
use crate::sstable::record::{
    decode_sst_record, lemma_decode_sst_record_len, record_decode_error,
    RecordDecode, RecordView, SstableRecord,
};
use vstd::prelude::*;
use vstd::string::*;

verus! {

/// The index entries decoded one after another from `pos` to the end of
/// `s`; `None` if the bytes end inside an entry.
pub open spec fn decode_index_from(s: Seq<u8>, pos: int) -> Option<Seq<IndexEntryView>>
    decreases s.len() - pos,
{
    if pos < 0 {
        None
    } else if pos >= s.len() {
        Some(Seq::empty())
    } else {
        match decode_index_entry(s.subrange(pos, s.len() as int)) {
            Some((e, n)) => if n > 0 && pos + n <= s.len() {
                match decode_index_from(s, pos + n) {
                    Some(rest) => Some(seq![e] + rest),
                    None => None,
                }
            } else {
                None
            },
            None => None,
        }
    }
}

/// What opening a table's bytes finds.
pub enum TableOpen {
    /// Fewer bytes than a footer.
    TooSmall,
    /// The footer does not end with the magic number.
    BadMagic,
    /// The index the footer points to does not lie before the footer.
    BadOffset,
    /// The index ends inside an entry.
    IndexTruncated,
    /// The entries of the index.
    Opened(Seq<IndexEntryView>),
}

/// The footer field of `data` at byte `at` of the footer.
pub open spec fn footer_field(data: Seq<u8>, at: int) -> u64 {
    u64_from_le(data.subrange(data.len() - 32 + at, data.len() - 32 + at + 8))
}

/// The index offset that the footer of `data` holds.
pub open spec fn footer_offset(data: Seq<u8>) -> u64 {
    footer_field(data, 0)
}

/// The index size that the footer of `data` holds.
pub open spec fn footer_index_size(data: Seq<u8>) -> u64 {
    footer_field(data, 8)
}

/// Opens a table: the footer must end with the magic number, and gives the
/// index's offset and size; the index must lie before the footer.
pub open spec fn open_table(data: Seq<u8>) -> TableOpen {
    if data.len() < 32 {
        TableOpen::TooSmall
    } else if footer_field(data, 24) != FOOTER_MAGIC {
        TableOpen::BadMagic
    } else if footer_offset(data) > data.len() - 32 || footer_index_size(data) > data.len() - 32
        - footer_offset(data) {
        TableOpen::BadOffset
    } else {
        match decode_index_from(
            data.subrange(
                footer_offset(data) as int,
                footer_offset(data) + footer_index_size(data),
            ),
            0,
        ) {
            Some(es) => TableOpen::Opened(es),
            None => TableOpen::IndexTruncated,
        }
    }
}

/// `e` is a corruption error with the given message, no file id and the
/// given offset.
pub open spec fn is_located_corruption(e: DzongError, message: Seq<char>, offset: u64) -> bool {
    &&& e matches DzongError::Corruption { message: m, file_id: f, offset: o }
    &&& m@ == message
    &&& f is None
    &&& o == Some(offset)
}

/// `e` is the error that opening `data` gives, when it does not open.
pub open spec fn open_error(data: Seq<u8>, e: DzongError) -> bool {
    match open_table(data) {
        TableOpen::TooSmall => is_located_corruption(e, "SSTable file too small for footer"@, 0),
        TableOpen::BadMagic => is_located_corruption(
            e,
            "Invalid SSTable magic number"@,
            (data.len() - 32) as u64,
        ),
        TableOpen::BadOffset => is_located_corruption(
            e,
            "Invalid index_offset in footer"@,
            (data.len() - 32) as u64,
        ),
        TableOpen::IndexTruncated => e is Io,
        TableOpen::Opened(_) => false,
    }
}

/// The bytes of the block that `e` describes.
pub open spec fn block_bytes(data: Seq<u8>, e: IndexEntryView) -> Seq<u8> {
    data.subrange(e.offset as int, e.offset + e.block_size)
}

/// The block that `e` describes lies within `data`.
pub open spec fn block_in_bounds(data: Seq<u8>, e: IndexEntryView) -> bool {
    e.offset + e.block_size <= data.len()
}

/// The content of an optional record.
pub open spec fn found_view(f: Option<SstableRecord>) -> Option<RecordView> {
    match f {
        Some(rec) => Some(rec@),
        None => None,
    }
}

/// `r` is what looking `key` up in the block that `e` describes gives: an
/// I/O error if the block lies past the end, the error of the first record
/// that fails to decode, or the record with `key` and the highest LSN.
pub open spec fn block_lookup(
    data: Seq<u8>,
    e: IndexEntryView,
    key: Seq<u8>,
    r: Result<Option<SstableRecord>>,
) -> bool {
    if !block_in_bounds(data, e) {
        r matches Err(DzongError::Io(_))
    } else {
        match decode_records_from(block_bytes(data, e), 0) {
            Some(rs) => r matches Ok(f) && found_view(f) == best_match(rs, key),
            None => r is Err && decode_fails_with(block_bytes(data, e), 0, r->Err_0),
        }
    }
}

/// `i` is the last block whose first key is at or before `key`.
pub open spec fn is_last_le(es: Seq<IndexEntryView>, key: Seq<u8>, i: int) -> bool {
    &&& 0 <= i < es.len()
    &&& lex_le(es[i].first_key, key)
    &&& (i + 1 == es.len() || !lex_le(es[i + 1].first_key, key))
}

/// No block has its first key at or before `key`, as far as a sorted index
/// shows: the index is empty or its first key comes after `key`.
pub open spec fn no_block_before(es: Seq<IndexEntryView>, key: Seq<u8>) -> bool {
    es.len() == 0 || !lex_le(es[0].first_key, key)
}

/// `r` is what looking `key` up in a table with index `es` gives. With a
/// sorted index the block searched is the last one whose first key is at or
/// before `key`; otherwise it is some block whose first key is at or before
/// `key`, or none.
pub open spec fn index_lookup(
    data: Seq<u8>,
    es: Seq<IndexEntryView>,
    key: Seq<u8>,
    r: Result<Option<SstableRecord>>,
) -> bool {
    if index_sorted(es) {
        &&& no_block_before(es, key) ==> (r matches Ok(None))
        &&& forall|i: int| is_last_le(es, key, i) ==> block_lookup(data, #[trigger] es[i], key, r)
    } else {
        ||| r matches Ok(None)
        ||| exists|i: int|
            0 <= i < es.len() && lex_le(es[i].first_key, key) && block_lookup(
                data,
                #[trigger] es[i],
                key,
                r,
            )
    }
}

pub struct SstableReader {
    data: Vec<u8>,
    index: Index,
}

impl SstableReader {
    /// The bytes of the table.
    pub closed spec fn data(self) -> Seq<u8> {
        self.data@
    }

    /// The entries of the table's index.
    pub closed spec fn entries(self) -> Seq<IndexEntryView> {
        entry_views(self.index.entries@)
    }

    /// Opens the table whose bytes are `data`.
    pub fn open(data: Vec<u8>) -> (r: Result<Self>)
        ensures
            match open_table(data@) {
                TableOpen::Opened(es) => r matches Ok(reader) && reader.data() == data@
                    && reader.entries() == es,
                _ => r is Err && open_error(data@, r->Err_0),
            },
    {
        let file_size = data.len();
        if file_size < Footer::SIZE {
            proof {
                reveal_strlit("SSTable file too small for footer");
            }
            return Err(
                DzongError::Corruption {
                    message: String::from_str("SSTable file too small for footer"),
                    file_id: None,
                    offset: Some(0),
                },
            );
        }
        let footer_pos = file_size - Footer::SIZE;
        let footer_bytes = vstd::slice::slice_subrange(data.as_slice(), footer_pos, file_size);
        let footer = Footer::decode(footer_bytes)?;
        proof {
            assert(footer_bytes@.subrange(0, 8) =~= data@.subrange(
                data@.len() - 32,
                data@.len() - 32 + 8,
            ));
            assert(footer_bytes@.subrange(8, 16) =~= data@.subrange(
                data@.len() - 32 + 8,
                data@.len() - 32 + 8 + 8,
            ));
            assert(footer_bytes@.subrange(24, 32) =~= data@.subrange(
                data@.len() - 32 + 24,
                data@.len() - 32 + 24 + 8,
            ));
            assert(footer.index_offset == footer_offset(data@));
            assert(footer.index_size == footer_index_size(data@));
            assert(footer.magic == footer_field(data@, 24));
        }
        if footer.magic != FOOTER_MAGIC {
            proof {
                reveal_strlit("Invalid SSTable magic number");
            }
            return Err(
                DzongError::Corruption {
                    message: String::from_str("Invalid SSTable magic number"),
                    file_id: None,
                    offset: Some(footer_pos as u64),
                },
            );
        }
        if footer.index_offset > footer_pos as u64 || footer.index_size > footer_pos as u64
            - footer.index_offset {
            proof {
                reveal_strlit("Invalid index_offset in footer");
            }
            return Err(
                DzongError::Corruption {
                    message: String::from_str("Invalid index_offset in footer"),
                    file_id: None,
                    offset: Some(footer_pos as u64),
                },
            );
        }
        let index_start = footer.index_offset as usize;
        let index_end = index_start + footer.index_size as usize;
        let index_data = vstd::slice::slice_subrange(data.as_slice(), index_start, index_end);
        let ghost s = index_data@;
        let len = index_data.len();
        let mut pos: usize = 0;
        let mut index = Index::new();
        assert(entry_views(index.entries@) =~= Seq::<IndexEntryView>::empty());
        while pos < len
            invariant
                s == index_data@,
                data@.len() >= 32,
                footer_field(data@, 24) == FOOTER_MAGIC,
                footer_offset(data@) <= data@.len() - 32,
                footer_index_size(data@) <= data@.len() - 32 - footer_offset(data@),
                s == data@.subrange(
                    footer_offset(data@) as int,
                    footer_offset(data@) + footer_index_size(data@),
                ),
                len == s.len(),
                pos <= len,
                match decode_index_from(s, pos as int) {
                    Some(rest) => decode_index_from(s, 0) == Some(entry_views(index.entries@) + rest),
                    None => decode_index_from(s, 0) is None,
                },
            decreases len - pos,
        {
            let (entry, n) = match IndexEntry::decode(vstd::slice::slice_subrange(index_data, pos, len)) {
                Ok(x) => x,
                Err(e) => {
                    proof {
                        assert(decode_index_from(s, pos as int) is None);
                    }
                    return Err(e);
                },
            };
            proof {
                let p = pos as int;
                let ev = entry@;
                match decode_index_from(s, p + n) {
                    Some(tail) => {
                        assert(decode_index_from(s, p) == Some(seq![ev] + tail));
                        assert(entry_views(index.entries@) + (seq![ev] + tail) =~= entry_views(index.entries@.push(entry)) + tail);
                    },
                    None => {
                        assert(decode_index_from(s, p) is None);
                    },
                }
            }
            index.add(entry);
            pos = pos + n;
        }
        proof {
            assert(decode_index_from(s, pos as int) == Some(Seq::<IndexEntryView>::empty()));
            assert(entry_views(index.entries@) + Seq::<IndexEntryView>::empty() =~= entry_views(index.entries@));
        }
        Ok(Self { data, index })
    }

    /// Looks `key` up: the index picks a block, and the block is scanned.
    pub fn get(&self, key: &Key) -> (r: Result<Option<SstableRecord>>)
        ensures
            index_lookup(self.data(), self.entries(), key@, r),
    {
        let ghost es = self.entries();
        let ghost ents = self.index.entries@;
        assert(es.len() == ents.len());
        assert(forall|j: int| 0 <= j < ents.len() ==> #[trigger] es[j] == ents[j]@);
        let entry = match self.index.find_block(key) {
            Some(e) => e,
            None => {
                proof {
                    if index_sorted(es) {
                        assert forall|j: int| !is_last_le(es, key@, j) by {
                            if 0 < j < es.len() && lex_le(es[j].first_key, key@) {
                                assert(lex_le(es[0].first_key, es[j].first_key));
                                crate::common::order::lemma_lex_le_transitive(es[0].first_key, es[j].first_key, key@);
                            }
                        }
                    }
                }
                return Ok(None);
            },
        };
        let ghost i = choose|i: int|
            0 <= i < self.index.entries@.len() && #[trigger] self.index.entries@[i] == *entry
                && lex_le(self.index.entries@[i].first_key@, key@);
        assert(es[i] == entry@);
        let r = self.read_block(entry, key);
        proof {
            assert(0 <= i < es.len() && lex_le(es[i].first_key, key@) && block_lookup(self.data(), es[i], key@, r));
            if index_sorted(es) {
                let k = choose|k: int|
                    0 <= k < self.index.entries@.len() && #[trigger] self.index.entries@[k] == *entry
                        && (k + 1 == self.index.entries@.len() || !lex_le(self.index.entries@[k + 1].first_key@, key@));
                assert(es[k] == entry@);
                assert(is_last_le(es, key@, k));
                if k > 0 {
                    assert(lex_le(es[0].first_key, es[k].first_key));
                    crate::common::order::lemma_lex_le_transitive(es[0].first_key, es[k].first_key, key@);
                }
                assert(!no_block_before(es, key@));
                assert forall|j: int| is_last_le(es, key@, j) implies block_lookup(self.data(), #[trigger] es[j], key@, r) by {
                    crate::sstable::reader::lemma_last_le_unique(es, key@, j, k);
                }
            }
        }
        r
    }

    fn read_block(&self, entry: &IndexEntry, key: &Key) -> (r: Result<Option<SstableRecord>>)
        ensures
            block_lookup(self.data(), entry@, key@, r),
    {
        let len = self.data.len();
        if entry.offset > len as u64 || entry.block_size as u64 > len as u64 - entry.offset {
            return Err(DzongError::Io(unexpected_eof()));
        }
        let start = entry.offset as usize;
        let end = start + entry.block_size as usize;
        let block_data = vstd::slice::slice_subrange(self.data.as_slice(), start, end);
        let block_reader = BlockReader::new(block_data);
        block_reader.get(key)
    }

    /// Starts a scan over all records of the table, block after block.
    pub fn scan(&self) -> (r: Result<SstableIterator>)
        ensures
            r matches Ok(it) && it.data() == self.data() && it.entries() == self.entries()
                && it.block_idx() == 0 && it.rest().len() == 0,
    {
        Ok(SstableIterator::new(self.data.clone(), self.index.clone()))
    }
}

/// In a sorted index at most one block is the last one at or before a key.
pub proof fn lemma_last_le_unique(es: Seq<IndexEntryView>, key: Seq<u8>, i: int, j: int)
    requires
        index_sorted(es),
        is_last_le(es, key, i),
        is_last_le(es, key, j),
    ensures
        i == j,
{
    if i < j {
        assert(lex_le(es[i + 1].first_key, es[j].first_key));
        crate::common::order::lemma_lex_le_transitive(es[i + 1].first_key, es[j].first_key, key);
    } else if j < i {
        assert(lex_le(es[j + 1].first_key, es[i].first_key));
        crate::common::order::lemma_lex_le_transitive(es[j + 1].first_key, es[i].first_key, key);
    }
}

/// Where a scan goes next once its current block is used up.
pub enum Seek {
    /// No block is left.
    End,
    /// The block at this index lies past the end of the table.
    Fail(int),
    /// The block at this index is the next one with any bytes.
    Block(int),
}

/// Looks for the next block with any bytes from `idx` on; empty blocks are
/// passed over.
pub open spec fn seek_block(data: Seq<u8>, es: Seq<IndexEntryView>, idx: int) -> Seek
    decreases es.len() - idx,
{
    if idx < 0 || idx >= es.len() {
        Seek::End
    } else if !block_in_bounds(data, es[idx]) {
        Seek::Fail(idx)
    } else if es[idx].block_size == 0 {
        seek_block(data, es, idx + 1)
    } else {
        Seek::Block(idx)
    }
}

/// The block a seek finds lies at or after where it starts, holds some
/// bytes and lies within the table; so does a block past the end.
pub proof fn lemma_seek_block_range(data: Seq<u8>, es: Seq<IndexEntryView>, idx: int)
    ensures
        seek_block(data, es, idx) matches Seek::Block(j) ==> idx <= j < es.len() && block_in_bounds(
            data,
            es[j],
        ) && block_bytes(data, es[j]).len() > 0,
        seek_block(data, es, idx) matches Seek::Fail(j) ==> idx <= j < es.len(),
    decreases es.len() - idx,
{
    if 0 <= idx < es.len() && block_in_bounds(data, es[idx]) && es[idx].block_size == 0 {
        lemma_seek_block_range(data, es, idx + 1);
    }
}

/// `items` are what a scan yields, from the given point (the next block to
/// load, and what is left of the current one) to its end or its first
/// error.
pub open spec fn scan_yields(
    data: Seq<u8>,
    es: Seq<IndexEntryView>,
    idx: int,
    rest: Seq<u8>,
    items: Seq<core::result::Result<RecordView, DzongError>>,
) -> bool
    decreases es.len() - idx, rest.len(),
{
    if rest.len() > 0 {
        match decode_sst_record(rest) {
            RecordDecode::Record(v, n) => {
                proof {
                    lemma_decode_sst_record_len(rest);
                }
                &&& items.len() > 0
                &&& items[0] == Ok::<RecordView, DzongError>(v)
                &&& scan_yields(
                    data,
                    es,
                    idx,
                    rest.subrange(n, rest.len() as int),
                    items.drop_first(),
                )
            },
            _ => items.len() == 1 && items[0] is Err && record_decode_error(rest, items[0]->Err_0),
        }
    } else {
        match seek_block(data, es, idx) {
            Seek::End => items.len() == 0,
            Seek::Fail(_) => items.len() == 1 && items[0] matches Err(DzongError::Io(_)),
            Seek::Block(j) => {
                proof {
                    lemma_seek_block_range(data, es, idx);
                }
                scan_yields(data, es, j + 1, block_bytes(data, es[j]), items)
            },
        }
    }
}

/// A scan over all records of a table, block after block.
pub struct SstableIterator {
    file: Vec<u8>,
    index: Index,
    current_block_idx: usize,
    current_block_data: Vec<u8>,
    current_block_pos: usize,
}

impl SstableIterator {
    /// The bytes of the table.
    pub closed spec fn data(self) -> Seq<u8> {
        self.file@
    }

    /// The entries of the table's index.
    pub closed spec fn entries(self) -> Seq<IndexEntryView> {
        entry_views(self.index.entries@)
    }

    /// The index of the next block to load.
    pub closed spec fn block_idx(self) -> int {
        self.current_block_idx as int
    }

    /// The bytes of the current block not yet scanned.
    pub closed spec fn rest(self) -> Seq<u8> {
        if self.current_block_pos <= self.current_block_data@.len() {
            self.current_block_data@.subrange(self.current_block_pos as int, self.current_block_data@.len() as int)
        } else {
            Seq::empty()
        }
    }

    pub fn new(file: Vec<u8>, index: Index) -> (r: Self)
        ensures
            r.data() == file@,
            r.entries() == entry_views(index.entries@),
            r.block_idx() == 0,
            r.rest().len() == 0,
    {
        Self {
            file,
            index,
            current_block_idx: 0,
            current_block_data: Vec::new(),
            current_block_pos: 0,
        }
    }

    fn load_next_block(&mut self) -> (r: Result<bool>)
        ensures
            final(self).data() == old(self).data(),
            final(self).entries() == old(self).entries(),
            old(self).block_idx() >= old(self).entries().len() ==> (r matches Ok(false)
                && final(self).block_idx() == old(self).block_idx() && final(self).rest()
                == old(self).rest()),
            0 <= old(self).block_idx() < old(self).entries().len() ==> if block_in_bounds(
                old(self).data(),
                old(self).entries()[old(self).block_idx()],
            ) {
                &&& r matches Ok(true)
                &&& final(self).block_idx() == old(self).block_idx() + 1
                &&& final(self).rest() == block_bytes(
                    old(self).data(),
                    old(self).entries()[old(self).block_idx()],
                )
            } else {
                &&& r matches Err(DzongError::Io(_))
                &&& final(self).block_idx() == old(self).block_idx()
                &&& final(self).rest() == old(self).rest()
            },
    {
        if self.current_block_idx >= self.index.entries.len() {
            return Ok(false);
        }
        let entry = &self.index.entries[self.current_block_idx];
        let len = self.file.len();
        if entry.offset > len as u64 || entry.block_size as u64 > len as u64 - entry.offset {
            return Err(DzongError::Io(unexpected_eof()));
        }
        let start = entry.offset as usize;
        let end = start + entry.block_size as usize;
        self.current_block_data = vstd::slice::slice_to_vec(vstd::slice::slice_subrange(self.file.as_slice(), start, end));
        self.current_block_pos = 0;
        self.current_block_idx += 1;
        proof {
            assert(self.current_block_data@.subrange(0, self.current_block_data@.len() as int) =~= self.current_block_data@);
        }
        Ok(true)
    }

    /// The next record of the scan, `None` once every block is used up. A
    /// record that fails to decode is reported, and reported again on the
    /// next call; so is a block that lies past the end of the table.
    pub fn next_record(&mut self) -> (r: Option<Result<SstableRecord>>)
        ensures
            final(self).data() == old(self).data(),
            final(self).entries() == old(self).entries(),
            old(self).rest().len() > 0 ==> match decode_sst_record(old(self).rest()) {
                RecordDecode::Record(v, n) => {
                    &&& r matches Some(Ok(rec))
                    &&& rec@ == v
                    &&& final(self).block_idx() == old(self).block_idx()
                    &&& final(self).rest() == old(self).rest().subrange(n, old(self).rest().len() as int)
                },
                _ => {
                    &&& r matches Some(Err(e))
                    &&& record_decode_error(old(self).rest(), e)
                    &&& final(self).block_idx() == old(self).block_idx()
                    &&& final(self).rest() == old(self).rest()
                },
            },
            old(self).rest().len() == 0 ==> match seek_block(old(self).data(), old(self).entries(), old(self).block_idx()) {
                Seek::End => r is None && final(self).rest().len() == 0,
                Seek::Fail(j) => (r matches Some(Err(DzongError::Io(_)))) && final(self).block_idx() == j
                    && final(self).rest().len() == 0,
                Seek::Block(j) => {
                    let blk = block_bytes(old(self).data(), old(self).entries()[j]);
                    &&& final(self).block_idx() == j + 1
                    &&& match decode_sst_record(blk) {
                        RecordDecode::Record(v, n) => {
                            &&& r matches Some(Ok(rec))
                            &&& rec@ == v
                            &&& final(self).rest() == blk.subrange(n, blk.len() as int)
                        },
                        _ => {
                            &&& r matches Some(Err(e))
                            &&& record_decode_error(blk, e)
                            &&& final(self).rest() == blk
                        },
                    }
                },
            },
    {
        loop
            invariant
                self.data() == old(self).data(),
                self.entries() == old(self).entries(),
                old(self).rest().len() > 0 ==> self.block_idx() == old(self).block_idx() && self.rest() == old(self).rest(),
                old(self).rest().len() == 0 ==> self.rest().len() == 0 || (self.block_idx() >= 1 && seek_block(old(self).data(), old(self).entries(), old(self).block_idx()) == Seek::Block(self.block_idx() - 1) && self.rest() == block_bytes(self.data(), self.entries()[self.block_idx() - 1])),
                old(self).rest().len() == 0 && self.rest().len() == 0 ==> seek_block(old(self).data(), old(self).entries(), old(self).block_idx()) == seek_block(self.data(), self.entries(), self.block_idx()),
                old(self).rest().len() == 0 && self.rest().len() == 0 ==> old(self).block_idx() <= self.block_idx(),
            decreases self.entries().len() - self.block_idx(), self.rest().len(),
        {
            if self.current_block_pos < self.current_block_data.len() {
                let rest = vstd::slice::slice_subrange(self.current_block_data.as_slice(), self.current_block_pos, self.current_block_data.len());
                assert(rest@ == self.rest());
                match SstableRecord::decode(rest) {
                    Ok((rec, n)) => {
                        self.current_block_pos += n;
                        proof {
                            assert(self.rest() =~= rest@.subrange(n as int, rest@.len() as int));
                        }
                        return Some(Ok(rec));
                    },
                    Err(e) => return Some(Err(e)),
                }
            }
            proof {
                assert(self.rest().len() == 0);
            }
            match self.load_next_block() {
                Ok(true) => {},
                Ok(false) => return None,
                Err(e) => return Some(Err(e)),
            }
        }
    }
}

} // verus!
