//! The sparse index of a sorted table: the first key, offset and size of
//! each data block.
use crate::common::endian::{
    get_u32_le, get_u64_le, put_u32_le, put_u64_le, u32_from_le, u32_le, u64_from_le, u64_le,
};
use crate::common::error::{DzongError, Result};
use crate::common::key_value::Key;
use crate::common::order::{bytes_le, lemma_lex_transitive, lex_le, lex_lt};
use crate::common::error::unexpected_eof;
use vstd::prelude::*;

verus! {

/// The content of an index entry.
pub struct IndexEntryView {
    pub first_key: Seq<u8>,
    pub offset: u64,
    pub block_size: u32,
}

/// The bytes of an index entry: the little-endian key length (`u32`,
/// truncated as `as u32` truncates), the key, the offset (`u64`) and the
/// block size (`u32`).
#[verifier::opaque]
pub open spec fn index_entry_bytes(e: IndexEntryView) -> Seq<u8> {
    u32_le(e.first_key.len() as u32) + e.first_key + u64_le(e.offset) + u32_le(e.block_size)
}

/// An index entry takes 16 bytes besides its key.
pub proof fn lemma_index_entry_bytes_len(e: IndexEntryView)
    ensures
        index_entry_bytes(e).len() == 16 + e.first_key.len(),
{
    reveal(index_entry_bytes);
}

/// Decodes an index entry from the front of `s`, with the number of bytes it
/// took; `None` if the bytes end first.
#[verifier::opaque]
pub open spec fn decode_index_entry(s: Seq<u8>) -> Option<(IndexEntryView, int)> {
    if s.len() < 4 {
        None
    } else {
        let klen = u32_from_le(s.subrange(0, 4)) as int;
        if s.len() < 4 + klen + 12 {
            None
        } else {
            Some(
                (
                    IndexEntryView {
                        first_key: s.subrange(4, 4 + klen),
                        offset: u64_from_le(s.subrange(4 + klen, 12 + klen)),
                        block_size: u32_from_le(s.subrange(12 + klen, 16 + klen)),
                    },
                    16 + klen,
                ),
            )
        }
    }
}

/// An entry in the SSTable index.
#[derive(Debug)]
pub struct IndexEntry {
    pub first_key: Key,
    pub offset: u64,
    pub block_size: u32,
}

impl View for IndexEntry {
    type V = IndexEntryView;

    open spec fn view(&self) -> IndexEntryView {
        IndexEntryView { first_key: self.first_key@, offset: self.offset, block_size: self.block_size }
    }
}

impl Clone for IndexEntry {
    fn clone(&self) -> (r: Self)
        ensures
            r@ == self@,
    {
        IndexEntry { first_key: self.first_key.clone(), offset: self.offset, block_size: self.block_size }
    }
}

impl IndexEntry {
    /// Appends the entry's bytes to `writer`; returns how many were written.
    pub fn encode(&self, writer: &mut Vec<u8>) -> (r: Result<usize>)
        requires
            old(writer)@.len() + index_entry_bytes(self@).len() <= usize::MAX,
        ensures
            final(writer)@ == old(writer)@ + index_entry_bytes(self@),
            r matches Ok(n) && n == index_entry_bytes(self@).len(),
    {
        proof {
            reveal(index_entry_bytes);
        }
        let mut size: usize = 0;
        let key_bytes = self.first_key.as_slice();
        put_u32_le(writer, key_bytes.len() as u32);
        size += 4;
        writer.extend_from_slice(key_bytes);
        size += key_bytes.len();
        put_u64_le(writer, self.offset);
        size += 8;
        put_u32_le(writer, self.block_size);
        size += 4;
        assert(writer@ =~= old(writer)@ + index_entry_bytes(self@));
        Ok(size)
    }

    /// Decodes an entry from the front of `reader`; returns it with the
    /// number of bytes it took.
    pub fn decode(reader: &[u8]) -> (r: Result<(Self, usize)>)
        ensures
            match decode_index_entry(reader@) {
                Some((v, n)) => r matches Ok((e, m)) && e@ == v && m == n,
                None => r matches Err(DzongError::Io(_)),
            },
            r matches Ok((_, m)) ==> 16 <= m <= reader@.len(),
    {
        proof {
            reveal(decode_index_entry);
        }
        let len = reader.len();
        if len < 4 {
            return Err(DzongError::Io(unexpected_eof()));
        }
        let key_len = get_u32_le(reader, 0) as usize;
        if len - 4 < key_len || len - 4 - key_len < 12 {
            return Err(DzongError::Io(unexpected_eof()));
        }
        let key_bytes = vstd::slice::slice_subrange(reader, 4, 4 + key_len);
        let offset = get_u64_le(reader, 4 + key_len);
        let block_size = get_u32_le(reader, 12 + key_len);
        Ok((IndexEntry { first_key: Key::new(key_bytes), offset, block_size }, 16 + key_len))
    }
}

/// The views of some index entries.
pub open spec fn entry_views(es: Seq<IndexEntry>) -> Seq<IndexEntryView> {
    Seq::new(es.len(), |i: int| es[i]@)
}

/// The first keys never decrease along the entries.
pub open spec fn index_sorted(es: Seq<IndexEntryView>) -> bool {
    forall|i: int, j: int|
        0 <= i < j < es.len() ==> lex_le(#[trigger] es[i].first_key, #[trigger] es[j].first_key)
}

/// The SSTable index containing entries for all blocks.
pub struct Index {
    pub entries: Vec<IndexEntry>,
}

impl Clone for Index {
    fn clone(&self) -> (r: Self)
        ensures
            entry_views(r.entries@) == entry_views(self.entries@),
    {
        let mut entries: Vec<IndexEntry> = Vec::new();
        let mut i: usize = 0;
        while i < self.entries.len()
            invariant
                i <= self.entries@.len(),
                entries@.len() == i,
                forall|j: int| 0 <= j < i ==> #[trigger] entries@[j]@ == self.entries@[j]@,
            decreases self.entries@.len() - i,
        {
            entries.push(self.entries[i].clone());
            i = i + 1;
        }
        let r = Index { entries };
        assert(entry_views(r.entries@) =~= entry_views(self.entries@));
        r
    }
}

impl Default for Index {
    fn default() -> (r: Self)
        ensures
            r.entries@.len() == 0,
    {
        Index { entries: Vec::new() }
    }
}

impl Index {
    pub fn new() -> (r: Self)
        ensures
            r.entries@.len() == 0,
    {
        Index { entries: Vec::new() }
    }

    pub fn add(&mut self, entry: IndexEntry)
        ensures
            final(self).entries@ == old(self).entries@.push(entry),
    {
        self.entries.push(entry);
    }

    /// Finds the block that might contain the key using binary search:
    /// the last block whose first key is at or before `key`.
    ///
    /// Whatever the order of the entries, a block found has its first key at
    /// or before `key`. When the first keys never decrease, the block found
    /// is the last such one, and none is found exactly when no such block
    /// exists.
    pub fn find_block(&self, key: &Key) -> (r: Option<&IndexEntry>)
        ensures
            r matches Some(e) ==> exists|i: int|
                0 <= i < self.entries@.len() && #[trigger] self.entries@[i] == *e && lex_le(
                    self.entries@[i].first_key@,
                    key@,
                ),
            index_sorted(entry_views(self.entries@)) ==> match r {
                Some(e) => exists|i: int|
                    0 <= i < self.entries@.len() && #[trigger] self.entries@[i] == *e && (i + 1
                        == self.entries@.len() || !lex_le(
                        self.entries@[i + 1].first_key@,
                        key@,
                    )),
                None => self.entries@.len() == 0 || !lex_le(self.entries@[0].first_key@, key@),
            },
    {
        if self.entries.len() == 0 {
            return None;
        }
        let ghost sorted = index_sorted(entry_views(self.entries@));
        let ghost es = self.entries@;
        // Find the last block whose first_key is <= key.
        let mut left: usize = 0;
        let n = self.entries.len();
        let mut right: usize = n - 1;
        let mut found: Option<usize> = None;
        while left <= right
            invariant_except_break
                es == self.entries@,
                n == es.len(),
                sorted == index_sorted(entry_views(es)),
                right < es.len(),
                left <= right + 1,
                match found {
                    Some(i) => i < es.len() && lex_le(es[i as int].first_key@, key@) && (sorted
                        ==> i + 1 == left),
                    None => left == 0,
                },
                sorted ==> forall|j: int|
                    right < j < es.len() ==> !lex_le(#[trigger] es[j].first_key@, key@),
                sorted ==> forall|j: int| 0 <= j < left ==> lex_le(#[trigger] es[j].first_key@, key@),
            ensures
                es == self.entries@,
                match found {
                    Some(i) => i < es.len() && lex_le(es[i as int].first_key@, key@) && (sorted
                        ==> (i + 1 == es.len() || !lex_le(es[i + 1].first_key@, key@))),
                    None => sorted ==> !lex_le(es[0].first_key@, key@),
                },
            decreases right + 1 - left,
        {
            let mid = left + (right - left) / 2;
            if bytes_le(self.entries[mid].first_key.as_slice(), key.as_slice()) {
                proof {
                    if sorted {
                        assert forall|j: int| 0 <= j < mid + 1 implies lex_le(
                            #[trigger] es[j].first_key@,
                            key@,
                        ) by {
                            if j < mid {
                                assert(lex_le(entry_views(es)[j].first_key, entry_views(es)[mid as int].first_key));
                                if lex_lt(es[j].first_key@, es[mid as int].first_key@) && lex_lt(es[mid as int].first_key@, key@) {
                                    lemma_lex_transitive(es[j].first_key@, es[mid as int].first_key@, key@);
                                }
                            }
                        }
                    }
                }
                found = Some(mid);
                left = mid + 1;
            } else {
                proof {
                    if sorted {
                        assert forall|j: int| mid <= j < es.len() implies !lex_le(
                            #[trigger] es[j].first_key@,
                            key@,
                        ) by {
                            if j > mid && lex_le(es[j].first_key@, key@) {
                                assert(lex_le(entry_views(es)[mid as int].first_key, entry_views(es)[j].first_key));
                                if lex_lt(es[mid as int].first_key@, es[j].first_key@) && lex_lt(es[j].first_key@, key@) {
                                    lemma_lex_transitive(es[mid as int].first_key@, es[j].first_key@, key@);
                                }
                            }
                        }
                    }
                }
                if mid == 0 {
                    break;
                }
                right = mid - 1;
            }
        }
        match found {
            Some(i) => Some(&self.entries[i]),
            None => None,
        }
    }
}

} // verus!
