//! The fixed-size tail of a sorted table.
//!
//! The footer is 32 bytes, each field a little-endian `u64`: the index's
//! offset, the index's size, the filter's offset (0: the table has no
//! filter), and the magic number that marks a table.
use crate::common::endian::{get_u64_le, put_u64_le, u64_from_le, u64_le};
use crate::common::error::{unexpected_eof, DzongError, Result};
use vstd::prelude::*;

verus! {

/// The magic number at the end of every table: the bytes of `DZ0NG001`.
pub const FOOTER_MAGIC: u64 = 0x445A_304E_4730_3031;

/// The bytes of a footer with these fields.
pub open spec fn footer_bytes(index_offset: u64, index_size: u64, filter_offset: u64, magic: u64) -> Seq<u8> {
    u64_le(index_offset) + u64_le(index_size) + u64_le(filter_offset) + u64_le(magic)
}

/// The SSTable footer: where the index lies, where the filter lies, and the
/// magic number.
pub struct Footer {
    pub index_offset: u64,
    pub index_size: u64,
    pub filter_offset: u64,
    pub magic: u64,
}

impl Footer {
    /// The number of bytes a footer takes.
    pub const SIZE: usize = 32;

    /// Appends the footer's bytes to `writer`; returns how many were written.
    pub fn encode(&self, writer: &mut Vec<u8>) -> (r: Result<usize>)
        ensures
            final(writer)@ == old(writer)@ + footer_bytes(
                self.index_offset,
                self.index_size,
                self.filter_offset,
                self.magic,
            ),
            r matches Ok(n) && n == 32,
    {
        put_u64_le(writer, self.index_offset);
        put_u64_le(writer, self.index_size);
        put_u64_le(writer, self.filter_offset);
        put_u64_le(writer, self.magic);
        assert(writer@ =~= old(writer)@ + footer_bytes(
            self.index_offset,
            self.index_size,
            self.filter_offset,
            self.magic,
        ));
        Ok(Self::SIZE)
    }

    /// Reads a footer from the first 32 bytes of `reader`.
    pub fn decode(reader: &[u8]) -> (r: Result<Self>)
        ensures
            reader@.len() < 32 ==> r matches Err(DzongError::Io(_)),
            reader@.len() >= 32 ==> (r matches Ok(f) && f.index_offset == u64_from_le(
                reader@.subrange(0, 8),
            ) && f.index_size == u64_from_le(reader@.subrange(8, 16)) && f.filter_offset
                == u64_from_le(reader@.subrange(16, 24)) && f.magic == u64_from_le(
                reader@.subrange(24, 32),
            )),
    {
        if reader.len() < 32 {
            return Err(DzongError::Io(unexpected_eof()));
        }
        Ok(
            Self {
                index_offset: get_u64_le(reader, 0),
                index_size: get_u64_le(reader, 8),
                filter_offset: get_u64_le(reader, 16),
                magic: get_u64_le(reader, 24),
            },
        )
    }
}

} // verus!
