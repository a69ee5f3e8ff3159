//! The value log: large values kept outside the tree, in files of checksummed entries.
//!
//! A file is a file header of `FILE_HEADER_SIZE` bytes followed by entries. An entry is an entry
//! header of `HEADER_SIZE` bytes, a key, a value, and filling up to a multiple of `ALIGNMENT`.
//! Integers are little-endian.

pub mod checksum;
pub mod laws;
pub mod reader;

use crate::codec::law_integers_weigh_their_bytes;
use crate::codec::{copy_to_array, get_u16_le, get_u32_le};
use crate::codec::{law_le_u16_read_back, law_le_u16_write_back};
use crate::codec::{law_le_u32_read_back, law_le_u32_write_back};
use crate::codec::{le_u16, le_u16_bytes, le_u32, le_u32_bytes};
use crate::error::StorageError;
use crate::vlog::checksum::crc32;
use vstd::prelude::*;

verus! {

/// The number that a value log file starts with.
pub const VLOG_MAGIC: u32 = 0x564C4F47;

/// The size of the header of a value log file.
pub const FILE_HEADER_SIZE: usize = 16;

/// The size of the header of an entry.
pub const HEADER_SIZE: usize = 24;

/// Entries start at multiples of this.
pub const ALIGNMENT: usize = 8;

/// Where an entry lies.
#[derive(Debug, Clone, Copy, PartialEq, Eq, Structural)]
pub struct ValuePointer {
    /// The value log file.
    pub file_id: u32,
    /// Where in the file the entry starts.
    pub offset: u64,
    /// The size of the entry.
    pub size: u32,
}

/// An entry read from a value log file.
#[derive(Debug, PartialEq, Eq)]
pub struct VlogEntry {
    pub ptr: ValuePointer,
    pub key: Vec<u8>,
    pub value: Vec<u8>,
    pub size: usize,
}

/// The contents of a `VlogEntry`.
#[verifier::ext_equal]
pub struct VlogEntryView {
    pub ptr: ValuePointer,
    pub key: Seq<u8>,
    pub value: Seq<u8>,
    pub size: usize,
}

impl View for VlogEntry {
    type V = VlogEntryView;

    open spec fn view(&self) -> VlogEntryView {
        VlogEntryView { ptr: self.ptr, key: self.key@, value: self.value@, size: self.size }
    }
}

/// The header of a value log file.
#[derive(Debug, Clone, Copy, PartialEq, Eq)]
pub struct VlogFileHeader {
    pub magic: u32,
    pub version: u16,
    pub reserved: [u8; 10],
}

impl VlogFileHeader {
    /// Whether this is the header in the first `FILE_HEADER_SIZE` bytes of a file.
    pub open spec fn lies_in(self, file: Seq<u8>) -> bool {
        &&& self.magic == le_u32(file)
        &&& self.version == le_u16(file.skip(4))
        &&& self.reserved@ == file.subrange(6, 16)
    }

    /// Decodes the header at the front of a file, which must start with the magic number.
    pub fn decode(buf: &[u8; FILE_HEADER_SIZE]) -> (r: Result<Self, StorageError>)
        ensures
            r is Ok <==> le_u32(buf@) == VLOG_MAGIC,
            r matches Ok(header) ==> header.lies_in(buf@),
            r matches Err(e) ==> e == (StorageError::BadMagic { found: le_u32(buf@) }),
            r is Ok <==> buf@[0] == 0x47 && buf@[1] == 0x4F && buf@[2] == 0x4C && buf@[3] == 0x56,
            r matches Ok(header) ==> {
                &&& header.magic == 0x564C4F47
                &&& header.version == buf@[4] + 0x100 * buf@[5]
                &&& header.reserved@ == buf@.subrange(6, 16)
            },
            r matches Err(e) ==> (e matches StorageError::BadMagic { found } && found == buf@[0]
                + 0x100 * buf@[1] + 0x1_0000 * buf@[2] + 0x100_0000 * buf@[3]),
    {
        proof {
            law_integers_weigh_their_bytes(buf@);
        }
        let mut bytes: &[u8] = buf.as_slice();
        let magic: u32 = get_u32_le(&mut bytes);
        if magic != VLOG_MAGIC {
            return Err(StorageError::BadMagic { found: magic });
        }
        let version: u16 = get_u16_le(&mut bytes);
        let reserved: [u8; 10] = copy_to_array::<10>(&mut bytes);
        proof {
            law_integers_weigh_their_bytes(buf@.skip(4));
        }
        assert(buf@.skip(4).skip(2) == buf@.skip(6));
        assert(buf@.skip(6).take(10) == buf@.subrange(6, 16));
        Ok(VlogFileHeader { magic, version, reserved })
    }
}

/// The header of an entry.
#[derive(Debug, Clone, Copy, PartialEq, Eq)]
pub struct VlogEntryHeader {
    /// The checksum of the rest of the header and the key.
    pub header_crc32: u32,
    /// The checksum of the value.
    pub value_crc32: u32,
    pub value_len: u32,
    pub key_len: u16,
    pub flags: u16,
    pub padding: [u8; 8],
}

/// The contents of a `VlogEntryHeader`.
#[verifier::ext_equal]
pub struct EntryHeaderView {
    pub header_crc32: u32,
    pub value_crc32: u32,
    pub value_len: u32,
    pub key_len: u16,
    pub flags: u16,
    pub padding: Seq<u8>,
}

impl EntryHeaderView {
    /// What the header checksum covers of the header: all of it but the checksum itself.
    pub open spec fn covered(self) -> Seq<u8> {
        le_u32_bytes(self.value_crc32) + le_u32_bytes(self.value_len) + le_u16_bytes(self.key_len)
            + le_u16_bytes(self.flags) + self.padding
    }

    /// The checksum that the header of an entry with this key must carry.
    pub open spec fn crc_with_key(self, key: Seq<u8>) -> u32 {
        crc32(self.covered() + key)
    }

    /// The header as it lies in a file.
    pub open spec fn encoded(self) -> Seq<u8> {
        le_u32_bytes(self.header_crc32) + self.covered()
    }

    /// The header that lies in the first `HEADER_SIZE` bytes of `bytes`.
    pub open spec fn decoded(bytes: Seq<u8>) -> EntryHeaderView {
        EntryHeaderView {
            header_crc32: le_u32(bytes),
            value_crc32: le_u32(bytes.skip(4)),
            value_len: le_u32(bytes.skip(8)),
            key_len: le_u16(bytes.skip(12)),
            flags: le_u16(bytes.skip(14)),
            padding: bytes.subrange(16, 24),
        }
    }
}

/// What each field of a decoded entry header is, by the bytes it is stored in.
pub proof fn law_header_fields_weigh_their_bytes(bytes: Seq<u8>)
    requires
        bytes.len() >= 24,
    ensures
        ({
            let h = EntryHeaderView::decoded(bytes);
            &&& h.header_crc32 == bytes[0] + 0x100 * bytes[1] + 0x1_0000 * bytes[2] + 0x100_0000
                * bytes[3]
            &&& h.value_crc32 == bytes[4] + 0x100 * bytes[5] + 0x1_0000 * bytes[6] + 0x100_0000
                * bytes[7]
            &&& h.value_len == bytes[8] + 0x100 * bytes[9] + 0x1_0000 * bytes[10] + 0x100_0000
                * bytes[11]
            &&& h.key_len == bytes[12] + 0x100 * bytes[13]
            &&& h.flags == bytes[14] + 0x100 * bytes[15]
            &&& h.padding == bytes.subrange(16, 24)
        }),
{
    law_integers_weigh_their_bytes(bytes);
    law_integers_weigh_their_bytes(bytes.skip(4));
    law_integers_weigh_their_bytes(bytes.skip(8));
    law_integers_weigh_their_bytes(bytes.skip(12));
    law_integers_weigh_their_bytes(bytes.skip(14));
}

/// The header checksum is that of the stored bytes of the header behind the checksum, and the key.
pub proof fn law_header_checksum_covers_the_stored_bytes(bytes: Seq<u8>, key: Seq<u8>)
    requires
        bytes.len() == 24,
    ensures
        EntryHeaderView::decoded(bytes).crc_with_key(key) == crc32(bytes.subrange(4, 24) + key),
{
    law_entry_header_write_back(bytes);
    assert(bytes.subrange(4, 24) == bytes.skip(4));
}

/// What the header checksum covers, field by field.
pub proof fn law_header_checksum_covers_the_fields(h: EntryHeaderView, key: Seq<u8>)
    ensures
        h.crc_with_key(key) == crc32(
            le_u32_bytes(h.value_crc32) + le_u32_bytes(h.value_len) + le_u16_bytes(h.key_len)
                + le_u16_bytes(h.flags) + h.padding + key,
        ),
{
}

/// Decoding an encoded entry header gives it back, whatever follows it.
pub proof fn law_entry_header_read_back(h: EntryHeaderView, rest: Seq<u8>)
    requires
        h.padding.len() == 8,
    ensures
        h.encoded().len() == HEADER_SIZE,
        EntryHeaderView::decoded(h.encoded() + rest) == h,
{
    let bytes = h.encoded() + rest;
    let flags_on = le_u16_bytes(h.flags) + (h.padding + rest);
    let key_len_on = le_u16_bytes(h.key_len) + flags_on;
    let value_len_on = le_u32_bytes(h.value_len) + key_len_on;
    let value_crc_on = le_u32_bytes(h.value_crc32) + value_len_on;
    assert(bytes == le_u32_bytes(h.header_crc32) + value_crc_on);
    assert(bytes.skip(4) == value_crc_on);
    assert(bytes.skip(8) == value_len_on);
    assert(bytes.skip(12) == key_len_on);
    assert(bytes.skip(14) == flags_on);
    assert(bytes.subrange(16, 24) == h.padding);
    law_le_u32_read_back(h.header_crc32, value_crc_on);
    law_le_u32_read_back(h.value_crc32, value_len_on);
    law_le_u32_read_back(h.value_len, key_len_on);
    law_le_u16_read_back(h.key_len, flags_on);
    law_le_u16_read_back(h.flags, h.padding + rest);
}

/// Encoding a decoded entry header gives its bytes back.
pub proof fn law_entry_header_write_back(bytes: Seq<u8>)
    requires
        bytes.len() == HEADER_SIZE,
    ensures
        EntryHeaderView::decoded(bytes).covered() == bytes.skip(4),
        EntryHeaderView::decoded(bytes).encoded() == bytes,
{
    let h = EntryHeaderView::decoded(bytes);
    law_le_u32_write_back(bytes);
    law_le_u32_write_back(bytes.skip(4));
    law_le_u32_write_back(bytes.skip(8));
    law_le_u16_write_back(bytes.skip(12));
    law_le_u16_write_back(bytes.skip(14));
    assert(le_u32_bytes(h.value_crc32) == bytes.subrange(4, 8));
    assert(le_u32_bytes(h.value_len) == bytes.subrange(8, 12));
    assert(le_u16_bytes(h.key_len) == bytes.subrange(12, 14));
    assert(le_u16_bytes(h.flags) == bytes.subrange(14, 16));
    assert(h.covered() == bytes.skip(4));
    assert(bytes.take(4) + bytes.skip(4) == bytes);
}

/// `n` rounded up to a multiple of `ALIGNMENT`.
pub open spec fn aligned(n: int) -> int {
    (n + ALIGNMENT - 1) / (ALIGNMENT as int) * ALIGNMENT
}

/// The size of an entry: header, key and value, and the bytes up to the next entry.
pub open spec fn entry_size(key_len: int, value_len: int) -> int {
    aligned(HEADER_SIZE + key_len + value_len)
}

/// The size of an entry is the smallest multiple of eight that holds 24 bytes of header, the key
/// and the value.
pub proof fn law_entry_size_is_the_next_multiple_of_eight(key_len: nat, value_len: nat)
    ensures
        entry_size(key_len as int, value_len as int) % 8 == 0,
        24 + key_len + value_len <= entry_size(key_len as int, value_len as int) < 24 + key_len
            + value_len + 8,
{
}

/// The size of an entry is a multiple of the alignment, holds the header, the key and the value,
/// and wastes less than one alignment unit.
pub proof fn law_entry_size(key_len: nat, value_len: nat)
    ensures
        entry_size(key_len as int, value_len as int) % (ALIGNMENT as int) == 0,
        0 <= entry_size(key_len as int, value_len as int) - (HEADER_SIZE + key_len + value_len)
            < ALIGNMENT,
{
}

impl View for VlogEntryHeader {
    type V = EntryHeaderView;

    open spec fn view(&self) -> EntryHeaderView {
        EntryHeaderView {
            header_crc32: self.header_crc32,
            value_crc32: self.value_crc32,
            value_len: self.value_len,
            key_len: self.key_len,
            flags: self.flags,
            padding: self.padding@,
        }
    }
}

impl VlogEntryHeader {
    /// Decodes the header at the front of an entry.
    pub fn decode(buf: &[u8]) -> (header: Self)
        requires
            buf@.len() >= HEADER_SIZE,
        ensures
            header@ == EntryHeaderView::decoded(buf@),
            header.header_crc32 == buf@[0] + 0x100 * buf@[1] + 0x1_0000 * buf@[2] + 0x100_0000
                * buf@[3],
            header.value_crc32 == buf@[4] + 0x100 * buf@[5] + 0x1_0000 * buf@[6] + 0x100_0000
                * buf@[7],
            header.value_len == buf@[8] + 0x100 * buf@[9] + 0x1_0000 * buf@[10] + 0x100_0000
                * buf@[11],
            header.key_len == buf@[12] + 0x100 * buf@[13],
            header.flags == buf@[14] + 0x100 * buf@[15],
            header.padding@ == buf@.subrange(16, 24),
    {
        proof {
            law_header_fields_weigh_their_bytes(buf@);
        }
        let mut bytes: &[u8] = buf;
        let header_crc32: u32 = get_u32_le(&mut bytes);
        let value_crc32: u32 = get_u32_le(&mut bytes);
        let value_len: u32 = get_u32_le(&mut bytes);
        let key_len: u16 = get_u16_le(&mut bytes);
        let flags: u16 = get_u16_le(&mut bytes);
        let padding: [u8; 8] = copy_to_array::<8>(&mut bytes);
        assert(buf@.skip(4).skip(4) == buf@.skip(8));
        assert(buf@.skip(8).skip(4) == buf@.skip(12));
        assert(buf@.skip(12).skip(2) == buf@.skip(14));
        assert(buf@.skip(14).skip(2).take(8) == buf@.subrange(16, 24));
        VlogEntryHeader { header_crc32, value_crc32, value_len, key_len, flags, padding }
    }

    /// The checksum of the header, without its own first field, and the key.
    pub fn compute_header_crc(&self, key: &[u8]) -> (crc: u32)
        ensures
            crc == self@.crc_with_key(key@),
            crc == crc32(
                le_u32_bytes(self.value_crc32) + le_u32_bytes(self.value_len) + le_u16_bytes(
                    self.key_len,
                ) + le_u16_bytes(self.flags) + self.padding@ + key@,
            ),
    {
        let mut covered: Vec<u8> = Vec::new();
        push_u32_le(&mut covered, self.value_crc32);
        push_u32_le(&mut covered, self.value_len);
        push_u16_le(&mut covered, self.key_len);
        push_u16_le(&mut covered, self.flags);
        covered.extend_from_slice(self.padding.as_slice());
        covered.extend_from_slice(key);
        assert(covered@ == self@.covered() + key@);
        crc32fast::hash(covered.as_slice())
    }

    /// The size of an entry with a key and a value of the given lengths, if it is representable.
    pub fn compute_entry_size(key_len: usize, value_len: usize) -> (r: Option<usize>)
        ensures
            r == (if entry_size(key_len as int, value_len as int) <= usize::MAX {
                Some(entry_size(key_len as int, value_len as int) as usize)
            } else {
                None
            }),
            r is Some <==> 24 + key_len + value_len + 7 <= usize::MAX,
            r matches Some(size) ==> size % 8 == 0 && 24 + key_len + value_len <= size < 24
                + key_len + value_len + 8,
    {
        let with_key: usize = match HEADER_SIZE.checked_add(key_len) {
            Some(n) => n,
            None => return None,
        };
        let unpadded: usize = match with_key.checked_add(value_len) {
            Some(n) => n,
            None => return None,
        };
        let excess: usize = unpadded % ALIGNMENT;
        if excess == 0 {
            Some(unpadded)
        } else {
            unpadded.checked_add(ALIGNMENT - excess)
        }
    }
}

/// Appends `v` in little-endian order.
fn push_u16_le(buf: &mut Vec<u8>, v: u16)
    ensures
        final(buf)@ == old(buf)@ + le_u16_bytes(v),
{
    buf.push((v % 256) as u8);
    buf.push((v / 256) as u8);
    assert(buf@ == old(buf)@ + le_u16_bytes(v));
}

/// Appends `v` in little-endian order.
fn push_u32_le(buf: &mut Vec<u8>, v: u32)
    ensures
        final(buf)@ == old(buf)@ + le_u32_bytes(v),
{
    buf.push((v % 0x100) as u8);
    buf.push((v / 0x100 % 0x100) as u8);
    buf.push((v / 0x1_0000 % 0x100) as u8);
    buf.push((v / 0x100_0000) as u8);
    assert(buf@ == old(buf)@ + le_u32_bytes(v));
}

} // verus!
