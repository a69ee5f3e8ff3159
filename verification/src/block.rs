//! Blocks: the unit in which sorted tables are read.
//!
//! A block is a run of entries and the offset of each. An entry is the length of its key, the key,
//! the length of its value and the value; lengths are 16-bit and big-endian.

pub mod iterator;

use crate::codec::{be_u16, be_u16_bytes};
use crate::codec::{law_be_u16_read_back, law_integers_weigh_their_bytes};
use crate::key::keys_sorted;
use vstd::prelude::*;

verus! {

/// A block as it is held in memory.
#[derive(Debug, PartialEq, Eq)]
pub struct Block {
    /// The entries.
    pub data: Vec<u8>,
    /// Where in `data` each entry starts.
    pub offsets: Vec<u16>,
}

/// Whether a field, that is a length and as many bytes, lies in `data` at `offset`.
pub open spec fn field_fits(data: Seq<u8>, offset: int) -> bool {
    &&& 0 <= offset
    &&& offset + 2 <= data.len()
    &&& field_end(data, offset) <= data.len()
}

/// The end of the field in `data` at `offset`.
pub open spec fn field_end(data: Seq<u8>, offset: int) -> int {
    offset + 2 + be_u16(data.skip(offset))
}

/// The bytes of the field in `data` at `offset`.
pub open spec fn field_from(data: Seq<u8>, offset: int) -> Seq<u8> {
    data.subrange(offset + 2, field_end(data, offset))
}

impl Block {
    /// Whether the key of entry `i` can be read.
    pub open spec fn has_key(self, i: int) -> bool {
        field_fits(self.data@, self.offsets@[i] as int)
    }

    /// Whether the value of entry `i` can be read.
    pub open spec fn has_value(self, i: int) -> bool {
        let offset = self.offsets@[i] as int;
        field_fits(self.data@, offset) && field_fits(self.data@, field_end(self.data@, offset))
    }

    /// The key of entry `i`.
    pub open spec fn key_at(self, i: int) -> Seq<u8> {
        field_from(self.data@, self.offsets@[i] as int)
    }

    /// The value of entry `i`, which follows the key.
    pub open spec fn value_at(self, i: int) -> Seq<u8> {
        field_from(self.data@, field_end(self.data@, self.offsets@[i] as int))
    }

    /// The keys of the entries.
    pub open spec fn keys(self) -> Seq<Seq<u8>> {
        Seq::new(self.offsets@.len(), |i: int| self.key_at(i))
    }

    /// Whether all keys can be read.
    pub open spec fn has_keys(self) -> bool {
        forall|i: int| 0 <= i < self.offsets@.len() ==> #[trigger] self.has_key(i)
    }

    /// Whether the entries are sorted by their keys.
    pub open spec fn sorted(self) -> bool {
        keys_sorted(self.keys())
    }
}

/// Where the key and the value of an entry are, byte by byte: two bytes of length, the more
/// significant one first, and the key; then the same of the value.
pub proof fn law_entry_lies_at_its_offset(block: Block, i: int)
    requires
        0 <= i < block.offsets@.len(),
    ensures
        ({
            let data = block.data@;
            let start = block.offsets@[i] as int;
            let middle = start + 2 + 0x100 * data[start] + data[start + 1];
            let end = middle + 2 + 0x100 * data[middle] + data[middle + 1];
            &&& block.has_key(i) <==> start + 2 <= data.len() && middle <= data.len()
            &&& block.has_value(i) <==> {
                &&& start + 2 <= data.len()
                &&& middle + 2 <= data.len()
                &&& end <= data.len()
            }
            &&& block.has_key(i) ==> block.key_at(i) == data.subrange(start + 2, middle)
            &&& block.has_value(i) ==> block.value_at(i) == data.subrange(middle + 2, end)
        }),
{
    let data = block.data@;
    let start = block.offsets@[i] as int;
    lemma_field_weighs_its_bytes(data, start);
    lemma_field_weighs_its_bytes(data, start + 2 + 0x100 * data[start] + data[start + 1]);
}

/// A field lies in `data` at `offset` if there are two bytes of length, the more significant one
/// first, and as many bytes behind them as these say.
pub proof fn law_field_lies_at(data: Seq<u8>, offset: int)
    requires
        0 <= offset,
    ensures
        ({
            let end = offset + 2 + 0x100 * data[offset] + data[offset + 1];
            &&& field_fits(data, offset) <==> offset + 2 <= data.len() && end <= data.len()
            &&& field_fits(data, offset) ==> field_end(data, offset) == end && field_from(
                data,
                offset,
            ) == data.subrange(offset + 2, end)
        }),
{
    lemma_field_weighs_its_bytes(data, offset);
}

/// A field is as long as its first two bytes say.
proof fn lemma_field_weighs_its_bytes(data: Seq<u8>, offset: int)
    requires
        0 <= offset,
    ensures
        offset + 2 <= data.len() ==> field_end(data, offset) == offset + 2 + 0x100 * data[offset]
            + data[offset + 1],
{
    if offset + 2 <= data.len() {
        law_integers_weigh_their_bytes(data.skip(offset));
        assert(data.skip(offset)[0] == data[offset]);
        assert(data.skip(offset)[1] == data[offset + 1]);
    }
}

/// What there is to say of all entries of a block is said of each.
pub proof fn law_keys_of_a_block(block: Block)
    ensures
        block.keys().len() == block.offsets@.len(),
        forall|i: int|
            0 <= i < block.offsets@.len() ==> #[trigger] block.keys()[i] == block.key_at(i),
        block.has_keys() <==> forall|i: int|
            0 <= i < block.offsets@.len() ==> #[trigger] block.has_key(i),
{
}

/// An entry whose bytes lie at an offset, each length in two bytes before what it measures, is read
/// back as it was written.
pub proof fn law_written_entry_is_read(block: Block, i: int, key: Seq<u8>, value: Seq<u8>)
    requires
        0 <= i < block.offsets@.len(),
        key.len() <= 0xFFFF,
        value.len() <= 0xFFFF,
        block.offsets@[i] + 4 + key.len() + value.len() <= block.data@.len(),
        block.data@.subrange(
            block.offsets@[i] as int,
            block.offsets@[i] + 4 + key.len() + value.len(),
        ) == seq![(key.len() / 0x100) as u8, (key.len() % 0x100) as u8] + key + seq![
            (value.len() / 0x100) as u8,
            (value.len() % 0x100) as u8,
        ] + value,
    ensures
        block.has_key(i),
        block.has_value(i),
        block.key_at(i) == key,
        block.value_at(i) == value,
{
    let data = block.data@;
    let start = block.offsets@[i] as int;
    let end = start + 4 + key.len() + value.len();
    let middle = start + 2 + key.len();
    let bytes = data.subrange(start, end);
    assert(data[start] == bytes[0]);
    assert(data[start + 1] == bytes[1]);
    assert(data[middle] == bytes[2 + key.len() as int]);
    assert(data[middle + 1] == bytes[3 + key.len() as int]);
    assert(0x100 * data[start] + data[start + 1] == key.len());
    assert(0x100 * data[middle] + data[middle + 1] == value.len());
    law_entry_lies_at_its_offset(block, i);
    assert(data.subrange(start + 2, middle) == bytes.subrange(2, middle - start));
    assert(data.subrange(start + 2, middle) == key);
    assert(data.subrange(middle + 2, end) == bytes.skip(4 + key.len() as int));
    assert(data.subrange(middle + 2, end) == value);
}

/// `bytes` with its length in front.
pub open spec fn field_bytes(bytes: Seq<u8>) -> Seq<u8> {
    be_u16_bytes(bytes.len() as u16) + bytes
}

/// An entry as it lies in a block.
pub open spec fn entry_bytes(entry: (Seq<u8>, Seq<u8>)) -> Seq<u8> {
    field_bytes(entry.0) + field_bytes(entry.1)
}

/// Entries, one behind the other.
pub open spec fn entries_bytes(entries: Seq<(Seq<u8>, Seq<u8>)>) -> Seq<u8>
    decreases entries.len(),
{
    if entries.len() == 0 {
        Seq::empty()
    } else {
        entries_bytes(entries.drop_last()) + entry_bytes(entries.last())
    }
}

impl Block {
    /// Whether the block was built of these entries, each a key and a value.
    pub open spec fn built_of(self, entries: Seq<(Seq<u8>, Seq<u8>)>) -> bool {
        &&& self.data@ == entries_bytes(entries)
        &&& self.offsets@.len() == entries.len()
        &&& forall|i: int|
            0 <= i < entries.len() ==> #[trigger] self.offsets@[i] == entries_bytes(
                entries.take(i),
            ).len()
        &&& forall|i: int|
            0 <= i < entries.len() ==> (#[trigger] entries[i]).0.len() <= u16::MAX
                && entries[i].1.len() <= u16::MAX
    }
}

/// A field is found where its bytes lie.
proof fn lemma_field_is_found(data: Seq<u8>, offset: int, bytes: Seq<u8>)
    requires
        bytes.len() <= u16::MAX,
        0 <= offset,
        offset + 2 + bytes.len() <= data.len(),
        data.subrange(offset, offset + 2 + bytes.len()) == field_bytes(bytes),
    ensures
        field_fits(data, offset),
        field_end(data, offset) == offset + 2 + bytes.len(),
        field_from(data, offset) == bytes,
{
    let field = field_bytes(bytes);
    let rest = data.skip(offset + 2 + bytes.len());
    assert(data.skip(offset) == field + rest);
    assert(field + rest == be_u16_bytes(bytes.len() as u16) + (bytes + rest));
    law_be_u16_read_back(bytes.len() as u16, bytes + rest);
    assert(field.skip(2) == bytes);
    assert(field_from(data, offset) == field.skip(2));
}

/// The bytes of entry `i` lie behind those of the entries before it.
proof fn lemma_entry_lies_behind(entries: Seq<(Seq<u8>, Seq<u8>)>, i: int)
    requires
        0 <= i < entries.len(),
    ensures
        ({
            let start = entries_bytes(entries.take(i)).len() as int;
            let end = start + entry_bytes(entries[i]).len();
            &&& end <= entries_bytes(entries).len()
            &&& entries_bytes(entries).subrange(start, end) == entry_bytes(entries[i])
        }),
    decreases entries.len(),
{
    let before = entries_bytes(entries.drop_last());
    let start = entries_bytes(entries.take(i)).len() as int;
    let end = start + entry_bytes(entries[i]).len();
    if i == entries.len() - 1 {
        assert(entries.take(i) == entries.drop_last());
        assert(entries_bytes(entries).subrange(start, end) == entry_bytes(entries[i]));
    } else {
        lemma_entry_lies_behind(entries.drop_last(), i);
        assert(entries.drop_last().take(i) == entries.take(i));
        assert(entries_bytes(entries).subrange(start, end) == before.subrange(start, end));
    }
}

/// A block has the keys and values that it was built of, in the same order, and all of them can be
/// read.
pub proof fn law_block_gives_back(block: Block, entries: Seq<(Seq<u8>, Seq<u8>)>, i: int)
    requires
        block.built_of(entries),
        0 <= i < entries.len(),
    ensures
        block.has_key(i),
        block.has_value(i),
        block.key_at(i) == entries[i].0,
        block.value_at(i) == entries[i].1,
        field_fits(block.data@, 0),
{
    lemma_entry_is_found(block, entries, i);
    lemma_entry_is_found(block, entries, 0);
    assert(entries.take(0) == Seq::<(Seq<u8>, Seq<u8>)>::empty());
}

/// Entry `i` of a block is found where its offset says.
proof fn lemma_entry_is_found(block: Block, entries: Seq<(Seq<u8>, Seq<u8>)>, i: int)
    requires
        block.built_of(entries),
        0 <= i < entries.len(),
    ensures
        block.has_key(i),
        block.has_value(i),
        block.key_at(i) == entries[i].0,
        block.value_at(i) == entries[i].1,
{
    let data = block.data@;
    let start = block.offsets@[i] as int;
    let (key, value) = entries[i];
    let middle = start + 2 + key.len();
    let end = middle + 2 + value.len();
    let bytes = entry_bytes(entries[i]);
    lemma_entry_lies_behind(entries, i);
    assert(data.subrange(start, middle) == bytes.take(middle - start));
    assert(bytes.take(middle - start) == field_bytes(key));
    lemma_field_is_found(data, start, key);
    assert(data.subrange(middle, end) == bytes.skip(middle - start));
    assert(bytes.skip(middle - start) == field_bytes(value));
    lemma_field_is_found(data, middle, value);
}

} // verus!
