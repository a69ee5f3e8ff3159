//! Walking over the entries of a block.

use std::sync::Arc;

use crate::block::{field_end, field_fits, field_from, Block};
use crate::block::{law_block_gives_back, law_entry_lies_at_its_offset, law_keys_of_a_block};
use crate::codec::{advance, get_u16};
use crate::key::{border, border_between, borders_at, key_lt, keys_sorted, splits_at};
use crate::key::{key_less, Key, KeySlice};
use crate::key::{
    law_border_is_the_first_key_not_less, law_halving_finds_the_border, law_key_order_is_total,
};
use vstd::prelude::*;
use vstd::slice::slice_subrange;

verus! {

/// Iterates on a block.
pub struct BlockIterator {
    /// The block.
    block: Arc<Block>,
    /// The index of the current entry; from the number of entries on, there is none.
    idx: usize,
}

/// The key that is shown at position `p` of a block: that of entry `p`, or an empty one behind the
/// last entry.
pub open spec fn key_shown(block: Block, p: int) -> Seq<u8> {
    if p < block.offsets@.len() {
        block.key_at(p)
    } else {
        Seq::empty()
    }
}

/// The value that is shown at position `p` of a block: that of entry `p`, or an empty one behind
/// the last entry.
pub open spec fn value_shown(block: Block, p: int) -> Seq<u8> {
    if p < block.offsets@.len() {
        block.value_at(p)
    } else {
        Seq::empty()
    }
}

/// A call that moves an iterator.
pub enum Move {
    /// `seek_to_first`.
    First,
    /// `next`.
    Next,
    /// `seek_to_key`, with this key.
    Key(Seq<u8>),
}

/// Where a call leads from position `p` of a block.
pub open spec fn position_after(block: Block, p: int, call: Move) -> int {
    match call {
        Move::First => 0,
        Move::Next => p + 1,
        Move::Key(key) => border(block.keys(), key),
    }
}

/// Where calls, one after the other, lead from position `p` of a block.
pub open spec fn position_after_all(block: Block, p: int, calls: Seq<Move>) -> int
    decreases calls.len(),
{
    if calls.len() == 0 {
        p
    } else {
        position_after_all(block, position_after(block, p, calls[0]), calls.drop_first())
    }
}

/// Reads the key of the entry in `data` at `offset`.
fn read_key(data: &[u8], offset: usize) -> (key: &[u8])
    requires
        field_fits(data@, offset as int),
    ensures
        key@ == field_from(data@, offset as int),
{
    let mut rest: &[u8] = slice_subrange(data, offset, data.len());
    assert(rest@ == data@.skip(offset as int));
    let key_len: usize = get_u16(&mut rest) as usize;
    let key: &[u8] = slice_subrange(rest, 0, key_len);
    assert(key@ == field_from(data@, offset as int));
    key
}

/// Reads the value of the entry in `data` at `offset`.
fn read_value(data: &[u8], offset: usize) -> (value: &[u8])
    requires
        field_fits(data@, offset as int),
        field_fits(data@, field_end(data@, offset as int)),
    ensures
        value@ == field_from(data@, field_end(data@, offset as int)),
{
    let mut rest: &[u8] = slice_subrange(data, offset, data.len());
    assert(rest@ == data@.skip(offset as int));
    let key_len: usize = get_u16(&mut rest) as usize;
    advance(&mut rest, key_len);
    assert(rest@ == data@.skip(field_end(data@, offset as int)));
    let value_len: usize = get_u16(&mut rest) as usize;
    let value: &[u8] = slice_subrange(rest, 0, value_len);
    assert(value@ == field_from(data@, field_end(data@, offset as int)));
    value
}

impl BlockIterator {
    /// The block that is iterated on.
    pub closed spec fn block(self) -> Block {
        *self.block
    }

    /// The index of the current entry.
    pub closed spec fn position(self) -> int {
        self.idx as int
    }

    /// Whether there is a current entry.
    pub open spec fn at_entry(self) -> bool {
        self.position() < self.block().offsets@.len()
    }

    /// The key of the current entry; empty if there is none.
    pub open spec fn current_key(self) -> Seq<u8> {
        key_shown(self.block(), self.position())
    }

    /// The value of the current entry; empty if there is none.
    pub open spec fn current_value(self) -> Seq<u8> {
        value_shown(self.block(), self.position())
    }

    fn new(block: Arc<Block>) -> (it: Self)
        ensures
            it.block() == *block,
            it.position() == 0,
    {
        BlockIterator { block, idx: 0 }
    }

    /// Creates a block iterator and seeks to the first entry.
    ///
    /// The block must have a first key.
    pub fn create_and_seek_to_first(block: Arc<Block>) -> (it: Self)
        requires
            field_fits(block.data@, 0),
        ensures
            it.block() == *block,
            it.position() == 0,
    {
        Self::new(block)
    }

    /// Creates a block iterator and seeks to the first entry whose key is not less than `key`;
    /// there is no current entry if all keys are less.
    pub fn create_and_seek_to_key(block: Arc<Block>, key: KeySlice) -> (it: Self)
        requires
            block.offsets@.len() > 0,
            block.has_keys(),
        ensures
            it.block() == *block,
            it.position() == border(block.keys(), key@),
            borders_at(block.keys(), key@, it.position()),
            block.sorted() ==> splits_at(block.keys(), key@, it.position()),
            (forall|i: int, j: int|
                0 <= i < j < block.offsets@.len() ==> !key_lt(
                    #[trigger] block.key_at(j),
                    #[trigger] block.key_at(i),
                )) ==> {
                &&& 0 <= it.position() <= block.offsets@.len()
                &&& forall|i: int|
                    0 <= i < it.position() ==> key_lt(#[trigger] block.key_at(i), key@)
                &&& forall|i: int|
                    it.position() <= i < block.offsets@.len() ==> !key_lt(
                        #[trigger] block.key_at(i),
                        key@,
                    )
            },
    {
        let mut it = Self::new(block);
        it.seek_to_key(key);
        it
    }

    /// Returns the key of the current entry.
    pub fn key(&self) -> (key: KeySlice<'_>)
        requires
            self.at_entry() ==> self.block().has_key(self.position()),
        ensures
            key@ == self.current_key(),
            self.position() >= self.block().offsets@.len() ==> key@.len() == 0,
            self.position() < self.block().offsets@.len() ==> ({
                let data = self.block().data@;
                let start = self.block().offsets@[self.position()] as int;
                key@ == data.subrange(
                    start + 2,
                    start + 2 + 0x100 * data[start] + data[start + 1],
                )
            }),
    {
        proof {
            if self.at_entry() {
                law_entry_lies_at_its_offset(self.block(), self.position());
            }
        }
        if self.idx >= self.block.offsets.len() {
            return Key::from_slice(&[]);
        }
        let offset: usize = self.block.offsets[self.idx] as usize;
        Key::from_slice(read_key(self.block.data.as_slice(), offset))
    }

    /// Returns the value of the current entry.
    pub fn value(&self) -> (value: &[u8])
        requires
            self.at_entry() ==> self.block().has_value(self.position()),
        ensures
            value@ == self.current_value(),
            self.position() >= self.block().offsets@.len() ==> value@.len() == 0,
            self.position() < self.block().offsets@.len() ==> ({
                let data = self.block().data@;
                let start = self.block().offsets@[self.position()] as int;
                let middle = start + 2 + 0x100 * data[start] + data[start + 1];
                value@ == data.subrange(
                    middle + 2,
                    middle + 2 + 0x100 * data[middle] + data[middle + 1],
                )
            }),
    {
        proof {
            if self.at_entry() {
                law_entry_lies_at_its_offset(self.block(), self.position());
            }
        }
        if self.idx >= self.block.offsets.len() {
            return &[];
        }
        let offset: usize = self.block.offsets[self.idx] as usize;
        read_value(self.block.data.as_slice(), offset)
    }

    /// Returns true if the iterator is valid: it is at an entry, and the key is not empty.
    pub fn is_valid(&self) -> (r: bool)
        requires
            self.at_entry() ==> self.block().has_key(self.position()),
        ensures
            r == (self.current_key().len() > 0),
            r <==> self.position() < self.block().offsets@.len() && ({
                let data = self.block().data@;
                let start = self.block().offsets@[self.position()] as int;
                0x100 * data[start] + data[start + 1] > 0
            }),
    {
        proof {
            if self.at_entry() {
                law_entry_lies_at_its_offset(self.block(), self.position());
            }
        }
        !self.key().is_empty()
    }

    /// Seeks to the first key in the block.
    pub fn seek_to_first(&mut self)
        ensures
            final(self).block() == old(self).block(),
            final(self).position() == position_after(
                old(self).block(),
                old(self).position(),
                Move::First,
            ),
            final(self).position() == 0,
    {
        self.idx = 0;
    }

    /// Moves to the next key in the block.
    pub fn next(&mut self)
        requires
            old(self).position() < usize::MAX,
        ensures
            final(self).block() == old(self).block(),
            final(self).position() == position_after(
                old(self).block(),
                old(self).position(),
                Move::Next,
            ),
            final(self).position() == old(self).position() + 1,
    {
        self.idx += 1;
    }

    /// Seeks to the first entry whose key is not less than `key`; there is no current entry if all
    /// keys are less.
    ///
    /// That it is the first one is stated of blocks whose entries are sorted. In other blocks it is
    /// the one that a search by halving comes to.
    pub fn seek_to_key(&mut self, key: KeySlice)
        requires
            old(self).block().offsets@.len() > 0,
            old(self).block().has_keys(),
        ensures
            final(self).block() == old(self).block(),
            final(self).position() == position_after(
                old(self).block(),
                old(self).position(),
                Move::Key(key@),
            ),
            final(self).position() == border(old(self).block().keys(), key@),
            borders_at(old(self).block().keys(), key@, final(self).position()),
            old(self).block().sorted() ==> splits_at(
                old(self).block().keys(),
                key@,
                final(self).position(),
            ),
            (forall|i: int, j: int|
                0 <= i < j < old(self).block().offsets@.len() ==> !key_lt(
                    #[trigger] old(self).block().key_at(j),
                    #[trigger] old(self).block().key_at(i),
                )) ==> {
                &&& 0 <= final(self).position() <= old(self).block().offsets@.len()
                &&& forall|i: int|
                    0 <= i < final(self).position() ==> key_lt(
                        #[trigger] old(self).block().key_at(i),
                        key@,
                    )
                &&& forall|i: int|
                    final(self).position() <= i < old(self).block().offsets@.len() ==> !key_lt(
                        #[trigger] old(self).block().key_at(i),
                        key@,
                    )
            },
    {
        let ghost keys = self.block().keys();
        let mut lo: usize = 0;
        let mut hi: usize = self.block.offsets.len();
        while lo < hi
            invariant
                self.block() == old(self).block(),
                self.block().has_keys(),
                keys == self.block().keys(),
                lo <= hi <= keys.len(),
                border(keys, key@) == border_between(keys, key@, lo as int, hi as int),
            decreases hi - lo,
        {
            let mid: usize = lo + (hi - lo) / 2;
            assert(self.block().has_key(mid as int));
            let offset: usize = self.block.offsets[mid] as usize;
            if key_less(read_key(self.block.data.as_slice(), offset), key.raw_ref()) {
                lo = mid + 1;
            } else {
                hi = mid;
            }
        }
        self.idx = lo;
        proof {
            law_halving_finds_the_border(keys, key@);
            law_seek_is_to_the_first_key_not_less(self.block(), key@);
        }
    }
}

/// On a block that was built of `entries`, the iterator shows entry `i` at position `i` and nothing
/// behind the last one, and what it needs to read an entry is there.
pub proof fn law_iterator_shows_the_entries(it: BlockIterator, entries: Seq<(Seq<u8>, Seq<u8>)>)
    requires
        it.block().built_of(entries),
    ensures
        it.at_entry() <==> it.position() < entries.len(),
        it.at_entry() ==> {
            &&& it.block().has_key(it.position())
            &&& it.block().has_value(it.position())
            &&& it.current_key() == entries[it.position()].0
            &&& it.current_value() == entries[it.position()].1
        },
        !it.at_entry() ==> it.current_key().len() == 0 && it.current_value().len() == 0,
        it.block().has_keys(),
{
    assert forall|i: int| 0 <= i < entries.len() implies #[trigger] it.block().has_key(i) by {
        law_block_gives_back(it.block(), entries, i);
    }
    if it.at_entry() {
        law_block_gives_back(it.block(), entries, it.position());
    }
}

/// The position of an iterator is an index.
pub proof fn law_position_is_an_index(it: BlockIterator)
    ensures
        0 <= it.position() <= usize::MAX,
{
}

/// Iterators at the same position of the same block show the same, now and after the same calls.
pub proof fn law_iterator_is_its_position(a: BlockIterator, b: BlockIterator, calls: Seq<Move>)
    requires
        a.block() == b.block(),
        a.position() == b.position(),
    ensures
        a.current_key() == b.current_key(),
        a.current_value() == b.current_value(),
        ({
            let p = position_after_all(a.block(), a.position(), calls);
            let q = position_after_all(b.block(), b.position(), calls);
            &&& p == q
            &&& key_shown(a.block(), p) == key_shown(b.block(), q)
            &&& value_shown(a.block(), p) == value_shown(b.block(), q)
        }),
{
}

/// After `seek_to_first`, any further calls lead where they lead a new iterator that was created at
/// the first entry, wherever the iterator was before and whether the block is sorted or not.
pub proof fn law_seek_to_first_starts_over(block: Block, p: int, calls: Seq<Move>)
    ensures
        position_after_all(block, p, seq![Move::First] + calls) == position_after_all(
            block,
            0,
            calls,
        ),
{
    assert((seq![Move::First] + calls).drop_first() == calls);
}

/// After `seek_to_key`, any further calls lead where they lead a new iterator that was created at
/// that key, wherever the iterator was before and whether the block is sorted or not.
pub proof fn law_seek_to_key_leaves_no_trace(
    block: Block,
    p: int,
    key: Seq<u8>,
    calls: Seq<Move>,
)
    ensures
        position_after_all(block, p, seq![Move::Key(key)] + calls) == position_after_all(
            block,
            border(block.keys(), key),
            calls,
        ),
{
    assert((seq![Move::Key(key)] + calls).drop_first() == calls);
}

/// In a block whose keys are sorted, a seek leads to the first entry whose key is not less, and
/// behind the last entry if all keys are less.
pub proof fn law_seek_is_to_the_first_key_not_less(block: Block, key: Seq<u8>)
    ensures
        (forall|i: int, j: int|
            0 <= i < j < block.offsets@.len() ==> !key_lt(
                #[trigger] block.key_at(j),
                #[trigger] block.key_at(i),
            )) ==> ({
            let p = border(block.keys(), key);
            &&& 0 <= p <= block.offsets@.len()
            &&& forall|i: int| 0 <= i < p ==> key_lt(#[trigger] block.key_at(i), key)
            &&& forall|i: int|
                p <= i < block.offsets@.len() ==> !key_lt(#[trigger] block.key_at(i), key)
        }),
{
    let keys = block.keys();
    let p = border(keys, key);
    if forall|i: int, j: int|
        0 <= i < j < block.offsets@.len() ==> !key_lt(
            #[trigger] block.key_at(j),
            #[trigger] block.key_at(i),
        ) {
        law_keys_of_a_block(block);
        assert forall|i: int, j: int| 0 <= i < j < keys.len() implies !key_lt(
            #[trigger] keys[j],
            #[trigger] keys[i],
        ) by {
            assert(!key_lt(block.key_at(j), block.key_at(i)));
        }
        law_border_is_the_first_key_not_less(keys, key);
        assert forall|i: int| 0 <= i < p implies key_lt(#[trigger] block.key_at(i), key) by {
            assert(keys[i] == block.key_at(i));
        }
        assert forall|i: int| p <= i < block.offsets@.len() implies !key_lt(
            #[trigger] block.key_at(i),
            key,
        ) by {
            assert(keys[i] == block.key_at(i));
        }
    }
}

/// In a sorted block, seeking to a key that the block has leads to its first entry with that key.
pub proof fn law_seek_finds_the_key(keys: Seq<Seq<u8>>, key: Seq<u8>, p: int, i: int)
    requires
        keys_sorted(keys),
        splits_at(keys, key, p),
        0 <= i < keys.len(),
        keys[i] == key,
    ensures
        p <= i,
        keys[p] == key,
        forall|j: int| 0 <= j < p ==> keys[j] != key,
{
    law_key_order_is_total(key, key);
    if p < i {
        law_key_order_is_total(keys[p], key);
    }
}

} // verus!
