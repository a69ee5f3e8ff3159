//! The table in memory that takes the writes.

use crate::error::StorageError;
use crate::key::{border, border_between, key_less, key_lt, keys_increase, splits_at};
use crate::key::{
    law_halving_finds_the_border, law_increasing_keys_are_sorted, law_key_order_is_total,
};
use vstd::prelude::*;

verus! {

/// One end of a range of keys.
#[derive(Debug, PartialEq, Eq)]
pub enum Bound<T> {
    /// The range ends with this key.
    Included(T),
    /// The range ends just short of this key.
    Excluded(T),
    /// The range does not end.
    Unbounded,
}

impl<'a> Bound<&'a [u8]> {
    /// Whether `key` lies in a range that has this as its lower end.
    pub open spec fn admits_above(self, key: Seq<u8>) -> bool {
        match self {
            Bound::Included(bound) => !key_lt(key, bound@),
            Bound::Excluded(bound) => key_lt(bound@, key),
            Bound::Unbounded => true,
        }
    }

    /// Whether `key` lies in a range that has this as its upper end.
    pub open spec fn admits_below(self, key: Seq<u8>) -> bool {
        match self {
            Bound::Included(bound) => !key_lt(bound@, key),
            Bound::Excluded(bound) => key_lt(key, bound@),
            Bound::Unbounded => true,
        }
    }
}

/// A key and the value that was last put for it.
struct MemEntry {
    key: Vec<u8>,
    value: Vec<u8>,
}

/// A sorted table of keys and values.
pub struct MemTable {
    /// The entries, sorted by their keys.
    entries: Vec<MemEntry>,
    id: usize,
}

/// The pairs of entries.
spec fn pairs(entries: Seq<MemEntry>) -> Seq<(Seq<u8>, Seq<u8>)> {
    Seq::new(entries.len(), |i: int| (entries[i].key@, entries[i].value@))
}

/// The keys of pairs.
pub open spec fn keys_of(pairs: Seq<(Seq<u8>, Seq<u8>)>) -> Seq<Seq<u8>> {
    Seq::new(pairs.len(), |i: int| pairs[i].0)
}

/// The map that pairs make up, if no key is in two of them.
pub open spec fn map_of(pairs: Seq<(Seq<u8>, Seq<u8>)>) -> Map<Seq<u8>, Seq<u8>> {
    Map::new(
        |key: Seq<u8>| keys_of(pairs).contains(key),
        |key: Seq<u8>| pairs[keys_of(pairs).index_of(key)].1,
    )
}

impl View for MemTable {
    type V = Map<Seq<u8>, Seq<u8>>;

    closed spec fn view(&self) -> Map<Seq<u8>, Seq<u8>> {
        map_of(pairs(self.entries@))
    }
}

/// Pairs with increasing keys hold each of their keys once.
proof fn lemma_map_of(pairs: Seq<(Seq<u8>, Seq<u8>)>, i: int)
    requires
        keys_increase(keys_of(pairs)),
        0 <= i < pairs.len(),
    ensures
        map_of(pairs).contains_key(pairs[i].0),
        map_of(pairs)[pairs[i].0] == pairs[i].1,
{
    let keys = keys_of(pairs);
    let j = keys.index_of(pairs[i].0);
    assert(keys[i] == pairs[i].0);
    assert(keys.contains(pairs[i].0));
    law_key_order_is_total(keys[i], keys[j]);
}

/// Replacing the value of a key in the pairs replaces it in the map.
proof fn lemma_map_of_update(pairs: Seq<(Seq<u8>, Seq<u8>)>, p: int, pair: (Seq<u8>, Seq<u8>))
    requires
        keys_increase(keys_of(pairs)),
        0 <= p < pairs.len(),
        pairs[p].0 == pair.0,
    ensures
        keys_increase(keys_of(pairs.update(p, pair))),
        map_of(pairs.update(p, pair)) == map_of(pairs).insert(pair.0, pair.1),
{
    let after = pairs.update(p, pair);
    let keys = keys_of(pairs);
    assert(keys_of(after) == keys);
    lemma_map_of(after, p);
    lemma_map_of(pairs, p);
    assert forall|key: Seq<u8>| keys.contains(key) && key != pair.0 implies map_of(after)[key]
        == map_of(pairs)[key] by {
        assert(keys[keys.index_of(key)] == key);
    }
    assert(map_of(after) == map_of(pairs).insert(pair.0, pair.1));
}

/// Inserting a pair where its key belongs inserts it into the map.
proof fn lemma_map_of_insert(pairs: Seq<(Seq<u8>, Seq<u8>)>, p: int, pair: (Seq<u8>, Seq<u8>))
    requires
        keys_increase(keys_of(pairs)),
        splits_at(keys_of(pairs), pair.0, p),
        !map_of(pairs).contains_key(pair.0),
    ensures
        keys_increase(keys_of(pairs.insert(p, pair))),
        map_of(pairs.insert(p, pair)) == map_of(pairs).insert(pair.0, pair.1),
{
    let after = pairs.insert(p, pair);
    let keys = keys_of(pairs);
    let new_keys = keys_of(after);
    assert(new_keys == keys.insert(p, pair.0));
    assert forall|i: int, j: int| 0 <= i < j < new_keys.len() implies key_lt(
        #[trigger] new_keys[i],
        #[trigger] new_keys[j],
    ) by {
        if i == p {
            assert(!key_lt(keys[j - 1], pair.0));
            assert(keys.contains(keys[j - 1]));
            law_key_order_is_total(keys[j - 1], pair.0);
        } else if j == p {
            assert(key_lt(keys[i], pair.0));
        } else {
            let old_i = if i < p { i } else { i - 1 };
            let old_j = if j < p { j } else { j - 1 };
            assert(key_lt(keys[old_i], keys[old_j]));
        }
    }
    lemma_map_of(after, p);
    assert(after[p] == pair);
    assert forall|key: Seq<u8>| key != pair.0 implies {
        &&& #[trigger] new_keys.contains(key) == keys.contains(key)
        &&& keys.contains(key) ==> map_of(after)[key] == map_of(pairs)[key]
    } by {
        if keys.contains(key) {
            let i = keys.index_of(key);
            let new_i = if i < p { i } else { i + 1 };
            assert(new_keys[new_i] == key);
            assert(after[new_i] == pairs[i]);
            lemma_map_of(after, new_i);
            lemma_map_of(pairs, i);
        }
        if new_keys.contains(key) {
            let i = new_keys.index_of(key);
            let old_i = if i < p { i } else { i - 1 };
            assert(keys[old_i] == key);
        }
    }
    assert(map_of(after) == map_of(pairs).insert(pair.0, pair.1));
}

/// Whether `listed` holds what `map` has in a range of keys, and nothing else, in the order of the
/// keys and each key once.
pub open spec fn lists(
    listed: Seq<(Seq<u8>, Seq<u8>)>,
    map: Map<Seq<u8>, Seq<u8>>,
    lower: Bound<&[u8]>,
    upper: Bound<&[u8]>,
) -> bool {
    &&& keys_increase(keys_of(listed))
    &&& forall|i: int|
        0 <= i < listed.len() ==> {
            &&& map.contains_pair((#[trigger] listed[i]).0, listed[i].1)
            &&& lower.admits_above(listed[i].0)
            &&& upper.admits_below(listed[i].0)
        }
    &&& forall|key: Seq<u8>|
        #[trigger]
        map.contains_key(key) && lower.admits_above(key) && upper.admits_below(key)
            ==> keys_of(listed).contains(key)
}

/// The pairs between the two ends of a range are what the map has in it.
proof fn lemma_subrange_lists(
    pairs: Seq<(Seq<u8>, Seq<u8>)>,
    pos: int,
    end: int,
    lower: Bound<&[u8]>,
    upper: Bound<&[u8]>,
)
    requires
        keys_increase(keys_of(pairs)),
        0 <= pos <= end <= pairs.len(),
        forall|i: int|
            0 <= i < pairs.len() ==> (pos <= i < end <==> lower.admits_above(
                (#[trigger] pairs[i]).0,
            ) && upper.admits_below(pairs[i].0)),
    ensures
        lists(pairs.subrange(pos, end), map_of(pairs), lower, upper),
{
    let listed = pairs.subrange(pos, end);
    let map = map_of(pairs);
    let keys = keys_of(pairs);
    assert forall|i: int, j: int| 0 <= i < j < listed.len() implies key_lt(
        #[trigger] keys_of(listed)[i],
        #[trigger] keys_of(listed)[j],
    ) by {
        assert(key_lt(keys[pos + i], keys[pos + j]));
    }
    assert forall|i: int| 0 <= i < listed.len() implies {
        &&& map.contains_pair((#[trigger] listed[i]).0, listed[i].1)
        &&& lower.admits_above(listed[i].0)
        &&& upper.admits_below(listed[i].0)
    } by {
        assert(listed[i] == pairs[pos + i]);
        lemma_map_of(pairs, pos + i);
    }
    assert forall|key: Seq<u8>| #[trigger]
        map.contains_key(key) && lower.admits_above(key) && upper.admits_below(
            key,
        ) implies keys_of(listed).contains(key) by {
        let i = keys.index_of(key);
        assert(pairs[i].0 == key);
        assert(keys_of(listed)[i - pos] == key);
    }
}

/// A vector with these bytes.
fn copied(bytes: &[u8]) -> (v: Vec<u8>)
    ensures
        v@ == bytes@,
{
    let mut v: Vec<u8> = Vec::new();
    v.extend_from_slice(bytes);
    assert(v@ == bytes@);
    v
}

impl MemTable {
    /// The entries are sorted by their keys, and no key is in two of them.
    pub closed spec fn wf(self) -> bool {
        keys_increase(keys_of(pairs(self.entries@)))
    }

    /// The number that the table was created with.
    pub closed spec fn spec_id(self) -> usize {
        self.id
    }

    /// Creates an empty table.
    pub fn create(id: usize) -> (table: Self)
        ensures
            table.wf(),
            table@ == Map::<Seq<u8>, Seq<u8>>::empty(),
            table.spec_id() == id,
    {
        MemTable { entries: Vec::new(), id }
    }

    /// The number that the table was created with.
    pub fn id(&self) -> (id: usize)
        ensures
            id == self.spec_id(),
    {
        self.id
    }

    /// Where a key is, or where it would have to be inserted.
    fn search(&self, key: &[u8]) -> (p: usize)
        requires
            self.wf(),
        ensures
            splits_at(keys_of(pairs(self.entries@)), key@, p as int),
    {
        let ghost keys = keys_of(pairs(self.entries@));
        let mut lo: usize = 0;
        let mut hi: usize = self.entries.len();
        while lo < hi
            invariant
                keys == keys_of(pairs(self.entries@)),
                lo <= hi <= keys.len(),
                border(keys, key@) == border_between(keys, key@, lo as int, hi as int),
            decreases hi - lo,
        {
            let mid: usize = lo + (hi - lo) / 2;
            if key_less(self.entries[mid].key.as_slice(), key) {
                lo = mid + 1;
            } else {
                hi = mid;
            }
        }
        proof {
            law_increasing_keys_are_sorted(keys);
            law_halving_finds_the_border(keys, key@);
        }
        lo
    }

    /// Whether the key found at `p` is the one that was searched.
    fn holds_at(&self, p: usize, key: &[u8]) -> (r: bool)
        requires
            self.wf(),
            splits_at(keys_of(pairs(self.entries@)), key@, p as int),
        ensures
            r == self@.contains_key(key@),
            r ==> p < self.entries@.len() && self.entries@[p as int].key@ == key@
                && self.entries@[p as int].value@ == self@[key@],
    {
        let ghost all = pairs(self.entries@);
        let ghost keys = keys_of(all);
        if p < self.entries.len() && !key_less(key, self.entries[p].key.as_slice()) {
            proof {
                assert(!key_lt(keys[p as int], key@));
                law_key_order_is_total(keys[p as int], key@);
                lemma_map_of(all, p as int);
            }
            true
        } else {
            proof {
                if keys.contains(key@) {
                    let i = keys.index_of(key@);
                    law_key_order_is_total(key@, key@);
                    assert(p <= i);
                    assert(p < i ==> key_lt(keys[p as int], keys[i]));
                    assert(false);
                }
            }
            false
        }
    }

    /// The value that was last put for `key`, if any was.
    pub fn get(&self, key: &[u8]) -> (r: Option<&[u8]>)
        requires
            self.wf(),
        ensures
            r is Some <==> self@.contains_key(key@),
            r matches Some(value) ==> value@ == self@[key@],
    {
        let p: usize = self.search(key);
        if self.holds_at(p, key) {
            Some(self.entries[p].value.as_slice())
        } else {
            None
        }
    }

    /// Puts `value` for `key`, in place of what was put for it before.
    pub fn put(&mut self, key: &[u8], value: &[u8]) -> (r: Result<(), StorageError>)
        requires
            old(self).wf(),
        ensures
            r is Ok,
            final(self).wf(),
            final(self)@ == old(self)@.insert(key@, value@),
            final(self).spec_id() == old(self).spec_id(),
    {
        let p: usize = self.search(key);
        let found: bool = self.holds_at(p, key);
        let ghost before = pairs(self.entries@);
        let entry = MemEntry { key: copied(key), value: copied(value) };
        let ghost pair = (key@, value@);
        if found {
            self.entries[p] = entry;
            proof {
                let after = pairs(self.entries@);
                assert(after == before.update(p as int, pair));
                assert(keys_of(after) == keys_of(before));
                lemma_map_of_update(before, p as int, pair);
            }
        } else {
            self.entries.insert(p, entry);
            proof {
                let after = pairs(self.entries@);
                assert(after == before.insert(p as int, pair));
                lemma_map_of_insert(before, p as int, pair);
            }
        }
        Ok(())
    }

    /// Where the first key after `key` is, or would have to be inserted.
    fn search_after(&self, key: &[u8]) -> (p: usize)
        requires
            self.wf(),
        ensures
            p <= self.entries@.len(),
            forall|i: int|
                0 <= i < self.entries@.len() ==> (i < p <==> !key_lt(
                    key@,
                    (#[trigger] self.entries@[i]).key@,
                )),
    {
        let ghost keys = keys_of(pairs(self.entries@));
        let p: usize = self.search(key);
        let found: bool = self.holds_at(p, key);
        assert(found ==> p < self.entries.len());
        let after: usize = if found { p + 1 } else { p };
        proof {
            assert forall|i: int| 0 <= i < self.entries@.len() implies (i < after <==> !key_lt(
                key@,
                (#[trigger] self.entries@[i]).key@,
            )) by {
                assert(keys[i] == self.entries@[i].key@);
                assert(i < p <==> key_lt(keys[i], key@));
                law_key_order_is_total(key@, keys[i]);
                if p < i && found {
                    assert(key_lt(keys[p as int], keys[i]));
                }
                if !found {
                    assert(keys.contains(keys[i]));
                }
            }
        }
        after
    }

    /// Goes over the entries whose keys lie in the given range, in the order of their keys.
    pub fn scan(&self, lower: Bound<&[u8]>, upper: Bound<&[u8]>) -> (it: MemTableIterator<'_>)
        requires
            self.wf(),
        ensures
            it.wf(),
            lists(it@, self@, lower, upper),
            forall|i: int, j: int|
                0 <= i < j < it@.len() ==> key_lt((#[trigger] it@[i]).0, (#[trigger] it@[j]).0),
            forall|i: int|
                0 <= i < it@.len() ==> self@.contains_pair((#[trigger] it@[i]).0, it@[i].1),
            forall|i: int|
                #![trigger it@[i]]
                0 <= i < it@.len() ==> match lower {
                    Bound::Included(bound) => it@[i].0 == bound@ || key_lt(bound@, it@[i].0),
                    Bound::Excluded(bound) => it@[i].0 != bound@ && !key_lt(it@[i].0, bound@),
                    Bound::Unbounded => true,
                },
            forall|i: int|
                #![trigger it@[i]]
                0 <= i < it@.len() ==> match upper {
                    Bound::Included(bound) => it@[i].0 == bound@ || key_lt(it@[i].0, bound@),
                    Bound::Excluded(bound) => it@[i].0 != bound@ && !key_lt(bound@, it@[i].0),
                    Bound::Unbounded => true,
                },
            forall|key: Seq<u8>| #[trigger]
                self@.contains_key(key) && (match lower {
                    Bound::Included(bound) => key == bound@ || key_lt(bound@, key),
                    Bound::Excluded(bound) => key != bound@ && !key_lt(key, bound@),
                    Bound::Unbounded => true,
                }) && (match upper {
                    Bound::Included(bound) => key == bound@ || key_lt(key, bound@),
                    Bound::Excluded(bound) => key != bound@ && !key_lt(bound@, key),
                    Bound::Unbounded => true,
                }) ==> exists|i: int| 0 <= i < it@.len() && (#[trigger] it@[i]).0 == key,
    {
        let pos: usize = match lower {
            Bound::Included(key) => self.search(key),
            Bound::Excluded(key) => self.search_after(key),
            Bound::Unbounded => 0,
        };
        let stop: usize = match upper {
            Bound::Included(key) => self.search_after(key),
            Bound::Excluded(key) => self.search(key),
            Bound::Unbounded => self.entries.len(),
        };
        let end: usize = if stop < pos { pos } else { stop };
        proof {
            let all = pairs(self.entries@);
            let keys = keys_of(all);
            assert forall|i: int| 0 <= i < all.len() implies {
                &&& pos <= i <==> lower.admits_above((#[trigger] all[i]).0)
                &&& i < stop <==> upper.admits_below(all[i].0)
            } by {
                assert(keys[i] == all[i].0);
                assert(self.entries@[i].key@ == all[i].0);
            }
            lemma_subrange_lists(all, pos as int, end as int, lower, upper);
        }
        let it = MemTableIterator { entries: &self.entries, pos, end };
        proof {
            law_listing_of_a_range(it@, self@, lower, upper);
        }
        it
    }
}

/// Goes over entries of a table.
pub struct MemTableIterator<'a> {
    entries: &'a Vec<MemEntry>,
    pos: usize,
    end: usize,
}

impl<'a> View for MemTableIterator<'a> {
    type V = Seq<(Seq<u8>, Seq<u8>)>;

    /// The entries that are still to come, the current one first.
    closed spec fn view(&self) -> Seq<(Seq<u8>, Seq<u8>)> {
        pairs(self.entries@).subrange(self.pos as int, self.end as int)
    }
}

impl<'a> MemTableIterator<'a> {
    /// The entries to come are entries of the table.
    pub closed spec fn wf(self) -> bool {
        self.pos <= self.end <= self.entries@.len()
    }

    /// Whether there is a current entry.
    pub fn is_valid(&self) -> (r: bool)
        requires
            self.wf(),
        ensures
            r == (self@.len() > 0),
    {
        self.pos < self.end
    }

    /// The key of the current entry; empty if there is none.
    pub fn key(&self) -> (key: &[u8])
        requires
            self.wf(),
        ensures
            key@ == (if self@.len() > 0 {
                self@[0].0
            } else {
                Seq::empty()
            }),
    {
        if self.pos < self.end {
            self.entries[self.pos].key.as_slice()
        } else {
            &[]
        }
    }

    /// The value of the current entry; empty if there is none.
    pub fn value(&self) -> (value: &[u8])
        requires
            self.wf(),
        ensures
            value@ == (if self@.len() > 0 {
                self@[0].1
            } else {
                Seq::empty()
            }),
    {
        if self.pos < self.end {
            self.entries[self.pos].value.as_slice()
        } else {
            &[]
        }
    }

    /// Moves to the next entry, if there is a current one.
    pub fn next(&mut self) -> (r: Result<(), StorageError>)
        requires
            old(self).wf(),
        ensures
            r is Ok,
            final(self).wf(),
            final(self)@ == (if old(self)@.len() > 0 {
                old(self)@.drop_first()
            } else {
                old(self)@
            }),
    {
        if self.pos < self.end {
            self.pos += 1;
        }
        assert(old(self)@.len() > 0 ==> self@ == old(self)@.drop_first());
        Ok(())
    }
}

/// What was put for a key is what is there for it, and what is there for other keys stays.
pub proof fn law_put_is_found(
    table: Map<Seq<u8>, Seq<u8>>,
    key: Seq<u8>,
    value: Seq<u8>,
    other: Seq<u8>,
)
    ensures
        table.insert(key, value).contains_pair(key, value),
        other != key ==> {
            &&& table.insert(key, value).contains_key(other) == table.contains_key(other)
            &&& table.contains_key(other) ==> table.insert(key, value)[other] == table[other]
        },
{
}

/// Of two values put for a key, one after the other, only the second one leaves a trace.
pub proof fn law_last_put_wins(
    table: Map<Seq<u8>, Seq<u8>>,
    key: Seq<u8>,
    first: Seq<u8>,
    second: Seq<u8>,
)
    ensures
        table.insert(key, first).insert(key, second) == table.insert(key, second),
{
    assert(table.insert(key, first).insert(key, second) == table.insert(key, second));
}

/// Two listings of the same range agree as far as the first one goes.
proof fn lemma_lists_agree(
    a: Seq<(Seq<u8>, Seq<u8>)>,
    b: Seq<(Seq<u8>, Seq<u8>)>,
    map: Map<Seq<u8>, Seq<u8>>,
    lower: Bound<&[u8]>,
    upper: Bound<&[u8]>,
    n: int,
)
    requires
        lists(a, map, lower, upper),
        lists(b, map, lower, upper),
        0 <= n <= a.len(),
    ensures
        n <= b.len(),
        forall|i: int| 0 <= i < n ==> a[i] == b[i],
    decreases n,
{
    if n > 0 {
        let last = n - 1;
        let keys_a = keys_of(a);
        let keys_b = keys_of(b);
        lemma_lists_agree(a, b, map, lower, upper, last);
        assert(a[last].0 == keys_a[last]);
        assert(keys_b.contains(a[last].0));
        let in_b = keys_b.index_of(a[last].0);
        law_key_order_is_total(a[last].0, a[last].0);
        if in_b < last {
            assert(key_lt(keys_a[in_b], keys_a[last]));
        }
        assert(b[last].0 == keys_b[last]);
        assert(map.contains_key(b[last].0));
        assert(keys_a.contains(b[last].0));
        let in_a = keys_a.index_of(b[last].0);
        law_key_order_is_total(b[last].0, b[last].0);
        if in_a < last {
            assert(key_lt(keys_b[in_a], keys_b[last]));
        }
        law_key_order_is_total(a[last].0, b[last].0);
        assert(in_b > last ==> key_lt(keys_b[last], keys_b[in_b]));
        assert(in_a > last ==> key_lt(keys_a[last], keys_a[in_a]));
        assert(a[last].0 == b[last].0);
    }
}

/// Which keys a range admits, by its two ends: an included end is in the range and an excluded one
/// is not.
pub proof fn law_ends_of_a_range(bound: &[u8], key: Seq<u8>)
    ensures
        Bound::Included(bound).admits_above(key) <==> key == bound@ || key_lt(bound@, key),
        Bound::Excluded(bound).admits_above(key) <==> key != bound@ && !key_lt(key, bound@),
        Bound::Included(bound).admits_below(key) <==> key == bound@ || key_lt(key, bound@),
        Bound::Excluded(bound).admits_below(key) <==> key != bound@ && !key_lt(bound@, key),
        Bound::<&[u8]>::Unbounded.admits_above(key),
        Bound::<&[u8]>::Unbounded.admits_below(key),
{
    law_key_order_is_total(bound@, key);
}

/// What a listing of a range is: increasing keys, each with its value, that lie between the two
/// ends of the range, and none that lies there is missing.
pub proof fn law_listing_of_a_range(
    listed: Seq<(Seq<u8>, Seq<u8>)>,
    map: Map<Seq<u8>, Seq<u8>>,
    lower: Bound<&[u8]>,
    upper: Bound<&[u8]>,
)
    ensures
        lists(listed, map, lower, upper) <==> {
            &&& forall|i: int, j: int|
                0 <= i < j < listed.len() ==> key_lt(
                    (#[trigger] listed[i]).0,
                    (#[trigger] listed[j]).0,
                )
            &&& forall|i: int|
                0 <= i < listed.len() ==> map.contains_pair((#[trigger] listed[i]).0, listed[i].1)
            &&& forall|i: int|
                #![trigger listed[i]]
                0 <= i < listed.len() ==> match lower {
                    Bound::Included(bound) => listed[i].0 == bound@ || key_lt(bound@, listed[i].0),
                    Bound::Excluded(bound) => listed[i].0 != bound@ && !key_lt(listed[i].0, bound@),
                    Bound::Unbounded => true,
                }
            &&& forall|i: int|
                #![trigger listed[i]]
                0 <= i < listed.len() ==> match upper {
                    Bound::Included(bound) => listed[i].0 == bound@ || key_lt(listed[i].0, bound@),
                    Bound::Excluded(bound) => listed[i].0 != bound@ && !key_lt(bound@, listed[i].0),
                    Bound::Unbounded => true,
                }
            &&& forall|key: Seq<u8>| #[trigger]
                map.contains_key(key) && (match lower {
                    Bound::Included(bound) => key == bound@ || key_lt(bound@, key),
                    Bound::Excluded(bound) => key != bound@ && !key_lt(key, bound@),
                    Bound::Unbounded => true,
                }) && (match upper {
                    Bound::Included(bound) => key == bound@ || key_lt(key, bound@),
                    Bound::Excluded(bound) => key != bound@ && !key_lt(bound@, key),
                    Bound::Unbounded => true,
                }) ==> exists|i: int| 0 <= i < listed.len() && (#[trigger] listed[i]).0 == key
        },
{
    let keys = keys_of(listed);
    assert forall|key: Seq<u8>|
        lower.admits_above(key) == (match lower {
            Bound::Included(bound) => key == bound@ || key_lt(bound@, key),
            Bound::Excluded(bound) => key != bound@ && !key_lt(key, bound@),
            Bound::Unbounded => true,
        }) && upper.admits_below(key) == (match upper {
            Bound::Included(bound) => key == bound@ || key_lt(key, bound@),
            Bound::Excluded(bound) => key != bound@ && !key_lt(bound@, key),
            Bound::Unbounded => true,
        }) by {
        match lower {
            Bound::Included(bound) => law_ends_of_a_range(bound, key),
            Bound::Excluded(bound) => law_ends_of_a_range(bound, key),
            Bound::Unbounded => {},
        }
        match upper {
            Bound::Included(bound) => law_ends_of_a_range(bound, key),
            Bound::Excluded(bound) => law_ends_of_a_range(bound, key),
            Bound::Unbounded => {},
        }
    }
    assert forall|key: Seq<u8>| keys.contains(key) <==> exists|i: int|
        0 <= i < listed.len() && (#[trigger] listed[i]).0 == key by {
        if keys.contains(key) {
            assert(listed[keys.index_of(key)].0 == key);
        }
        if exists|i: int| 0 <= i < listed.len() && (#[trigger] listed[i]).0 == key {
            let i = choose|i: int| 0 <= i < listed.len() && (#[trigger] listed[i]).0 == key;
            assert(keys[i] == key);
        }
    }
    assert(forall|i: int| 0 <= i < listed.len() ==> keys[i] == (#[trigger] listed[i]).0);
}

/// A listing up to an included key that is there, and not below the lower end, ends with that key.
pub proof fn law_included_upper_end_comes_last(
    listed: Seq<(Seq<u8>, Seq<u8>)>,
    map: Map<Seq<u8>, Seq<u8>>,
    lower: Bound<&[u8]>,
    bound: &[u8],
)
    requires
        lists(listed, map, lower, Bound::Included(bound)),
        map.contains_key(bound@),
        lower.admits_above(bound@),
    ensures
        listed.len() > 0,
        listed.last() == (bound@, map[bound@]),
{
    let last = listed.len() - 1;
    law_ends_of_a_range(bound, bound@);
    law_listing_of_a_range(listed, map, lower, Bound::Included(bound));
    let i = choose|i: int| 0 <= i < listed.len() && (#[trigger] listed[i]).0 == bound@;
    if i < last {
        assert(key_lt(listed[i].0, listed[last].0));
        law_key_order_is_total(listed[last].0, bound@);
    }
}

/// A listing from an included key that is there, and not above the upper end, starts with that key.
pub proof fn law_included_lower_end_comes_first(
    listed: Seq<(Seq<u8>, Seq<u8>)>,
    map: Map<Seq<u8>, Seq<u8>>,
    bound: &[u8],
    upper: Bound<&[u8]>,
)
    requires
        lists(listed, map, Bound::Included(bound), upper),
        map.contains_key(bound@),
        upper.admits_below(bound@),
    ensures
        listed.len() > 0,
        listed[0] == (bound@, map[bound@]),
{
    law_ends_of_a_range(bound, bound@);
    law_listing_of_a_range(listed, map, Bound::Included(bound), upper);
    let i = choose|i: int| 0 <= i < listed.len() && (#[trigger] listed[i]).0 == bound@;
    if i > 0 {
        assert(key_lt(listed[0].0, listed[i].0));
        law_key_order_is_total(listed[0].0, bound@);
    }
}

/// No listing holds an end that is excluded from its range.
pub proof fn law_excluded_end_is_not_listed(
    listed: Seq<(Seq<u8>, Seq<u8>)>,
    map: Map<Seq<u8>, Seq<u8>>,
    bound: &[u8],
    other: Bound<&[u8]>,
)
    requires
        lists(listed, map, Bound::Excluded(bound), other) || lists(
            listed,
            map,
            other,
            Bound::Excluded(bound),
        ),
    ensures
        forall|i: int| 0 <= i < listed.len() ==> (#[trigger] listed[i]).0 != bound@,
{
    law_listing_of_a_range(listed, map, Bound::Excluded(bound), other);
    law_listing_of_a_range(listed, map, other, Bound::Excluded(bound));
}

/// There is only one listing of a range.
pub proof fn law_listing_is_unique(
    a: Seq<(Seq<u8>, Seq<u8>)>,
    b: Seq<(Seq<u8>, Seq<u8>)>,
    map: Map<Seq<u8>, Seq<u8>>,
    lower: Bound<&[u8]>,
    upper: Bound<&[u8]>,
)
    requires
        lists(a, map, lower, upper),
        lists(b, map, lower, upper),
    ensures
        a == b,
{
    lemma_lists_agree(a, b, map, lower, upper, a.len() as int);
    lemma_lists_agree(b, a, map, lower, upper, b.len() as int);
}

} // verus!
