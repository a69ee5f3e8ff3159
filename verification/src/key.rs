//! Keys and their order.

use vstd::prelude::*;

verus! {

/// A key, held as a `T`.
#[derive(Debug, PartialEq, Eq)]
pub struct Key<T>(T);

/// A key that is borrowed.
pub type KeySlice<'a> = Key<&'a [u8]>;

impl<'a> View for Key<&'a [u8]> {
    type V = Seq<u8>;

    closed spec fn view(&self) -> Seq<u8> {
        self.0@
    }
}

impl<'a> Key<&'a [u8]> {
    /// The key with these bytes.
    pub fn from_slice(slice: &'a [u8]) -> (key: Self)
        ensures
            key@ == slice@,
    {
        Key(slice)
    }

    /// The bytes of the key.
    pub fn raw_ref(&self) -> (slice: &'a [u8])
        ensures
            slice@ == self@,
    {
        self.0
    }

    /// Whether the key has no bytes.
    pub fn is_empty(&self) -> (r: bool)
        ensures
            r == (self@.len() == 0),
    {
        self.0.is_empty()
    }
}

/// Whether key `a` comes before key `b`: keys are ordered by their first differing byte, and a key
/// comes before its extensions.
pub open spec fn key_lt(a: Seq<u8>, b: Seq<u8>) -> bool
    decreases b.len(),
{
    if b.len() == 0 {
        false
    } else if a.len() == 0 {
        true
    } else if a[0] != b[0] {
        a[0] < b[0]
    } else {
        key_lt(a.drop_first(), b.drop_first())
    }
}

/// Whether each key of a sequence comes before all later ones.
pub open spec fn keys_increase(keys: Seq<Seq<u8>>) -> bool {
    forall|i: int, j: int|
        0 <= i < j < keys.len() ==> key_lt(#[trigger] keys[i], #[trigger] keys[j])
}

/// Whether no key of a sequence comes after a later one.
pub open spec fn keys_sorted(keys: Seq<Seq<u8>>) -> bool {
    forall|i: int, j: int|
        0 <= i < j < keys.len() ==> !key_lt(#[trigger] keys[j], #[trigger] keys[i])
}

/// Of two different keys exactly one comes before the other; no key comes before itself.
pub proof fn law_key_order_is_total(a: Seq<u8>, b: Seq<u8>)
    ensures
        a == b ==> !key_lt(a, b),
        a != b ==> key_lt(a, b) != key_lt(b, a),
    decreases a.len(),
{
    if a.len() == 0 && b.len() == 0 {
        assert(a == b);
    } else if a.len() > 0 && b.len() > 0 && a[0] == b[0] {
        law_key_order_is_total(a.drop_first(), b.drop_first());
        assert(a == seq![a[0]] + a.drop_first());
        assert(b == seq![b[0]] + b.drop_first());
    }
}

/// A key comes before another if and only if they agree up to some byte, and there the first one
/// either ends or has the smaller byte.
pub proof fn law_key_order_is_by_bytes(a: Seq<u8>, b: Seq<u8>)
    ensures
        key_lt(a, b) <==> exists|i: int|
            0 <= i <= a.len() && i < b.len() && #[trigger] a.take(i) == b.take(i) && (i == a.len()
                || a[i] < b[i]),
{
    if key_lt(a, b) {
        let i = lemma_where_keys_part(a, b);
        assert(a.take(i) == b.take(i));
    }
    if exists|i: int|
        0 <= i <= a.len() && i < b.len() && #[trigger] a.take(i) == b.take(i) && (i == a.len()
            || a[i] < b[i]) {
        let i = choose|i: int|
            0 <= i <= a.len() && i < b.len() && #[trigger] a.take(i) == b.take(i) && (i == a.len()
                || a[i] < b[i]);
        lemma_parted_keys_are_ordered(a, b, i);
    }
}

/// Ordered keys agree up to some byte, where the first one ends or has the smaller byte.
proof fn lemma_where_keys_part(a: Seq<u8>, b: Seq<u8>) -> (i: int)
    requires
        key_lt(a, b),
    ensures
        0 <= i <= a.len(),
        i < b.len(),
        a.take(i) == b.take(i),
        i == a.len() || a[i] < b[i],
    decreases b.len(),
{
    if a.len() == 0 || a[0] != b[0] {
        assert(a.take(0) == b.take(0));
        0
    } else {
        let i = lemma_where_keys_part(a.drop_first(), b.drop_first());
        assert(a.take(i + 1) == seq![a[0]] + a.drop_first().take(i));
        assert(b.take(i + 1) == seq![b[0]] + b.drop_first().take(i));
        i + 1
    }
}

/// Keys that agree up to a byte, where the first one ends or has the smaller byte, are ordered.
proof fn lemma_parted_keys_are_ordered(a: Seq<u8>, b: Seq<u8>, i: int)
    requires
        0 <= i <= a.len(),
        i < b.len(),
        a.take(i) == b.take(i),
        i == a.len() || a[i] < b[i],
    ensures
        key_lt(a, b),
    decreases i,
{
    if i > 0 {
        assert(a[0] == a.take(i)[0]);
        assert(b[0] == b.take(i)[0]);
        assert(a.drop_first().take(i - 1) == a.take(i).drop_first());
        assert(b.drop_first().take(i - 1) == b.take(i).drop_first());
        lemma_parted_keys_are_ordered(a.drop_first(), b.drop_first(), i - 1);
    }
}

/// What sorted and increasing keys are, by pairs.
pub proof fn law_sorted_keys(keys: Seq<Seq<u8>>)
    ensures
        keys_sorted(keys) <==> forall|i: int, j: int|
            0 <= i < j < keys.len() ==> !key_lt(#[trigger] keys[j], #[trigger] keys[i]),
        keys_increase(keys) <==> forall|i: int, j: int|
            0 <= i < j < keys.len() ==> key_lt(#[trigger] keys[i], #[trigger] keys[j]),
{
}

/// Halving sorted keys finds the first key that does not come before `key`, and the end if there is
/// none.
pub proof fn law_border_is_the_first_key_not_less(keys: Seq<Seq<u8>>, key: Seq<u8>)
    requires
        forall|i: int, j: int|
            0 <= i < j < keys.len() ==> !key_lt(#[trigger] keys[j], #[trigger] keys[i]),
    ensures
        0 <= border(keys, key) <= keys.len(),
        forall|i: int| 0 <= i < border(keys, key) ==> key_lt(#[trigger] keys[i], key),
        forall|i: int| border(keys, key) <= i < keys.len() ==> !key_lt(#[trigger] keys[i], key),
{
    law_halving_finds_the_border(keys, key);
}

/// Halving finds a place with a smaller key, or none, before it and no smaller key behind it, in
/// keys of any order.
pub proof fn law_border_has_two_sides(keys: Seq<Seq<u8>>, key: Seq<u8>)
    ensures
        0 <= border(keys, key) <= keys.len(),
        border(keys, key) > 0 ==> key_lt(keys[border(keys, key) - 1], key),
        border(keys, key) < keys.len() ==> !key_lt(keys[border(keys, key)], key),
{
    law_halving_finds_the_border(keys, key);
}

/// Halving keys of any order starts with all of them. It looks at the middle one, rounded down,
/// and goes on behind it if it comes before `key`, and else in front of it, until none is left.
pub proof fn law_halving_looks_at_the_middle(
    keys: Seq<Seq<u8>>,
    key: Seq<u8>,
    lo: int,
    hi: int,
    mid: int,
)
    requires
        0 <= lo <= hi <= keys.len(),
        2 * mid <= lo + hi < 2 * mid + 2,
    ensures
        border(keys, key) == border_between(keys, key, 0, keys.len() as int),
        border_between(keys, key, lo, lo) == lo,
        lo < hi && key_lt(keys[mid], key) ==> border_between(keys, key, lo, hi) == border_between(
            keys,
            key,
            mid + 1,
            hi,
        ),
        lo < hi && !key_lt(keys[mid], key) ==> border_between(keys, key, lo, hi) == border_between(
            keys,
            key,
            lo,
            mid,
        ),
{
}

/// Increasing keys are sorted.
pub proof fn law_increasing_keys_are_sorted(keys: Seq<Seq<u8>>)
    requires
        keys_increase(keys),
    ensures
        keys_sorted(keys),
{
    assert forall|i: int, j: int| 0 <= i < j < keys.len() implies !key_lt(
        #[trigger] keys[j],
        #[trigger] keys[i],
    ) by {
        law_key_order_is_total(keys[i], keys[j]);
    }
}

/// What comes before a key comes before all that come after it.
pub proof fn law_key_order_is_transitive(a: Seq<u8>, b: Seq<u8>, c: Seq<u8>)
    requires
        key_lt(a, b),
        key_lt(b, c),
    ensures
        key_lt(a, c),
    decreases c.len(),
{
    if a.len() > 0 && a[0] == b[0] && b[0] == c[0] {
        law_key_order_is_transitive(a.drop_first(), b.drop_first(), c.drop_first());
    }
}

/// Whether the keys before `p` come before `key` and the keys from `p` on do not.
pub open spec fn splits_at(keys: Seq<Seq<u8>>, key: Seq<u8>, p: int) -> bool {
    &&& 0 <= p <= keys.len()
    &&& forall|i: int| 0 <= i < p ==> key_lt(#[trigger] keys[i], key)
    &&& forall|i: int| p <= i < keys.len() ==> !key_lt(#[trigger] keys[i], key)
}

/// Whether the key just before `p` comes before `key` and the key at `p` does not.
pub open spec fn borders_at(keys: Seq<Seq<u8>>, key: Seq<u8>, p: int) -> bool {
    &&& 0 <= p <= keys.len()
    &&& p > 0 ==> key_lt(keys[p - 1], key)
    &&& p < keys.len() ==> !key_lt(keys[p], key)
}

/// The border that is found by halving the keys from `lo` to `hi` again and again, each time going
/// on with the half behind the middle key if that key comes before `key`, and else with the other.
pub open spec fn border_between(keys: Seq<Seq<u8>>, key: Seq<u8>, lo: int, hi: int) -> int
    decreases hi - lo,
{
    let mid = lo + (hi - lo) / 2;
    if lo >= hi {
        lo
    } else if key_lt(keys[mid], key) {
        border_between(keys, key, mid + 1, hi)
    } else {
        border_between(keys, key, lo, mid)
    }
}

/// The border that is found by halving all keys.
pub open spec fn border(keys: Seq<Seq<u8>>, key: Seq<u8>) -> int {
    border_between(keys, key, 0, keys.len() as int)
}

/// Halving finds a border if there is one between the ends.
proof fn lemma_halving_borders(keys: Seq<Seq<u8>>, key: Seq<u8>, lo: int, hi: int)
    requires
        0 <= lo <= hi <= keys.len(),
        lo > 0 ==> key_lt(keys[lo - 1], key),
        hi < keys.len() ==> !key_lt(keys[hi], key),
    ensures
        borders_at(keys, key, border_between(keys, key, lo, hi)),
    decreases hi - lo,
{
    if lo < hi {
        let mid = lo + (hi - lo) / 2;
        if key_lt(keys[mid], key) {
            lemma_halving_borders(keys, key, mid + 1, hi);
        } else {
            lemma_halving_borders(keys, key, lo, mid);
        }
    }
}

/// Halving finds a border, and in sorted keys the place where they are split.
pub proof fn law_halving_finds_the_border(keys: Seq<Seq<u8>>, key: Seq<u8>)
    ensures
        borders_at(keys, key, border(keys, key)),
        keys_sorted(keys) ==> splits_at(keys, key, border(keys, key)),
{
    lemma_halving_borders(keys, key, 0, keys.len() as int);
    if keys_sorted(keys) {
        lemma_border_splits(keys, key, border(keys, key));
    }
}

/// Sorted keys are split where they border.
proof fn lemma_border_splits(keys: Seq<Seq<u8>>, key: Seq<u8>, p: int)
    requires
        keys_sorted(keys),
        borders_at(keys, key, p),
    ensures
        splits_at(keys, key, p),
{
    assert forall|i: int| 0 <= i < p implies key_lt(#[trigger] keys[i], key) by {
        let last = keys[p - 1];
        if i < p - 1 {
            law_key_order_is_total(keys[i], last);
            if key_lt(keys[i], last) {
                law_key_order_is_transitive(keys[i], last, key);
            }
        }
    }
    assert forall|i: int| p <= i < keys.len() implies !key_lt(#[trigger] keys[i], key) by {
        if p < i && key_lt(keys[i], key) {
            law_key_order_is_total(keys[p], keys[i]);
            if keys[p] != keys[i] {
                law_key_order_is_transitive(keys[p], keys[i], key);
            }
        }
    }
}

/// There is only one place where keys are split.
pub proof fn law_split_is_unique(keys: Seq<Seq<u8>>, key: Seq<u8>, p: int, q: int)
    requires
        splits_at(keys, key, p),
        splits_at(keys, key, q),
    ensures
        p == q,
{
    if p < q {
        assert(key_lt(keys[p], key));
    } else if q < p {
        assert(key_lt(keys[q], key));
    }
}

/// Whether key `a` comes before key `b`: they agree up to some byte, and there `a` ends or has the
/// smaller byte.
pub fn key_less(a: &[u8], b: &[u8]) -> (r: bool)
    ensures
        r == key_lt(a@, b@),
        r <==> exists|i: int|
            0 <= i <= a@.len() && i < b@.len() && #[trigger] a@.take(i) == b@.take(i) && (i
                == a@.len() || a@[i] < b@[i]),
{
    proof {
        law_key_order_is_by_bytes(a@, b@);
    }
    first_differing_byte_is_less(a, b)
}

/// Whether the first byte in which `a` and `b` differ is missing from `a` or smaller there.
fn first_differing_byte_is_less(a: &[u8], b: &[u8]) -> (r: bool)
    ensures
        r == key_lt(a@, b@),
{
    let mut i: usize = 0;
    assert(a@.skip(0) == a@);
    assert(b@.skip(0) == b@);
    while i < a.len() && i < b.len()
        invariant
            i <= a@.len(),
            i <= b@.len(),
            key_lt(a@, b@) == key_lt(a@.skip(i as int), b@.skip(i as int)),
        decreases a@.len() - i,
    {
        if a[i] != b[i] {
            return a[i] < b[i];
        }
        assert(a@.skip(i as int).drop_first() == a@.skip(i + 1));
        assert(b@.skip(i as int).drop_first() == b@.skip(i + 1));
        i += 1;
    }
    i < b.len()
}

} // verus!
