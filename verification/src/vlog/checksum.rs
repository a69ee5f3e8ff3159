//! The checksum of entries: CRC-32 with the IEEE polynomial.

use vstd::prelude::*;

verus! {

/// The remainder register after one more bit: it is shifted, and the polynomial is taken off where
/// a one falls out.
pub open spec fn crc_after_bit(c: u32) -> u32 {
    if c & 1 == 1 {
        (c >> 1) ^ 0xEDB8_8320
    } else {
        c >> 1
    }
}

/// The remainder register after two more bits.
pub open spec fn crc_after_two_bits(c: u32) -> u32 {
    crc_after_bit(crc_after_bit(c))
}

/// The remainder register after one more byte.
pub open spec fn crc_after_byte(c: u32, byte: u8) -> u32 {
    crc_after_two_bits(
        crc_after_two_bits(crc_after_two_bits(crc_after_two_bits(c ^ byte as u32))),
    )
}

/// The remainder register after `bytes`; it starts with all bits set.
pub open spec fn crc_register(bytes: Seq<u8>) -> u32
    decreases bytes.len(),
{
    if bytes.len() == 0 {
        0xFFFF_FFFF
    } else {
        crc_after_byte(crc_register(bytes.drop_last()), bytes.last())
    }
}

/// The CRC-32 checksum of a byte sequence: the remainder register with all its bits flipped.
#[verifier::opaque]
pub open spec fn crc32(bytes: Seq<u8>) -> u32 {
    crc_register(bytes) ^ 0xFFFF_FFFF
}

/// `crc32fast::hash` computes the CRC-32 checksum, with the IEEE polynomial, of the bytes it is
/// given.
pub assume_specification[ crc32fast::hash ](buf: &[u8]) -> (r: u32)
    ensures
        r == crc32(buf@),
;

/// Different registers are different after one more bit.
proof fn lemma_bit_keeps_apart(c: u32, d: u32)
    requires
        c != d,
    ensures
        crc_after_bit(c) != crc_after_bit(d),
{
    assert(c != d ==> (if c & 1 == 1 {
        (c >> 1) ^ 0xEDB8_8320u32
    } else {
        c >> 1
    }) != (if d & 1 == 1 {
        (d >> 1) ^ 0xEDB8_8320u32
    } else {
        d >> 1
    })) by (bit_vector);
}

/// Different registers are different after two more bits.
proof fn lemma_two_bits_keep_apart(c: u32, d: u32)
    requires
        c != d,
    ensures
        crc_after_two_bits(c) != crc_after_two_bits(d),
{
    lemma_bit_keeps_apart(c, d);
    lemma_bit_keeps_apart(crc_after_bit(c), crc_after_bit(d));
}

/// Registers that differ once the byte is in them are different after the byte.
proof fn lemma_byte_keeps_apart(c: u32, a: u8, d: u32, b: u8)
    requires
        c ^ a as u32 != d ^ b as u32,
    ensures
        crc_after_byte(c, a) != crc_after_byte(d, b),
{
    let c1 = c ^ a as u32;
    let d1 = d ^ b as u32;
    let c2 = crc_after_two_bits(c1);
    let d2 = crc_after_two_bits(d1);
    let c3 = crc_after_two_bits(c2);
    let d3 = crc_after_two_bits(d2);
    lemma_two_bits_keep_apart(c1, d1);
    lemma_two_bits_keep_apart(c2, d2);
    lemma_two_bits_keep_apart(c3, d3);
    lemma_two_bits_keep_apart(crc_after_two_bits(c3), crc_after_two_bits(d3));
}

/// Registers differ after byte sequences that differ in one byte.
proof fn lemma_register_differs(a: Seq<u8>, b: Seq<u8>, i: int)
    requires
        a.len() == b.len(),
        0 <= i < a.len(),
        a[i] != b[i],
        forall|j: int| 0 <= j < a.len() && j != i ==> a[j] == b[j],
    ensures
        crc_register(a) != crc_register(b),
    decreases a.len(),
{
    let c = crc_register(a.drop_last());
    let d = crc_register(b.drop_last());
    let x = a.last();
    let y = b.last();
    if i == a.len() - 1 {
        assert(a.drop_last() == b.drop_last());
        assert(x != y ==> c ^ x as u32 != c ^ y as u32) by (bit_vector);
    } else {
        lemma_register_differs(a.drop_last(), b.drop_last(), i);
        assert(c != d ==> c ^ x as u32 != d ^ x as u32) by (bit_vector);
    }
    lemma_byte_keeps_apart(c, x, d, y);
}

/// Byte sequences that differ in exactly one byte have different checksums.
pub proof fn law_changed_byte_changes_the_checksum(a: Seq<u8>, b: Seq<u8>, i: int)
    requires
        a.len() == b.len(),
        0 <= i < a.len(),
        a[i] != b[i],
        forall|j: int| 0 <= j < a.len() && j != i ==> a[j] == b[j],
    ensures
        crc32(a) != crc32(b),
{
    let c = crc_register(a);
    let d = crc_register(b);
    reveal(crc32);
    lemma_register_differs(a, b, i);
    assert(c != d ==> c ^ 0xFFFF_FFFF != d ^ 0xFFFF_FFFF) by (bit_vector);
}

/// How the checksum goes on with one more byte: the byte goes into the flipped checksum, which is
/// then shifted eight times, each time with the polynomial added where a one falls out.
pub proof fn law_checksum_of_one_more_byte(bytes: Seq<u8>, byte: u8)
    ensures
        exists|r: Seq<u32>|
            {
                &&& r.len() == 9
                &&& r[0] == (crc32(bytes) ^ 0xFFFF_FFFF) ^ byte as u32
                &&& forall|k: int|
                    0 <= k < 8 ==> #[trigger] r[k + 1] == (if r[k] & 1 == 1 {
                        (r[k] >> 1) ^ 0xEDB8_8320
                    } else {
                        r[k] >> 1
                    })
                &&& #[trigger] r[8] == crc32(bytes.push(byte)) ^ 0xFFFF_FFFF
            },
{
    reveal(crc32);
    let c = crc_register(bytes);
    let d = crc_register(bytes.push(byte));
    assert(bytes.push(byte).drop_last() == bytes);
    assert((c ^ 0xFFFF_FFFF) ^ 0xFFFF_FFFF == c) by (bit_vector);
    assert((d ^ 0xFFFF_FFFF) ^ 0xFFFF_FFFF == d) by (bit_vector);
    let r0 = c ^ byte as u32;
    let r1 = crc_after_bit(r0);
    let r2 = crc_after_bit(r1);
    let r3 = crc_after_bit(r2);
    let r4 = crc_after_bit(r3);
    let r5 = crc_after_bit(r4);
    let r6 = crc_after_bit(r5);
    let r7 = crc_after_bit(r6);
    let r8 = crc_after_bit(r7);
    let r = seq![r0, r1, r2, r3, r4, r5, r6, r7, r8];
    assert forall|k: int| 0 <= k < 8 implies #[trigger] r[k + 1] == (if r[k] & 1 == 1 {
        (r[k] >> 1) ^ 0xEDB8_8320
    } else {
        r[k] >> 1
    }) by {
        assert(k == 0 || k == 1 || k == 2 || k == 3 || k == 4 || k == 5 || k == 6 || k == 7);
    }
    assert(r[8] == d);
}

/// The checksum of no bytes is zero.
pub proof fn law_checksum_of_nothing()
    ensures
        crc32(Seq::empty()) == 0,
{
    reveal(crc32);
    assert(0xFFFF_FFFFu32 ^ 0xFFFF_FFFFu32 == 0) by (bit_vector);
}

} // verus!
