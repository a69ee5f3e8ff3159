//! Fixed-width integers as they lie in blocks and value logs, and the cursor operations that
//! read them off the front of a byte slice.

use bytes::Buf;
use vstd::prelude::*;

verus! {

/// The big-endian 16-bit integer in the first two bytes of `s`.
pub open spec fn be_u16(s: Seq<u8>) -> u16 {
    (s[0] * 256 + s[1]) as u16
}

/// The little-endian 16-bit integer in the first two bytes of `s`.
pub open spec fn le_u16(s: Seq<u8>) -> u16 {
    (s[0] + s[1] * 256) as u16
}

/// The little-endian 32-bit integer in the first four bytes of `s`.
pub open spec fn le_u32(s: Seq<u8>) -> u32 {
    (s[0] + s[1] * 0x100 + s[2] * 0x1_0000 + s[3] * 0x100_0000) as u32
}

/// `v` as two bytes, the most significant first.
pub open spec fn be_u16_bytes(v: u16) -> Seq<u8> {
    seq![(v / 256) as u8, (v % 256) as u8]
}

/// `v` as two bytes, the least significant first.
pub open spec fn le_u16_bytes(v: u16) -> Seq<u8> {
    seq![(v % 256) as u8, (v / 256) as u8]
}

/// `v` as four bytes, the least significant first.
pub open spec fn le_u32_bytes(v: u32) -> Seq<u8> {
    seq![
        (v % 0x100) as u8,
        (v / 0x100 % 0x100) as u8,
        (v / 0x1_0000 % 0x100) as u8,
        (v / 0x100_0000) as u8,
    ]
}

/// What integer two or four bytes are, by the weight of each byte.
pub proof fn law_integers_weigh_their_bytes(s: Seq<u8>)
    ensures
        be_u16(s) == 0x100 * s[0] + s[1],
        le_u16(s) == s[0] + 0x100 * s[1],
        le_u32(s) == s[0] + 0x100 * s[1] + 0x1_0000 * s[2] + 0x100_0000 * s[3],
{
}

/// Two bytes hold a 16-bit integer, and they weigh as much as it.
pub proof fn law_u16_bytes_weigh_the_integer(v: u16)
    ensures
        be_u16_bytes(v).len() == 2,
        0x100 * be_u16_bytes(v)[0] + be_u16_bytes(v)[1] == v,
        le_u16_bytes(v).len() == 2,
        le_u16_bytes(v)[0] + 0x100 * le_u16_bytes(v)[1] == v,
{
}

/// Four bytes hold a 32-bit integer, and they weigh as much as it.
pub proof fn law_u32_bytes_weigh_the_integer(v: u32)
    ensures
        le_u32_bytes(v).len() == 4,
        le_u32_bytes(v)[0] + 0x100 * le_u32_bytes(v)[1] + 0x1_0000 * le_u32_bytes(v)[2]
            + 0x100_0000 * le_u32_bytes(v)[3] == v,
{
}

/// Reading the front of `be_u16_bytes(v)` gives `v` back, whatever follows.
pub proof fn law_be_u16_read_back(v: u16, rest: Seq<u8>)
    ensures
        be_u16(be_u16_bytes(v) + rest) == v,
{
}

/// Reading the front of `le_u16_bytes(v)` gives `v` back, whatever follows.
pub proof fn law_le_u16_read_back(v: u16, rest: Seq<u8>)
    ensures
        le_u16(le_u16_bytes(v) + rest) == v,
{
}

/// Reading the front of `le_u32_bytes(v)` gives `v` back, whatever follows.
pub proof fn law_le_u32_read_back(v: u32, rest: Seq<u8>)
    ensures
        le_u32(le_u32_bytes(v) + rest) == v,
{
}

/// The bytes of the little-endian integer at the front of `s` are the front of `s`.
pub proof fn law_le_u16_write_back(s: Seq<u8>)
    requires
        s.len() >= 2,
    ensures
        le_u16_bytes(le_u16(s)) == s.take(2),
{
}

/// The bytes of the little-endian integer at the front of `s` are the front of `s`.
pub proof fn law_le_u32_write_back(s: Seq<u8>)
    requires
        s.len() >= 4,
    ensures
        le_u32_bytes(le_u32(s)) == s.take(4),
{
    let bytes = le_u32_bytes(le_u32(s));
    law_le_u32_read_back(le_u32(s), Seq::empty());
    assert(bytes + Seq::empty() == bytes);
    law_le_u32_is_its_bytes(bytes, s);
    assert forall|i: int| 0 <= i < 4 implies bytes[i] == s.take(4)[i] by {
        assert(i == 0 || i == 1 || i == 2 || i == 3);
    }
}

/// Different bytes are different little-endian integers.
pub proof fn law_le_u32_is_its_bytes(a: Seq<u8>, b: Seq<u8>)
    requires
        le_u32(a) == le_u32(b),
    ensures
        a[0] == b[0],
        a[1] == b[1],
        a[2] == b[2],
        a[3] == b[3],
{
}

/// Wraps `bytes::Buf::get_u16` on a byte slice. It returns the big-endian integer in the first
/// two bytes and moves the slice past them; it panics on a shorter slice.
#[verifier::external_body]
pub(crate) fn get_u16(buf: &mut &[u8]) -> (v: u16)
    requires
        old(buf)@.len() >= 2,
    ensures
        v == be_u16(old(buf)@),
        final(buf)@ == old(buf)@.skip(2),
{
    buf.get_u16()
}

/// Wraps `bytes::Buf::get_u16_le` on a byte slice. It returns the little-endian integer in the
/// first two bytes and moves the slice past them; it panics on a shorter slice.
#[verifier::external_body]
pub(crate) fn get_u16_le(buf: &mut &[u8]) -> (v: u16)
    requires
        old(buf)@.len() >= 2,
    ensures
        v == le_u16(old(buf)@),
        final(buf)@ == old(buf)@.skip(2),
{
    buf.get_u16_le()
}

/// Wraps `bytes::Buf::get_u32_le` on a byte slice. It returns the little-endian integer in the
/// first four bytes and moves the slice past them; it panics on a shorter slice.
#[verifier::external_body]
pub(crate) fn get_u32_le(buf: &mut &[u8]) -> (v: u32)
    requires
        old(buf)@.len() >= 4,
    ensures
        v == le_u32(old(buf)@),
        final(buf)@ == old(buf)@.skip(4),
{
    buf.get_u32_le()
}

/// Wraps `bytes::Buf::copy_to_slice` on a byte slice, with an array of `N` bytes as the
/// destination. It fills the array from the front of the slice and moves the slice past what was
/// copied; it panics on a slice shorter than the array.
#[verifier::external_body]
pub(crate) fn copy_to_array<const N: usize>(buf: &mut &[u8]) -> (dst: [u8; N])
    requires
        old(buf)@.len() >= N,
    ensures
        dst@ == old(buf)@.take(N as int),
        final(buf)@ == old(buf)@.skip(N as int),
{
    let mut dst: [u8; N] = [0; N];
    buf.copy_to_slice(&mut dst);
    dst
}

/// Wraps `bytes::Buf::advance` on a byte slice. It moves the slice past its first `cnt` bytes; it
/// panics on a shorter slice.
#[verifier::external_body]
pub(crate) fn advance(buf: &mut &[u8], cnt: usize)
    requires
        old(buf)@.len() >= cnt,
    ensures
        final(buf)@ == old(buf)@.skip(cnt as int),
{
    buf.advance(cnt)
}

} // verus!
