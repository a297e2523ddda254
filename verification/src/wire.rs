//! Fixed-width integers on the wire.
//!
//! Every multi-byte field of a frame is written least significant byte
//! first. The spec functions here say what those bytes are; the executable
//! functions read and write them and are proved against the spec functions.

use vstd::prelude::*;

verus! {

/// The two bytes of `x`, least significant first.
pub open spec fn u16_le(x: u16) -> Seq<u8> {
    seq![(x & 0xff) as u8, ((x >> 8) & 0xff) as u8]
}

/// The four bytes of `x`, least significant first.
pub open spec fn u32_le(x: u32) -> Seq<u8> {
    seq![
        (x & 0xff) as u8,
        ((x >> 8) & 0xff) as u8,
        ((x >> 16) & 0xff) as u8,
        ((x >> 24) & 0xff) as u8,
    ]
}

/// The eight bytes of `x`, least significant first.
pub open spec fn u64_le(x: u64) -> Seq<u8> {
    seq![
        (x & 0xff) as u8,
        ((x >> 8) & 0xff) as u8,
        ((x >> 16) & 0xff) as u8,
        ((x >> 24) & 0xff) as u8,
        ((x >> 32) & 0xff) as u8,
        ((x >> 40) & 0xff) as u8,
        ((x >> 48) & 0xff) as u8,
        ((x >> 56) & 0xff) as u8,
    ]
}

/// The integer whose little-endian bytes are `s[0]` and `s[1]`.
pub open spec fn le_u16(s: Seq<u8>) -> u16
    recommends
        s.len() == 2,
{
    (s[0] as u16) | ((s[1] as u16) << 8)
}

/// The integer whose little-endian bytes are `s[0]` to `s[3]`.
pub open spec fn le_u32(s: Seq<u8>) -> u32
    recommends
        s.len() == 4,
{
    (s[0] as u32) | ((s[1] as u32) << 8) | ((s[2] as u32) << 16) | ((s[3] as u32) << 24)
}

/// The integer whose little-endian bytes are `s[0]` to `s[7]`.
pub open spec fn le_u64(s: Seq<u8>) -> u64
    recommends
        s.len() == 8,
{
    (s[0] as u64) | ((s[1] as u64) << 8) | ((s[2] as u64) << 16) | ((s[3] as u64) << 24) | ((
    s[4] as u64) << 32) | ((s[5] as u64) << 40) | ((s[6] as u64) << 48) | ((s[7] as u64) << 56)
}

/// Reading back what was written gives the same 16-bit integer.
pub proof fn lemma_u16_roundtrip(x: u16)
    ensures
        u16_le(x).len() == 2,
        le_u16(u16_le(x)) == x,
{
    assert(((x & 0xff) as u8 as u16) | ((((x >> 8) & 0xff) as u8 as u16) << 8) == x)
        by (bit_vector);
}

/// Reading back what was written gives the same 32-bit integer.
pub proof fn lemma_u32_roundtrip(x: u32)
    ensures
        u32_le(x).len() == 4,
        le_u32(u32_le(x)) == x,
{
    assert(((x & 0xff) as u8 as u32) | ((((x >> 8) & 0xff) as u8 as u32) << 8) | ((((x >> 16)
        & 0xff) as u8 as u32) << 16) | ((((x >> 24) & 0xff) as u8 as u32) << 24) == x)
        by (bit_vector);
}

/// Reading back what was written gives the same 64-bit integer.
pub proof fn lemma_u64_roundtrip(x: u64)
    ensures
        u64_le(x).len() == 8,
        le_u64(u64_le(x)) == x,
{
    assert(((x & 0xff) as u8 as u64) | ((((x >> 8) & 0xff) as u8 as u64) << 8) | ((((x >> 16)
        & 0xff) as u8 as u64) << 16) | ((((x >> 24) & 0xff) as u8 as u64) << 24) | ((((x >> 32)
        & 0xff) as u8 as u64) << 32) | ((((x >> 40) & 0xff) as u8 as u64) << 40) | ((((x >> 48)
        & 0xff) as u8 as u64) << 48) | ((((x >> 56) & 0xff) as u8 as u64) << 56) == x)
        by (bit_vector);
}

/// Two bytes are the encoding of the integer they decode to.
pub proof fn lemma_u16_bytes(s: Seq<u8>)
    requires
        s.len() == 2,
    ensures
        u16_le(le_u16(s)) == s,
{
    let (a, b) = (s[0], s[1]);
    let x = (a as u16) | ((b as u16) << 8);
    assert((x & 0xff) as u8 == a && ((x >> 8) & 0xff) as u8 == b) by (bit_vector)
        requires
            x == (a as u16) | ((b as u16) << 8),
    ;
    assert(u16_le(le_u16(s)) =~= s);
}

/// Four bytes are the encoding of the integer they decode to.
pub proof fn lemma_u32_bytes(s: Seq<u8>)
    requires
        s.len() == 4,
    ensures
        u32_le(le_u32(s)) == s,
{
    let (a, b, c, d) = (s[0], s[1], s[2], s[3]);
    let x = (a as u32) | ((b as u32) << 8) | ((c as u32) << 16) | ((d as u32) << 24);
    assert((x & 0xff) as u8 == a && ((x >> 8) & 0xff) as u8 == b && ((x >> 16) & 0xff) as u8 == c
        && ((x >> 24) & 0xff) as u8 == d) by (bit_vector)
        requires
            x == (a as u32) | ((b as u32) << 8) | ((c as u32) << 16) | ((d as u32) << 24),
    ;
    assert(u32_le(le_u32(s)) =~= s);
}

/// Eight bytes are the encoding of the integer they decode to.
pub proof fn lemma_u64_bytes(s: Seq<u8>)
    requires
        s.len() == 8,
    ensures
        u64_le(le_u64(s)) == s,
{
    let (a, b, c, d) = (s[0], s[1], s[2], s[3]);
    let (e, f, g, h) = (s[4], s[5], s[6], s[7]);
    let x = le_u64(s);
    assert((x & 0xff) as u8 == a && ((x >> 8) & 0xff) as u8 == b && ((x >> 16) & 0xff) as u8 == c
        && ((x >> 24) & 0xff) as u8 == d && ((x >> 32) & 0xff) as u8 == e && ((x >> 40)
        & 0xff) as u8 == f && ((x >> 48) & 0xff) as u8 == g && ((x >> 56) & 0xff) as u8 == h)
        by (bit_vector)
        requires
            x == (a as u64) | ((b as u64) << 8) | ((c as u64) << 16) | ((d as u64) << 24) | ((
            e as u64) << 32) | ((f as u64) << 40) | ((g as u64) << 48) | ((h as u64) << 56),
    ;
    assert(u64_le(le_u64(s)) =~= s);
}

/// Appends the two bytes of `x` to `out`.
pub fn put_u16(out: &mut Vec<u8>, x: u16)
    ensures
        final(out)@ == old(out)@ + u16_le(x),
{
    out.push((x & 0xff) as u8);
    out.push(((x >> 8) & 0xff) as u8);
    assert(out@ =~= old(out)@ + u16_le(x));
}

/// Appends the four bytes of `x` to `out`.
pub fn put_u32(out: &mut Vec<u8>, x: u32)
    ensures
        final(out)@ == old(out)@ + u32_le(x),
{
    out.push((x & 0xff) as u8);
    out.push(((x >> 8) & 0xff) as u8);
    out.push(((x >> 16) & 0xff) as u8);
    out.push(((x >> 24) & 0xff) as u8);
    assert(out@ =~= old(out)@ + u32_le(x));
}

/// Appends the eight bytes of `x` to `out`.
pub fn put_u64(out: &mut Vec<u8>, x: u64)
    ensures
        final(out)@ == old(out)@ + u64_le(x),
{
    out.push((x & 0xff) as u8);
    out.push(((x >> 8) & 0xff) as u8);
    out.push(((x >> 16) & 0xff) as u8);
    out.push(((x >> 24) & 0xff) as u8);
    out.push(((x >> 32) & 0xff) as u8);
    out.push(((x >> 40) & 0xff) as u8);
    out.push(((x >> 48) & 0xff) as u8);
    out.push(((x >> 56) & 0xff) as u8);
    assert(out@ =~= old(out)@ + u64_le(x));
}

/// Reads the 16-bit integer that starts at `pos`.
pub fn get_u16(buf: &[u8], pos: usize) -> (x: u16)
    requires
        pos + 2 <= buf.len(),
    ensures
        x == le_u16(buf@.subrange(pos as int, pos + 2)),
{
    (buf[pos] as u16) | ((buf[pos + 1] as u16) << 8)
}

/// Reads the 32-bit integer that starts at `pos`.
pub fn get_u32(buf: &[u8], pos: usize) -> (x: u32)
    requires
        pos + 4 <= buf.len(),
    ensures
        x == le_u32(buf@.subrange(pos as int, pos + 4)),
{
    (buf[pos] as u32) | ((buf[pos + 1] as u32) << 8) | ((buf[pos + 2] as u32) << 16) | ((buf[pos
        + 3] as u32) << 24)
}

/// Reads the 64-bit integer that starts at `pos`.
pub fn get_u64(buf: &[u8], pos: usize) -> (x: u64)
    requires
        pos + 8 <= buf.len(),
    ensures
        x == le_u64(buf@.subrange(pos as int, pos + 8)),
{
    (buf[pos] as u64) | ((buf[pos + 1] as u64) << 8) | ((buf[pos + 2] as u64) << 16) | ((buf[pos
        + 3] as u64) << 24) | ((buf[pos + 4] as u64) << 32) | ((buf[pos + 5] as u64) << 40) | ((
    buf[pos + 6] as u64) << 48) | ((buf[pos + 7] as u64) << 56)
}

} // verus!
