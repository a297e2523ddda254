//! The 32-bit frame checksum.
//!
//! The checksum is FNV-1a: starting from a fixed basis, each byte is
//! xor-ed into the state, which is then multiplied by a fixed odd prime
//! modulo 2^32. Both steps are reversible, so two inputs of one length
//! that differ in exactly one byte never share a checksum.

use vstd::prelude::*;

verus! {

/// The state before any byte has been mixed in.
pub const BASIS: u32 = 0x811c_9dc5;

/// The multiplier applied after each byte.
pub const PRIME: u32 = 0x0100_0193;

/// The state after mixing byte `b` into state `h`.
pub open spec fn mix(h: u32, b: u8) -> u32 {
    ((((h ^ (b as u32)) as u64 * 0x0100_0193u64) as u64) & 0xffff_ffffu64) as u32
}

/// The checksum of `bytes`: the bytes mixed in from first to last.
pub open spec fn checksum(bytes: Seq<u8>) -> u32
    decreases bytes.len(),
{
    if bytes.len() == 0 {
        BASIS
    } else {
        mix(checksum(bytes.drop_last()), bytes.last())
    }
}

/// Mixing is reversible: equal results come from equal states and equal bytes.
pub proof fn lemma_mix_injective(h1: u32, b1: u8, h2: u32, b2: u8)
    by (bit_vector)
    requires
        mix(h1, b1) == mix(h2, b2),
    ensures
        h1 ^ (b1 as u32) == h2 ^ (b2 as u32),
{
}

/// From one state, different bytes lead to different states.
pub proof fn lemma_mix_separates_bytes(h: u32, b1: u8, b2: u8)
    requires
        b1 != b2,
    ensures
        mix(h, b1) != mix(h, b2),
{
    if mix(h, b1) == mix(h, b2) {
        lemma_mix_injective(h, b1, h, b2);
        assert(h ^ (b1 as u32) == h ^ (b2 as u32) ==> b1 == b2) by (bit_vector);
    }
}

/// The same byte keeps different states apart.
pub proof fn lemma_mix_separates_states(h1: u32, h2: u32, b: u8)
    requires
        h1 != h2,
    ensures
        mix(h1, b) != mix(h2, b),
{
    if mix(h1, b) == mix(h2, b) {
        lemma_mix_injective(h1, b, h2, b);
        assert(h1 ^ (b as u32) == h2 ^ (b as u32) ==> h1 == h2) by (bit_vector);
    }
}

/// Whether `a` and `b` have one length and differ at index `i` and nowhere else.
pub open spec fn differ_only_at(a: Seq<u8>, b: Seq<u8>, i: int) -> bool {
    &&& a.len() == b.len()
    &&& 0 <= i < a.len()
    &&& a[i] != b[i]
    &&& forall|j: int| 0 <= j < a.len() && j != i ==> a[j] == b[j]
}

/// Changing a single byte always changes the checksum.
pub proof fn lemma_checksum_detects_change(a: Seq<u8>, b: Seq<u8>, i: int)
    requires
        differ_only_at(a, b, i),
    ensures
        checksum(a) != checksum(b),
    decreases a.len(),
{
    let a0 = a.drop_last();
    let b0 = b.drop_last();
    if i == a.len() - 1 {
        assert(a0 =~= b0);
        lemma_mix_separates_bytes(checksum(a0), a.last(), b.last());
    } else {
        assert(differ_only_at(a0, b0, i));
        lemma_checksum_detects_change(a0, b0, i);
        lemma_mix_separates_states(checksum(a0), checksum(b0), a.last());
    }
}

/// Mixes one byte into the state.
fn mix_byte(h: u32, b: u8) -> (r: u32)
    ensures
        r == mix(h, b),
{
    let x: u64 = (h ^ (b as u32)) as u64;
    let p: u64 = x * 0x0100_0193u64;
    let m: u64 = p & 0xffff_ffffu64;
    assert(m <= 0xffff_ffffu64) by (bit_vector)
        requires
            m == p & 0xffff_ffffu64,
    ;
    m as u32
}

/// The checksum of the bytes of `buf` from `start` up to `end`.
pub fn checksum_of(buf: &[u8], start: usize, end: usize) -> (sum: u32)
    requires
        start <= end <= buf.len(),
    ensures
        sum == checksum(buf@.subrange(start as int, end as int)),
{
    let mut h: u32 = BASIS;
    let mut i: usize = start;
    while i < end
        invariant
            start <= i <= end <= buf.len(),
            h == checksum(buf@.subrange(start as int, i as int)),
        decreases end - i,
    {
        proof {
            let next = buf@.subrange(start as int, i + 1);
            assert(next.drop_last() =~= buf@.subrange(start as int, i as int));
            assert(next.last() == buf@[i as int]);
        }
        h = mix_byte(h, buf[i]);
        i = i + 1;
    }
    h
}

} // verus!
