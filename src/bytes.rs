//! Big-endian encoding of the fixed-width integers in a record header.

use vstd::prelude::*;

verus! {

/// The four bytes of `n`, most significant first.
pub open spec fn be_u32(n: u32) -> Seq<u8> {
    seq![(n >> 24u32) as u8, (n >> 16u32) as u8, (n >> 8u32) as u8, n as u8]
}

/// The eight bytes of `n`, most significant first.
pub open spec fn be_u64(n: u64) -> Seq<u8> {
    seq![
        (n >> 56u64) as u8,
        (n >> 48u64) as u8,
        (n >> 40u64) as u8,
        (n >> 32u64) as u8,
        (n >> 24u64) as u8,
        (n >> 16u64) as u8,
        (n >> 8u64) as u8,
        n as u8,
    ]
}

/// The `u32` whose big-endian bytes are the first four of `b`.
pub open spec fn u32_from_be(b: Seq<u8>) -> u32 {
    ((b[0] as u32) << 24u32) | ((b[1] as u32) << 16u32) | ((b[2] as u32) << 8u32) | (b[3] as u32)
}

/// The `u64` whose big-endian bytes are the first eight of `b`.
pub open spec fn u64_from_be(b: Seq<u8>) -> u64 {
    ((b[0] as u64) << 56u64) | ((b[1] as u64) << 48u64) | ((b[2] as u64) << 40u64) | ((
    b[3] as u64) << 32u64) | ((b[4] as u64) << 24u64) | ((b[5] as u64) << 16u64) | ((
    b[6] as u64) << 8u64) | (b[7] as u64)
}

/// Reading back the bytes of `n` gives `n`.
pub proof fn lemma_u32_round_trip(n: u32)
    ensures
        u32_from_be(be_u32(n)) == n,
{
    let b = be_u32(n);
    assert(b[0] == (n >> 24u32) as u8 && b[1] == (n >> 16u32) as u8 && b[2] == (n >> 8u32) as u8
        && b[3] == n as u8);
    assert(((((n >> 24u32) as u8) as u32) << 24u32) | ((((n >> 16u32) as u8) as u32) << 16u32) | (
    (((n >> 8u32) as u8) as u32) << 8u32) | ((n as u8) as u32) == n) by (bit_vector);
}

/// Reading back the bytes of `n` gives `n`.
pub proof fn lemma_u64_round_trip(n: u64)
    ensures
        u64_from_be(be_u64(n)) == n,
{
    let b = be_u64(n);
    assert(b[0] == (n >> 56u64) as u8 && b[1] == (n >> 48u64) as u8 && b[2] == (n >> 40u64) as u8
        && b[3] == (n >> 32u64) as u8 && b[4] == (n >> 24u64) as u8 && b[5] == (n >> 16u64) as u8
        && b[6] == (n >> 8u64) as u8 && b[7] == n as u8);
    assert(((((n >> 56u64) as u8) as u64) << 56u64) | ((((n >> 48u64) as u8) as u64) << 48u64) | (
    (((n >> 40u64) as u8) as u64) << 40u64) | ((((n >> 32u64) as u8) as u64) << 32u64) | ((((n
        >> 24u64) as u8) as u64) << 24u64) | ((((n >> 16u64) as u8) as u64) << 16u64) | ((((n
        >> 8u64) as u8) as u64) << 8u64) | ((n as u8) as u64) == n) by (bit_vector);
}

/// Appends the big-endian bytes of `n` to `w`.
pub fn push_u32_be(w: &mut Vec<u8>, n: u32)
    ensures
        final(w)@ == old(w)@ + be_u32(n),
{
    w.push((n >> 24u32) as u8);
    w.push((n >> 16u32) as u8);
    w.push((n >> 8u32) as u8);
    w.push(n as u8);
    assert(final(w)@ =~= old(w)@ + be_u32(n));
}

/// Appends the big-endian bytes of `n` to `w`.
pub fn push_u64_be(w: &mut Vec<u8>, n: u64)
    ensures
        final(w)@ == old(w)@ + be_u64(n),
{
    w.push((n >> 56u64) as u8);
    w.push((n >> 48u64) as u8);
    w.push((n >> 40u64) as u8);
    w.push((n >> 32u64) as u8);
    w.push((n >> 24u64) as u8);
    w.push((n >> 16u64) as u8);
    w.push((n >> 8u64) as u8);
    w.push(n as u8);
    assert(final(w)@ =~= old(w)@ + be_u64(n));
}

/// Reads a big-endian `u32` from the first four bytes of `b`.
pub fn read_u32_be(b: &[u8]) -> (r: u32)
    requires
        b@.len() >= 4,
    ensures
        be_u32(r) == b@.subrange(0, 4),
        r == u32_from_be(b@),
{
    let b0 = b[0];
    let b1 = b[1];
    let b2 = b[2];
    let b3 = b[3];
    let r: u32 = ((b0 as u32) << 24u32) | ((b1 as u32) << 16u32) | ((b2 as u32) << 8u32) | (
    b3 as u32);
    assert(((r >> 24u32) as u8) == b0 && ((r >> 16u32) as u8) == b1 && ((r >> 8u32) as u8) == b2
        && (r as u8) == b3) by (bit_vector)
        requires
            r == ((b0 as u32) << 24u32) | ((b1 as u32) << 16u32) | ((b2 as u32) << 8u32) | (
            b3 as u32),
    ;
    assert(be_u32(r) =~= b@.subrange(0, 4));
    r
}

/// Reads a big-endian `u64` from the eight bytes of `b` that start at `at`.
pub fn read_u64_be(b: &[u8], at: usize) -> (r: u64)
    requires
        at + 8 <= b@.len(),
    ensures
        be_u64(r) == b@.subrange(at as int, at + 8),
        r == u64_from_be(b@.subrange(at as int, at + 8)),
{
    let b0 = b[at];
    let b1 = b[at + 1];
    let b2 = b[at + 2];
    let b3 = b[at + 3];
    let b4 = b[at + 4];
    let b5 = b[at + 5];
    let b6 = b[at + 6];
    let b7 = b[at + 7];
    let r: u64 = ((b0 as u64) << 56u64) | ((b1 as u64) << 48u64) | ((b2 as u64) << 40u64) | ((
    b3 as u64) << 32u64) | ((b4 as u64) << 24u64) | ((b5 as u64) << 16u64) | ((b6 as u64)
        << 8u64) | (b7 as u64);
    assert(((r >> 56u64) as u8) == b0 && ((r >> 48u64) as u8) == b1 && ((r >> 40u64) as u8) == b2
        && ((r >> 32u64) as u8) == b3 && ((r >> 24u64) as u8) == b4 && ((r >> 16u64) as u8) == b5
        && ((r >> 8u64) as u8) == b6 && (r as u8) == b7) by (bit_vector)
        requires
            r == ((b0 as u64) << 56u64) | ((b1 as u64) << 48u64) | ((b2 as u64) << 40u64) | ((
            b3 as u64) << 32u64) | ((b4 as u64) << 24u64) | ((b5 as u64) << 16u64) | ((
            b6 as u64) << 8u64) | (b7 as u64),
    ;
    assert(be_u64(r) =~= b@.subrange(at as int, at + 8));
    r
}

} // verus!
