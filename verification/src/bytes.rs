//! Little-endian integers and byte copies used by the log format.
use vstd::prelude::*;

verus! {

/// The four little-endian bytes of `n`, as `u32::to_le_bytes` gives them.
pub open spec fn u32_le(n: u32) -> Seq<u8> {
    seq![n as u8, (n >> 8u32) as u8, (n >> 16u32) as u8, (n >> 24u32) as u8]
}

/// The `u32` whose little-endian bytes are `b0 b1 b2 b3`.
pub open spec fn u32_from_le(b0: u8, b1: u8, b2: u8, b3: u8) -> u32 {
    (b0 as u32) | ((b1 as u32) << 8u32) | ((b2 as u32) << 16u32) | ((b3 as u32) << 24u32)
}

/// The `u32` stored little-endian in `s` at positions `at .. at + 4`.
pub open spec fn read_u32_le(s: Seq<u8>, at: int) -> u32 {
    u32_from_le(s[at], s[at + 1], s[at + 2], s[at + 3])
}

/// Reading back the bytes of `n` gives `n`.
pub proof fn lemma_u32_le_roundtrip(n: u32)
    ensures
        u32_from_le(n as u8, (n >> 8u32) as u8, (n >> 16u32) as u8, (n >> 24u32) as u8) == n,
{
    assert(((n as u8) as u32) | ((((n >> 8u32) as u8) as u32) << 8u32) | ((((n >> 16u32) as u8)
        as u32) << 16u32) | ((((n >> 24u32) as u8) as u32) << 24u32) == n) by (bit_vector);
}

/// The `u32` read at `at` is the little-endian number of its four bytes.
pub proof fn lemma_read_u32_le_value(s: Seq<u8>, at: int)
    requires
        0 <= at,
        at + 4 <= s.len(),
    ensures
        read_u32_le(s, at) as int == s[at] + 256 * s[at + 1] + 65536 * s[at + 2] + 16777216 * s[at
            + 3],
{
    let b0 = s[at];
    let b1 = s[at + 1];
    let b2 = s[at + 2];
    let b3 = s[at + 3];
    assert(((b0 as u32) | ((b1 as u32) << 8u32) | ((b2 as u32) << 16u32) | ((b3 as u32) << 24u32))
        == b0 + 256 * b1 + 65536 * b2 + 16777216 * b3) by (bit_vector);
}

/// Writing back a read `u32` gives the bytes it was read from.
pub proof fn lemma_u32_le_of_read(b0: u8, b1: u8, b2: u8, b3: u8)
    ensures
        u32_le(u32_from_le(b0, b1, b2, b3)) == seq![b0, b1, b2, b3],
{
    let n = u32_from_le(b0, b1, b2, b3);
    assert(n == (b0 as u32) | ((b1 as u32) << 8u32) | ((b2 as u32) << 16u32) | ((b3 as u32) << 24u32));
    assert(((b0 as u32) | ((b1 as u32) << 8u32) | ((b2 as u32) << 16u32) | ((b3 as u32) << 24u32))
        as u8 == b0) by (bit_vector);
    assert((((b0 as u32) | ((b1 as u32) << 8u32) | ((b2 as u32) << 16u32) | ((b3 as u32) << 24u32))
        >> 8u32) as u8 == b1) by (bit_vector);
    assert((((b0 as u32) | ((b1 as u32) << 8u32) | ((b2 as u32) << 16u32) | ((b3 as u32) << 24u32))
        >> 16u32) as u8 == b2) by (bit_vector);
    assert((((b0 as u32) | ((b1 as u32) << 8u32) | ((b2 as u32) << 16u32) | ((b3 as u32) << 24u32))
        >> 24u32) as u8 == b3) by (bit_vector);
    assert(u32_le(n) =~= seq![b0, b1, b2, b3]);
}

/// Appends the little-endian bytes of `n` to `out`.
pub fn push_u32_le(out: &mut Vec<u8>, n: u32)
    ensures
        final(out)@ == old(out)@ + u32_le(n),
{
    out.push(n as u8);
    out.push((n >> 8u32) as u8);
    out.push((n >> 16u32) as u8);
    out.push((n >> 24u32) as u8);
    assert(final(out)@ =~= old(out)@ + u32_le(n));
}

/// Reads the `u32` stored little-endian in `bytes` at `at .. at + 4`.
pub fn get_u32_le(bytes: &[u8], at: usize) -> (n: u32)
    requires
        at + 4 <= bytes@.len(),
    ensures
        n == read_u32_le(bytes@, at as int),
{
    let b0 = bytes[at];
    let b1 = bytes[at + 1];
    let b2 = bytes[at + 2];
    let b3 = bytes[at + 3];
    (b0 as u32) | ((b1 as u32) << 8u32) | ((b2 as u32) << 16u32) | ((b3 as u32) << 24u32)
}

/// Appends `src` to `out`.
pub fn extend_bytes(out: &mut Vec<u8>, src: &[u8])
    ensures
        final(out)@ == old(out)@ + src@,
{
    let mut i: usize = 0;
    while i < src.len()
        invariant
            i <= src@.len(),
            out@ == old(out)@ + src@.subrange(0, i as int),
        decreases src@.len() - i,
    {
        out.push(src[i]);
        i = i + 1;
        assert(out@ =~= old(out)@ + src@.subrange(0, i as int));
    }
    assert(src@.subrange(0, i as int) =~= src@);
}

/// A fresh vector holding `bytes[start .. end]`.
pub fn copy_range(bytes: &[u8], start: usize, end: usize) -> (out: Vec<u8>)
    requires
        start <= end <= bytes@.len(),
    ensures
        out@ == bytes@.subrange(start as int, end as int),
{
    let mut out: Vec<u8> = Vec::new();
    let mut i: usize = start;
    while i < end
        invariant
            start <= i <= end <= bytes@.len(),
            out@ == bytes@.subrange(start as int, i as int),
        decreases end - i,
    {
        out.push(bytes[i]);
        i = i + 1;
        assert(out@ =~= bytes@.subrange(start as int, i as int));
    }
    out
}

/// A fresh vector with the same bytes as `bytes`.
pub fn copy_bytes(bytes: &[u8]) -> (out: Vec<u8>)
    ensures
        out@ == bytes@,
{
    let out = copy_range(bytes, 0, bytes.len());
    assert(bytes@.subrange(0, bytes@.len() as int) =~= bytes@);
    out
}

} // verus!
