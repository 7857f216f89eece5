//! Big-endian integer encodings and byte-buffer helpers shared by the wire formats.

use vstd::prelude::*;

verus! {

/// The two big-endian bytes of `n`.
pub open spec fn be16_bytes(n: u16) -> Seq<u8> {
    seq![(n >> 8u16) as u8, (n & 0xffu16) as u8]
}

/// The `u16` whose big-endian bytes are `hi`, `lo`.
pub open spec fn be16_value(hi: u8, lo: u8) -> u16 {
    (((hi as u16) << 8u16) | (lo as u16)) as u16
}

/// The eight big-endian bytes of `n`.
pub open spec fn be64_bytes(n: u64) -> Seq<u8> {
    seq![
        ((n >> 56u64) & 0xffu64) as u8,
        ((n >> 48u64) & 0xffu64) as u8,
        ((n >> 40u64) & 0xffu64) as u8,
        ((n >> 32u64) & 0xffu64) as u8,
        ((n >> 24u64) & 0xffu64) as u8,
        ((n >> 16u64) & 0xffu64) as u8,
        ((n >> 8u64) & 0xffu64) as u8,
        (n & 0xffu64) as u8,
    ]
}

/// The `u64` whose big-endian encoding is the first eight bytes of `b`.
pub open spec fn be64_value(b: Seq<u8>) -> u64 {
    ((b[0] as u64) << 56u64) | ((b[1] as u64) << 48u64) | ((b[2] as u64) << 40u64)
        | ((b[3] as u64) << 32u64) | ((b[4] as u64) << 24u64) | ((b[5] as u64) << 16u64)
        | ((b[6] as u64) << 8u64) | (b[7] as u64)
}

/// Reading back the big-endian bytes of `n` gives `n`.
pub proof fn lemma_be16_roundtrip(n: u16)
    ensures
        be16_value(be16_bytes(n)[0], be16_bytes(n)[1]) == n,
{
    let hi = (n >> 8u16) as u8;
    let lo = (n & 0xffu16) as u8;
    assert((((hi as u16) << 8u16) | (lo as u16)) == n) by (bit_vector)
        requires
            hi == (n >> 8u16) as u8,
            lo == (n & 0xffu16) as u8,
    ;
}

/// Encoding the value read from two bytes gives those bytes.
pub proof fn lemma_be16_bytes_of_value(hi: u8, lo: u8)
    ensures
        be16_bytes(be16_value(hi, lo)) == seq![hi, lo],
{
    let n = be16_value(hi, lo);
    assert((n >> 8u16) as u8 == hi && (n & 0xffu16) as u8 == lo) by (bit_vector)
        requires
            n == (((hi as u16) << 8u16) | (lo as u16)) as u16,
    ;
    assert(be16_bytes(n) =~= seq![hi, lo]);
}

/// Reading back the big-endian bytes of `n` gives `n`.
pub proof fn lemma_be64_roundtrip(n: u64)
    ensures
        be64_value(be64_bytes(n)) == n,
{
    let b = be64_bytes(n);
    let b0 = b[0];
    let b1 = b[1];
    let b2 = b[2];
    let b3 = b[3];
    let b4 = b[4];
    let b5 = b[5];
    let b6 = b[6];
    let b7 = b[7];
    assert(((b0 as u64) << 56u64) | ((b1 as u64) << 48u64) | ((b2 as u64) << 40u64)
        | ((b3 as u64) << 32u64) | ((b4 as u64) << 24u64) | ((b5 as u64) << 16u64)
        | ((b6 as u64) << 8u64) | (b7 as u64) == n) by (bit_vector)
        requires
            b0 == ((n >> 56u64) & 0xffu64) as u8,
            b1 == ((n >> 48u64) & 0xffu64) as u8,
            b2 == ((n >> 40u64) & 0xffu64) as u8,
            b3 == ((n >> 32u64) & 0xffu64) as u8,
            b4 == ((n >> 24u64) & 0xffu64) as u8,
            b5 == ((n >> 16u64) & 0xffu64) as u8,
            b6 == ((n >> 8u64) & 0xffu64) as u8,
            b7 == (n & 0xffu64) as u8,
    ;
}

/// Encoding the value read from eight bytes gives those bytes.
pub proof fn lemma_be64_bytes_of_value(b: Seq<u8>)
    requires
        b.len() == 8,
    ensures
        be64_bytes(be64_value(b)) == b,
{
    let n = be64_value(b);
    let b0 = b[0];
    let b1 = b[1];
    let b2 = b[2];
    let b3 = b[3];
    let b4 = b[4];
    let b5 = b[5];
    let b6 = b[6];
    let b7 = b[7];
    assert(b0 == ((n >> 56u64) & 0xffu64) as u8 && b1 == ((n >> 48u64) & 0xffu64) as u8
        && b2 == ((n >> 40u64) & 0xffu64) as u8 && b3 == ((n >> 32u64) & 0xffu64) as u8
        && b4 == ((n >> 24u64) & 0xffu64) as u8 && b5 == ((n >> 16u64) & 0xffu64) as u8
        && b6 == ((n >> 8u64) & 0xffu64) as u8 && b7 == (n & 0xffu64) as u8)
        by (bit_vector)
        requires
            n == ((b0 as u64) << 56u64) | ((b1 as u64) << 48u64) | ((b2 as u64) << 40u64)
                | ((b3 as u64) << 32u64) | ((b4 as u64) << 24u64) | ((b5 as u64) << 16u64)
                | ((b6 as u64) << 8u64) | (b7 as u64),
    ;
    assert(be64_bytes(n) =~= b);
}

/// Appends the big-endian bytes of `n`.
pub fn push_be16(out: &mut Vec<u8>, n: u16)
    ensures
        final(out)@ == old(out)@ + be16_bytes(n),
{
    out.push((n >> 8u16) as u8);
    out.push((n & 0xffu16) as u8);
    assert(final(out)@ =~= old(out)@ + be16_bytes(n));
}

/// Appends the big-endian bytes of `n`.
pub fn push_be64(out: &mut Vec<u8>, n: u64)
    ensures
        final(out)@ == old(out)@ + be64_bytes(n),
{
    out.push(((n >> 56u64) & 0xffu64) as u8);
    out.push(((n >> 48u64) & 0xffu64) as u8);
    out.push(((n >> 40u64) & 0xffu64) as u8);
    out.push(((n >> 32u64) & 0xffu64) as u8);
    out.push(((n >> 24u64) & 0xffu64) as u8);
    out.push(((n >> 16u64) & 0xffu64) as u8);
    out.push(((n >> 8u64) & 0xffu64) as u8);
    out.push((n & 0xffu64) as u8);
    assert(final(out)@ =~= old(out)@ + be64_bytes(n));
}

/// Reads the big-endian `u16` at `data[at..at + 2]`.
pub fn read_be16(data: &[u8], at: usize) -> (n: u16)
    requires
        at + 2 <= data@.len(),
    ensures
        n == be16_value(data@[at as int], data@[at + 1]),
{
    (((data[at] as u16) << 8u16) | (data[at + 1] as u16)) as u16
}

/// Reads the big-endian `u64` at `data[at..at + 8]`.
pub fn read_be64(data: &[u8], at: usize) -> (n: u64)
    requires
        at + 8 <= data@.len(),
    ensures
        n == be64_value(data@.subrange(at as int, at + 8)),
{
    let ghost s = data@.subrange(at as int, at + 8);
    assert(s[0] == data@[at as int] && s[7] == data@[at + 7]);
    ((data[at] as u64) << 56u64) | ((data[at + 1] as u64) << 48u64) | ((data[at + 2] as u64)
        << 40u64) | ((data[at + 3] as u64) << 32u64) | ((data[at + 4] as u64) << 24u64) | ((
    data[at + 5] as u64) << 16u64) | ((data[at + 6] as u64) << 8u64) | (data[at + 7] as u64)
}

/// Appends `src[from..to]` to `out`.
pub fn extend_range(out: &mut Vec<u8>, src: &[u8], from: usize, to: usize)
    requires
        from <= to <= src@.len(),
    ensures
        final(out)@ == old(out)@ + src@.subrange(from as int, to as int),
{
    let mut i = from;
    while i < to
        invariant
            from <= i <= to <= src@.len(),
            out@ == old(out)@ + src@.subrange(from as int, i as int),
        decreases to - i,
    {
        out.push(src[i]);
        i = i + 1;
        assert(out@ =~= old(out)@ + src@.subrange(from as int, i as int));
    }
}

/// Appends all of `src` to `out`.
pub fn extend_all(out: &mut Vec<u8>, src: &[u8])
    ensures
        final(out)@ == old(out)@ + src@,
{
    extend_range(out, src, 0, src.len());
    assert(src@.subrange(0, src@.len() as int) =~= src@);
}

/// A fresh vector holding `src[from..to]`.
pub fn copy_range(src: &[u8], from: usize, to: usize) -> (v: Vec<u8>)
    requires
        from <= to <= src@.len(),
    ensures
        v@ == src@.subrange(from as int, to as int),
{
    let mut v: Vec<u8> = Vec::new();
    extend_range(&mut v, src, from, to);
    assert(v@ =~= src@.subrange(from as int, to as int));
    v
}

} // verus!
