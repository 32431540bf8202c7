//! Little- and big-endian encodings of the fixed-width integers that the
//! archive layouts use, together with the facts relating encode and decode.

use vstd::prelude::*;

verus! {

/// The four bytes of `n` in little-endian order.
pub open spec fn spec_u32_le(n: u32) -> Seq<u8> {
    seq![
        (n & 0xff) as u8,
        ((n >> 8) & 0xff) as u8,
        ((n >> 16) & 0xff) as u8,
        ((n >> 24) & 0xff) as u8,
    ]
}

/// The `u32` denoted by four bytes in little-endian order.
pub open spec fn spec_le_u32(b0: u8, b1: u8, b2: u8, b3: u8) -> u32 {
    (b0 as u32) | ((b1 as u32) << 8) | ((b2 as u32) << 16) | ((b3 as u32) << 24)
}

pub proof fn lemma_u32_le_roundtrip(n: u32)
    ensures
        spec_le_u32(
            spec_u32_le(n)[0],
            spec_u32_le(n)[1],
            spec_u32_le(n)[2],
            spec_u32_le(n)[3],
        ) == n,
{
    assert(((n & 0xff) as u8 as u32) | (((n >> 8) & 0xff) as u8 as u32) << 8
        | (((n >> 16) & 0xff) as u8 as u32) << 16 | (((n >> 24) & 0xff) as u8 as u32) << 24
        == n) by (bit_vector);
}

/// Appends the little-endian encoding of `n` to `out`.
pub fn push_u32_le(out: &mut Vec<u8>, n: u32)
    ensures
        final(out)@ == old(out)@ + spec_u32_le(n),
{
    out.push((n & 0xff) as u8);
    out.push(((n >> 8) & 0xff) as u8);
    out.push(((n >> 16) & 0xff) as u8);
    out.push(((n >> 24) & 0xff) as u8);
    assert(out@ =~= old(out)@ + spec_u32_le(n));
}

/// Reads the little-endian `u32` stored at `at` in `data`.
pub fn read_u32_le(data: &[u8], at: usize) -> (r: u32)
    requires
        at + 4 <= data@.len(),
    ensures
        r == spec_le_u32(data@[at as int], data@[at + 1], data@[at + 2], data@[at + 3]),
{
    let b0 = data[at];
    let b1 = data[at + 1];
    let b2 = data[at + 2];
    let b3 = data[at + 3];
    (b0 as u32) | ((b1 as u32) << 8) | ((b2 as u32) << 16) | ((b3 as u32) << 24)
}

/// The two bytes of `n` in big-endian order.
pub open spec fn spec_u16_be(n: u16) -> Seq<u8> {
    seq![((n >> 8) & 0xff) as u8, (n & 0xff) as u8]
}

/// The `u16` denoted by two bytes in big-endian order.
pub open spec fn spec_be_u16(b0: u8, b1: u8) -> u16 {
    ((b0 as u16) << 8) | (b1 as u16)
}

pub proof fn lemma_u16_be_roundtrip(n: u16)
    ensures
        spec_be_u16(spec_u16_be(n)[0], spec_u16_be(n)[1]) == n,
{
    assert(((((n >> 8) & 0xff) as u8 as u16) << 8) | ((n & 0xff) as u8 as u16) == n)
        by (bit_vector);
}

/// The three low bytes of `n` in big-endian order, as the 24-bit offset
/// field stores them.
pub open spec fn spec_u24_be(n: u32) -> Seq<u8> {
    seq![((n >> 16) & 0xff) as u8, ((n >> 8) & 0xff) as u8, (n & 0xff) as u8]
}

/// The `u32` denoted by three bytes in big-endian order.
pub open spec fn spec_be_u24(b0: u8, b1: u8, b2: u8) -> u32 {
    ((b0 as u32) << 16) | ((b1 as u32) << 8) | (b2 as u32)
}

pub proof fn lemma_u24_be_roundtrip(n: u32)
    requires
        n < 0x1000000,
    ensures
        spec_be_u24(spec_u24_be(n)[0], spec_u24_be(n)[1], spec_u24_be(n)[2]) == n,
{
    assert(((((n >> 16) & 0xff) as u8 as u32) << 16) | ((((n >> 8) & 0xff) as u8 as u32) << 8)
        | ((n & 0xff) as u8 as u32) == n) by (bit_vector)
        requires n < 0x1000000;
}

/// The four bytes of `n` in big-endian order.
pub open spec fn spec_u32_be(n: u32) -> Seq<u8> {
    seq![
        ((n >> 24) & 0xff) as u8,
        ((n >> 16) & 0xff) as u8,
        ((n >> 8) & 0xff) as u8,
        (n & 0xff) as u8,
    ]
}

/// The `u32` denoted by four bytes in big-endian order.
pub open spec fn spec_be_u32(b0: u8, b1: u8, b2: u8, b3: u8) -> u32 {
    ((b0 as u32) << 24) | ((b1 as u32) << 16) | ((b2 as u32) << 8) | (b3 as u32)
}

pub proof fn lemma_u32_be_roundtrip(n: u32)
    ensures
        spec_be_u32(
            spec_u32_be(n)[0],
            spec_u32_be(n)[1],
            spec_u32_be(n)[2],
            spec_u32_be(n)[3],
        ) == n,
{
    assert(((((n >> 24) & 0xff) as u8 as u32) << 24) | ((((n >> 16) & 0xff) as u8 as u32) << 16)
        | ((((n >> 8) & 0xff) as u8 as u32) << 8) | ((n & 0xff) as u8 as u32) == n)
        by (bit_vector);
}

/// Appends the big-endian encoding of `n` to `out`.
pub fn push_u16_be(out: &mut Vec<u8>, n: u16)
    ensures
        final(out)@ == old(out)@ + spec_u16_be(n),
{
    out.push(((n >> 8) & 0xff) as u8);
    out.push((n & 0xff) as u8);
    assert(out@ =~= old(out)@ + spec_u16_be(n));
}

/// Appends the three-byte big-endian encoding of `n` to `out`.
pub fn push_u24_be(out: &mut Vec<u8>, n: u32)
    ensures
        final(out)@ == old(out)@ + spec_u24_be(n),
{
    out.push(((n >> 16) & 0xff) as u8);
    out.push(((n >> 8) & 0xff) as u8);
    out.push((n & 0xff) as u8);
    assert(out@ =~= old(out)@ + spec_u24_be(n));
}

/// Appends the big-endian encoding of `n` to `out`.
pub fn push_u32_be(out: &mut Vec<u8>, n: u32)
    ensures
        final(out)@ == old(out)@ + spec_u32_be(n),
{
    out.push(((n >> 24) & 0xff) as u8);
    out.push(((n >> 16) & 0xff) as u8);
    out.push(((n >> 8) & 0xff) as u8);
    out.push((n & 0xff) as u8);
    assert(out@ =~= old(out)@ + spec_u32_be(n));
}

/// Reads the big-endian `u16` stored at `at` in `data`.
pub fn read_u16_be(data: &[u8], at: usize) -> (r: u16)
    requires
        at + 2 <= data@.len(),
    ensures
        r == spec_be_u16(data@[at as int], data@[at + 1]),
{
    let b0 = data[at];
    let b1 = data[at + 1];
    ((b0 as u16) << 8) | (b1 as u16)
}

/// Reads the three-byte big-endian integer stored at `at` in `data`.
pub fn read_u24_be(data: &[u8], at: usize) -> (r: u32)
    requires
        at + 3 <= data@.len(),
    ensures
        r == spec_be_u24(data@[at as int], data@[at + 1], data@[at + 2]),
{
    let b0 = data[at];
    let b1 = data[at + 1];
    let b2 = data[at + 2];
    ((b0 as u32) << 16) | ((b1 as u32) << 8) | (b2 as u32)
}

/// Reads the big-endian `u32` stored at `at` in `data`.
pub fn read_u32_be(data: &[u8], at: usize) -> (r: u32)
    requires
        at + 4 <= data@.len(),
    ensures
        r == spec_be_u32(data@[at as int], data@[at + 1], data@[at + 2], data@[at + 3]),
{
    let b0 = data[at];
    let b1 = data[at + 1];
    let b2 = data[at + 2];
    let b3 = data[at + 3];
    ((b0 as u32) << 24) | ((b1 as u32) << 16) | ((b2 as u32) << 8) | (b3 as u32)
}

/// Appends every byte of `s` to `out`.
pub fn push_bytes(out: &mut Vec<u8>, s: &[u8])
    ensures
        final(out)@ == old(out)@ + s@,
{
    let n = s.len();
    let mut i: usize = 0;
    proof {
        assert(out@ =~= old(out)@ + s@.subrange(0, 0));
    }
    while i < n
        invariant
            n == s@.len(),
            i <= n,
            out@ == old(out)@ + s@.subrange(0, i as int),
        decreases n - i,
    {
        out.push(s[i]);
        proof {
            assert(old(out)@ + s@.subrange(0, i as int) + seq![s@[i as int]] =~= old(out)@
                + s@.subrange(0, i + 1));
        }
        i += 1;
    }
    proof {
        assert(s@.subrange(0, n as int) =~= s@);
    }
}

/// Appends `n` zero bytes to `out`, as the padding before a data region.
pub fn push_zeros(out: &mut Vec<u8>, n: usize)
    ensures
        final(out)@ == old(out)@ + Seq::new(n as nat, |i: int| 0u8),
{
    let mut i: usize = 0;
    proof {
        assert(out@ =~= old(out)@ + Seq::new(0, |i: int| 0u8));
    }
    while i < n
        invariant
            i <= n,
            out@ == old(out)@ + Seq::new(i as nat, |j: int| 0u8),
        decreases n - i,
    {
        out.push(0u8);
        proof {
            assert(old(out)@ + Seq::new(i as nat, |j: int| 0u8) + seq![0u8] =~= old(out)@
                + Seq::new((i + 1) as nat, |j: int| 0u8));
        }
        i += 1;
    }
}

} // verus!
