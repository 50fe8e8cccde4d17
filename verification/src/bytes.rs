//! Little-endian byte encodings of fixed-width integers.

use vstd::prelude::*;

verus! {

pub open spec fn u16_le(x: u16) -> Seq<u8> {
    seq![(x & 0xff) as u8, ((x >> 8u16) & 0xff) as u8]
}

pub open spec fn u32_le(x: u32) -> Seq<u8> {
    seq![
        (x & 0xff) as u8,
        ((x >> 8u32) & 0xff) as u8,
        ((x >> 16u32) & 0xff) as u8,
        ((x >> 24u32) & 0xff) as u8,
    ]
}

pub open spec fn u64_le(x: u64) -> Seq<u8> {
    seq![
        (x & 0xff) as u8,
        ((x >> 8u64) & 0xff) as u8,
        ((x >> 16u64) & 0xff) as u8,
        ((x >> 24u64) & 0xff) as u8,
        ((x >> 32u64) & 0xff) as u8,
        ((x >> 40u64) & 0xff) as u8,
        ((x >> 48u64) & 0xff) as u8,
        ((x >> 56u64) & 0xff) as u8,
    ]
}

/// Two's-complement little-endian bytes of an i32.
pub open spec fn i32_le(x: i32) -> Seq<u8> {
    u32_le(x as u32)
}

/// The little-endian bytes of a u16 sequence, element after element.
pub open spec fn u16s_le(s: Seq<u16>) -> Seq<u8>
    decreases s.len(),
{
    if s.len() == 0 {
        Seq::empty()
    } else {
        u16s_le(s.drop_last()) + u16_le(s.last())
    }
}

pub proof fn lemma_u16s_le_len(s: Seq<u16>)
    ensures
        u16s_le(s).len() == 2 * s.len(),
    decreases s.len(),
{
    if s.len() > 0 {
        lemma_u16s_le_len(s.drop_last());
    }
}

pub fn push_u16_le(out: &mut Vec<u8>, x: u16)
    ensures
        final(out)@ == old(out)@ + u16_le(x),
{
    out.push((x & 0xff) as u8);
    out.push(((x >> 8u16) & 0xff) as u8);
    assert(out@ =~= old(out)@ + u16_le(x));
}

pub fn push_u32_le(out: &mut Vec<u8>, x: u32)
    ensures
        final(out)@ == old(out)@ + u32_le(x),
{
    out.push((x & 0xff) as u8);
    out.push(((x >> 8u32) & 0xff) as u8);
    out.push(((x >> 16u32) & 0xff) as u8);
    out.push(((x >> 24u32) & 0xff) as u8);
    assert(out@ =~= old(out)@ + u32_le(x));
}

pub fn push_u64_le(out: &mut Vec<u8>, x: u64)
    ensures
        final(out)@ == old(out)@ + u64_le(x),
{
    out.push((x & 0xff) as u8);
    out.push(((x >> 8u64) & 0xff) as u8);
    out.push(((x >> 16u64) & 0xff) as u8);
    out.push(((x >> 24u64) & 0xff) as u8);
    out.push(((x >> 32u64) & 0xff) as u8);
    out.push(((x >> 40u64) & 0xff) as u8);
    out.push(((x >> 48u64) & 0xff) as u8);
    out.push(((x >> 56u64) & 0xff) as u8);
    assert(out@ =~= old(out)@ + u64_le(x));
}

pub fn push_i32_le(out: &mut Vec<u8>, x: i32)
    ensures
        final(out)@ == old(out)@ + i32_le(x),
{
    push_u32_le(out, x as u32);
}

/// The little-endian bytes of a u16 slice.
pub fn u16s_to_le(s: &[u16]) -> (out: Vec<u8>)
    ensures
        out@ == u16s_le(s@),
{
    let mut out: Vec<u8> = Vec::new();
    let mut i: usize = 0;
    while i < s.len()
        invariant
            i <= s@.len(),
            out@ == u16s_le(s@.take(i as int)),
        decreases s@.len() - i,
    {
        proof {
            assert(s@.take(i as int + 1).drop_last() =~= s@.take(i as int));
        }
        push_u16_le(&mut out, s[i]);
        i = i + 1;
    }
    proof {
        assert(s@.take(i as int) =~= s@);
    }
    out
}

/// A u16 from two little-endian bytes.
pub fn u16_from_le(lo: u8, hi: u8) -> (x: u16)
    ensures
        u16_le(x) == seq![lo, hi],
{
    let x: u16 = (lo as u16) | ((hi as u16) << 8u16);
    assert((x & 0xff) as u8 == lo && ((x >> 8u16) & 0xff) as u8 == hi) by (bit_vector)
        requires
            x == (lo as u16) | ((hi as u16) << 8u16);
    x
}

/// Decode little-endian u16 pairs; `bytes` must have even length.
pub fn u16s_from_le(bytes: &[u8]) -> (s: Vec<u16>)
    requires
        bytes@.len() % 2 == 0,
    ensures
        u16s_le(s@) == bytes@,
        s@.len() * 2 == bytes@.len(),
{
    let mut s: Vec<u16> = Vec::new();
    let len = bytes.len();
    let n = len / 2;
    assert(n * 2 == bytes@.len());
    let mut i: usize = 0;
    while i < n
        invariant
            n * 2 == bytes@.len(),
            len == bytes@.len(),
            i <= n,
            s@.len() == i,
            u16s_le(s@) == bytes@.take(2 * i as int),
        decreases n - i,
    {
        assert(2 * i + 1 < len);
        let k: usize = 2 * i;
        let x = u16_from_le(bytes[k], bytes[k + 1]);
        let ghost pre = s@;
        s.push(x);
        proof {
            assert(s@.drop_last() =~= pre);
            assert(bytes@.take(2 * (i as int + 1)) =~= bytes@.take(2 * i as int) + seq![bytes@[2 * i as int], bytes@[2 * i as int + 1]]);
        }
        i = i + 1;
    }
    proof {
        assert(bytes@.take(2 * n as int) =~= bytes@);
    }
    s
}

/// Big-endian bytes of a u64.
pub open spec fn u64_be(x: u64) -> Seq<u8> {
    seq![
        ((x >> 56u64) & 0xff) as u8,
        ((x >> 48u64) & 0xff) as u8,
        ((x >> 40u64) & 0xff) as u8,
        ((x >> 32u64) & 0xff) as u8,
        ((x >> 24u64) & 0xff) as u8,
        ((x >> 16u64) & 0xff) as u8,
        ((x >> 8u64) & 0xff) as u8,
        (x & 0xff) as u8,
    ]
}

/// The eight big-endian bytes of `x`.
pub fn be_bytes(x: u64) -> (b: Vec<u8>)
    ensures
        b@ == u64_be(x),
{
    let mut b: Vec<u8> = Vec::new();
    b.push(((x >> 56u64) & 0xff) as u8);
    b.push(((x >> 48u64) & 0xff) as u8);
    b.push(((x >> 40u64) & 0xff) as u8);
    b.push(((x >> 32u64) & 0xff) as u8);
    b.push(((x >> 24u64) & 0xff) as u8);
    b.push(((x >> 16u64) & 0xff) as u8);
    b.push(((x >> 8u64) & 0xff) as u8);
    b.push((x & 0xff) as u8);
    assert(b@ =~= u64_be(x));
    b
}

} // verus!
