//! Base32 (RFC 4648 alphabet, no padding) for room keys and authenticator
//! secrets typed by hand. Bits are read most significant first; the last
//! symbol of an encoding is padded with zero bits.

use vstd::prelude::*;
use crate::text::push_char;

verus! {

/// Bit `k` of `d` (0 or 1), most significant bit of each byte first;
/// 0 past the end.
pub open spec fn data_bit(d: Seq<u8>, k: int) -> u8 {
    if 0 <= k < 8 * d.len() {
        (d[k / 8] >> ((7 - k % 8) as u8)) & 1u8
    } else {
        0u8
    }
}

/// The value of symbol `i` of the encoding: bits `5i .. 5i + 5` of `d`.
pub open spec fn group(d: Seq<u8>, i: int) -> u8 {
    (data_bit(d, 5 * i) * 16 + data_bit(d, 5 * i + 1) * 8 + data_bit(d, 5 * i + 2) * 4
        + data_bit(d, 5 * i + 3) * 2 + data_bit(d, 5 * i + 4)) as u8
}

/// The alphabet: 'A'..'Z' for 0..25, '2'..'7' for 26..31.
pub open spec fn b32_char(v: u8) -> char {
    if v < 26 {
        (65 + v) as char
    } else {
        (24 + v) as char
    }
}

/// How many symbols encode `n` bytes: ceil(8n / 5).
pub open spec fn symbol_count(n: nat) -> nat {
    (8 * n + 4) / 5
}

/// The encoding of `d`.
pub open spec fn base32_encode_spec(d: Seq<u8>) -> Seq<char> {
    Seq::new(symbol_count(d.len()), |i: int| b32_char(group(d, i)))
}

/// Characters the decoder passes over (readability separators).
pub open spec fn is_separator(c: char) -> bool {
    c == ' ' || c == '-'
}

/// The symbol value of `c`, letters in either case.
pub open spec fn symbol_of(c: char) -> Option<u8> {
    let u = c as u32;
    if 65 <= u <= 90 {
        Some((u - 65) as u8)
    } else if 97 <= u <= 122 {
        Some((u - 97) as u8)
    } else if 50 <= u <= 55 {
        Some((u - 24) as u8)
    } else {
        None
    }
}

/// The symbols of `s`, separators skipped; `None` if any other character
/// is outside the alphabet.
pub open spec fn decode_symbols(s: Seq<char>) -> Option<Seq<u8>>
    decreases s.len(),
{
    if s.len() == 0 {
        Some(Seq::empty())
    } else {
        let rest = decode_symbols(s.drop_last());
        if is_separator(s.last()) {
            rest
        } else {
            match (rest, symbol_of(s.last())) {
                (Some(r), Some(v)) => Some(r.push(v)),
                _ => None,
            }
        }
    }
}

/// Bit `k` of a symbol stream (5 bits per symbol, most significant first).
pub open spec fn symbol_bit(syms: Seq<u8>, k: int) -> u8 {
    (syms[k / 5] >> ((4 - k % 5) as u8)) & 1u8
}

/// Byte `b` of the decoding: symbol-stream bits `8b .. 8b + 8`.
pub open spec fn byte_of(syms: Seq<u8>, b: int) -> u8 {
    (symbol_bit(syms, 8 * b) * 128 + symbol_bit(syms, 8 * b + 1) * 64
        + symbol_bit(syms, 8 * b + 2) * 32 + symbol_bit(syms, 8 * b + 3) * 16
        + symbol_bit(syms, 8 * b + 4) * 8 + symbol_bit(syms, 8 * b + 5) * 4
        + symbol_bit(syms, 8 * b + 6) * 2 + symbol_bit(syms, 8 * b + 7)) as u8
}

/// The bytes a symbol stream carries: every whole byte; leftover bits
/// (fewer than 8) are dropped.
pub open spec fn bytes_of_symbols(syms: Seq<u8>) -> Seq<u8> {
    Seq::new(syms.len() * 5 / 8, |b: int| byte_of(syms, b))
}

/// The decoding of `s`.
pub open spec fn base32_decode_spec(s: Seq<char>) -> Option<Seq<u8>> {
    match decode_symbols(s) {
        Some(syms) => Some(bytes_of_symbols(syms)),
        None => None,
    }
}

/// Bit `j` (0..8, most significant first) of `x`.
fn bit_of(x: u8, j: u8) -> (b: u8)
    requires
        j < 8,
    ensures
        b == (x >> ((7 - j) as u8)) & 1u8,
        b <= 1,
{
    let b = (x >> (7 - j)) & 1;
    assert(b <= 1) by (bit_vector)
        requires
            b == (x >> ((7 - j) as u8)) & 1u8;
    b
}

/// Bit `k` of `d`, computed without overflow for any slice length.
fn data_bit_at(d: &[u8], k: u128) -> (b: u8)
    ensures
        b == data_bit(d@, k as int),
        b <= 1,
{
    if k < 8 * (d.len() as u128) {
        let byte = d[(k / 8) as usize];
        bit_of(byte, (k % 8) as u8)
    } else {
        0
    }
}

/// Base32 text of `data`.
pub fn base32_encode(data: &[u8]) -> (s: String)
    ensures
        s@ == base32_encode_spec(data@),
{
    let n = data.len() as u128;
    let count: u128 = (8 * n + 4) / 5;
    let mut out = String::new();
    let mut i: u128 = 0;
    while i < count
        invariant
            n == data@.len(),
            n <= usize::MAX,
            count == symbol_count(data@.len()),
            i <= count,
            out@ == base32_encode_spec(data@).take(i as int),
        decreases count - i,
    {
        let k = 5 * i;
        let b0 = data_bit_at(data, k);
        let b1 = data_bit_at(data, k + 1);
        let b2 = data_bit_at(data, k + 2);
        let b3 = data_bit_at(data, k + 3);
        let b4 = data_bit_at(data, k + 4);
        let v: u8 = b0 * 16 + b1 * 8 + b2 * 4 + b3 * 2 + b4;
        let c = if v < 26 { (65 + v) as char } else { (24 + v) as char };
        proof {
            assert(v == group(data@, i as int));
            assert(c == b32_char(v));
        }
        push_char(&mut out, c);
        i = i + 1;
        assert(out@ =~= base32_encode_spec(data@).take(i as int));
    }
    assert(base32_encode_spec(data@).take(count as int) =~= base32_encode_spec(data@));
    out
}

fn symbol_of_char(c: char) -> (v: Option<u8>)
    ensures
        v == symbol_of(c),
{
    let u = c as u32;
    if 65 <= u && u <= 90 {
        Some((u - 65) as u8)
    } else if 97 <= u && u <= 122 {
        Some((u - 97) as u8)
    } else if 50 <= u && u <= 55 {
        Some((u - 24) as u8)
    } else {
        None
    }
}

/// Bit `k` of a symbol stream.
fn symbol_bit_at(syms: &Vec<u8>, k: u128) -> (b: u8)
    requires
        k / 5 < syms@.len(),
        forall|i: int| 0 <= i < syms@.len() ==> syms@[i] < 32,
    ensures
        b == symbol_bit(syms@, k as int),
        b <= 1,
{
    let len = syms.len();
    assert((k / 5) < len);
    let idx = (k / 5) as usize;
    let s = syms[idx];
    let sh = (4 - k % 5) as u8;
    assert(idx as int == (k as int) / 5);
    assert(sh == ((4 - (k as int) % 5) as u8));
    let b = (s >> sh) & 1;
    assert(b <= 1) by (bit_vector)
        requires
            b == (s >> sh) & 1u8;
    b
}

/// The bytes encoded by `s`, or `None` if it holds a character outside
/// the alphabet (other than the separators ' ' and '-').
pub fn base32_decode(s: &str) -> (r: Option<Vec<u8>>)
    ensures
        match r {
            Some(v) => base32_decode_spec(s@) == Some(v@),
            None => base32_decode_spec(s@) is None,
        },
{
    let cs = crate::text::chars_of(s);
    // Symbols first.
    let mut syms: Vec<u8> = Vec::new();
    let mut i: usize = 0;
    while i < cs.len()
        invariant
            cs@ == s@,
            i <= cs@.len(),
            decode_symbols(cs@.take(i as int)) == Some(syms@),
            forall|j: int| 0 <= j < syms@.len() ==> syms@[j] < 32,
        decreases cs@.len() - i,
    {
        let c = cs[i];
        proof {
            assert(cs@.take(i + 1).drop_last() =~= cs@.take(i as int));
            assert(cs@.take(i + 1).last() == c);
        }
        if c == ' ' || c == '-' {
        } else {
            match symbol_of_char(c) {
                Some(v) => {
                    syms.push(v);
                },
                None => {
                    proof {
                        assert(symbol_of(cs@.take(i + 1).last()) is None);
                        assert(!is_separator(cs@.take(i + 1).last()));
                        assert(decode_symbols(cs@.take(i + 1)) is None);
                        lemma_decode_none_extends(cs@, i as int + 1);
                        assert(cs@.take(cs@.len() as int) =~= cs@);
                    }
                    return None;
                },
            }
        }
        i = i + 1;
    }
    proof {
        assert(cs@.take(i as int) =~= cs@);
    }
    // Then whole bytes.
    let m = syms.len() as u128;
    let nbytes: u128 = m * 5 / 8;
    let mut out: Vec<u8> = Vec::new();
    let mut b: u128 = 0;
    while b < nbytes
        invariant
            m == syms@.len(),
            nbytes == syms@.len() * 5 / 8,
            b <= nbytes,
            forall|j: int| 0 <= j < syms@.len() ==> syms@[j] < 32,
            out@ == bytes_of_symbols(syms@).take(b as int),
        decreases nbytes - b,
    {
        let k = 8 * b;
        proof {
            assert((8 * b + 7) / 5 < m) by (nonlinear_arith)
                requires
                    b < nbytes,
                    nbytes == m * 5 / 8;
        }
        let x: u8 = symbol_bit_at(&syms, k) * 128 + symbol_bit_at(&syms, k + 1) * 64
            + symbol_bit_at(&syms, k + 2) * 32 + symbol_bit_at(&syms, k + 3) * 16
            + symbol_bit_at(&syms, k + 4) * 8 + symbol_bit_at(&syms, k + 5) * 4
            + symbol_bit_at(&syms, k + 6) * 2 + symbol_bit_at(&syms, k + 7);
        out.push(x);
        b = b + 1;
        assert(out@ =~= bytes_of_symbols(syms@).take(b as int));
    }
    assert(bytes_of_symbols(syms@).take(nbytes as int) =~= bytes_of_symbols(syms@));
    Some(out)
}

/// Once a prefix holds a character outside the alphabet, every longer
/// prefix decodes to `None`.
proof fn lemma_decode_none_extends(s: Seq<char>, i: int)
    requires
        0 <= i <= s.len(),
        decode_symbols(s.take(i)) is None,
    ensures
        decode_symbols(s) is None,
    decreases s.len() - i,
{
    if i == s.len() {
        assert(s.take(i) =~= s);
    } else {
        assert(s.take(i + 1).drop_last() =~= s.take(i));
        lemma_decode_none_extends(s, i + 1);
    }
}

proof fn lemma_bit_le_one(x: u8, sh: u8)
    ensures
        (x >> sh) & 1u8 <= 1,
{
    assert((x >> sh) & 1u8 <= 1) by (bit_vector);
}

/// A symbol value is below 32.
proof fn lemma_group_small(d: Seq<u8>, i: int)
    ensures
        group(d, i) < 32,
{
    assert forall|k: int| #[trigger] data_bit(d, k) <= 1 by {
        if 0 <= k < 8 * d.len() {
            lemma_bit_le_one(d[k / 8], (7 - k % 8) as u8);
        }
    }
}

/// The alphabet is read back to the symbol it writes.
proof fn lemma_symbol_roundtrip(v: u8)
    requires
        v < 32,
    ensures
        symbol_of(b32_char(v)) == Some(v),
        !is_separator(b32_char(v)),
{
    if v < 26 {
        assert(((65 + v) as char) as u32 == 65 + v);
    } else {
        assert(((24 + v) as char) as u32 == 24 + v);
    }
}

/// The symbols of an encoding are the groups of the data.
proof fn lemma_encoded_symbols(d: Seq<u8>, j: int)
    requires
        0 <= j <= symbol_count(d.len()),
    ensures
        decode_symbols(base32_encode_spec(d).take(j))
            == Some(Seq::new(j as nat, |i: int| group(d, i))),
    decreases j,
{
    let e = base32_encode_spec(d);
    if j == 0 {
        assert(e.take(0) =~= Seq::<char>::empty());
        assert(Seq::new(0nat, |i: int| group(d, i)) =~= Seq::<u8>::empty());
    } else {
        lemma_encoded_symbols(d, j - 1);
        assert(e.take(j).drop_last() =~= e.take(j - 1));
        assert(e.take(j).last() == b32_char(group(d, j - 1)));
        lemma_group_small(d, j - 1);
        lemma_symbol_roundtrip(group(d, j - 1));
        assert(Seq::new((j - 1) as nat, |i: int| group(d, i)).push(group(d, j - 1))
            =~= Seq::new(j as nat, |i: int| group(d, i)));
    }
}

/// Reading bit `r` back out of a symbol built from five bits.
proof fn lemma_group_bit(b0: u8, b1: u8, b2: u8, b3: u8, b4: u8, r: u8)
    requires
        b0 <= 1,
        b1 <= 1,
        b2 <= 1,
        b3 <= 1,
        b4 <= 1,
        r < 5,
    ensures
        ((((b0 * 16 + b1 * 8 + b2 * 4 + b3 * 2 + b4) as u8) >> ((4 - r) as u8)) & 1u8)
            == (if r == 0 { b0 } else if r == 1 { b1 } else if r == 2 { b2 } else if r == 3 { b3 } else { b4 }),
{
    assert(((((b0 * 16 + b1 * 8 + b2 * 4 + b3 * 2 + b4) as u8) >> ((4 - r) as u8)) & 1u8)
        == (if r == 0 { b0 } else if r == 1 { b1 } else if r == 2 { b2 } else if r == 3 { b3 } else { b4 }))
        by (bit_vector)
        requires
            b0 <= 1,
            b1 <= 1,
            b2 <= 1,
            b3 <= 1,
            b4 <= 1,
            r < 5;
}

/// A byte is the sum of its bits.
proof fn lemma_byte_bits(x: u8)
    ensures
        x == ((((x >> 7u8) & 1u8) * 128 + ((x >> 6u8) & 1u8) * 64 + ((x >> 5u8) & 1u8) * 32
            + ((x >> 4u8) & 1u8) * 16 + ((x >> 3u8) & 1u8) * 8 + ((x >> 2u8) & 1u8) * 4
            + ((x >> 1u8) & 1u8) * 2 + ((x >> 0u8) & 1u8)) as u8),
{
    assert(x == ((((x >> 7u8) & 1u8) * 128 + ((x >> 6u8) & 1u8) * 64 + ((x >> 5u8) & 1u8) * 32
        + ((x >> 4u8) & 1u8) * 16 + ((x >> 3u8) & 1u8) * 8 + ((x >> 2u8) & 1u8) * 4
        + ((x >> 1u8) & 1u8) * 2 + ((x >> 0u8) & 1u8)) as u8)) by (bit_vector);
}

/// Bit `k` of the encoding's symbol stream is bit `k` of the data.
proof fn lemma_stream_bit(d: Seq<u8>, k: int)
    requires
        0 <= k < 5 * symbol_count(d.len()),
    ensures
        symbol_bit(Seq::new(symbol_count(d.len()), |i: int| group(d, i)), k) == data_bit(d, k),
{
    let q = k / 5;
    let r = k % 5;
    assert(0 <= q < symbol_count(d.len()));
    assert forall|t: int| #[trigger] data_bit(d, t) <= 1 by {
        if 0 <= t < 8 * d.len() {
            lemma_bit_le_one(d[t / 8], (7 - t % 8) as u8);
        }
    }
    lemma_group_bit(data_bit(d, 5 * q), data_bit(d, 5 * q + 1), data_bit(d, 5 * q + 2),
        data_bit(d, 5 * q + 3), data_bit(d, 5 * q + 4), r as u8);
    assert(k == 5 * q + r);
}

/// Bit `j` of decoded byte `b` is bit `j` of data byte `b`.
proof fn lemma_out_bit(d: Seq<u8>, b: int, j: int)
    requires
        0 <= b < d.len(),
        0 <= j < 8,
    ensures
        symbol_bit(Seq::new(symbol_count(d.len()), |i: int| group(d, i)), 8 * b + j)
            == (d[b] >> ((7 - j) as u8)) & 1u8,
{
    let m = symbol_count(d.len());
    assert(8 * b + j < 5 * m) by (nonlinear_arith)
        requires
            0 <= b < d.len(),
            0 <= j < 8,
            m == (8 * d.len() + 4) / 5;
    lemma_stream_bit(d, 8 * b + j);
    assert((8 * b + j) / 8 == b);
    assert((8 * b + j) % 8 == j);
}

/// Decoding an encoding gives the data back.
pub proof fn lemma_base32_roundtrip(d: Seq<u8>)
    ensures
        base32_decode_spec(base32_encode_spec(d)) == Some(d),
{
    let m = symbol_count(d.len());
    let e = base32_encode_spec(d);
    let syms = Seq::new(m, |i: int| group(d, i));
    lemma_encoded_symbols(d, m as int);
    assert(e.take(m as int) =~= e);
    assert(m * 5 / 8 == d.len()) by (nonlinear_arith)
        requires
            m == (8 * d.len() + 4) / 5;
    let out = bytes_of_symbols(syms);
    assert forall|b: int| 0 <= b < d.len() implies out[b] == d[b] by {
        lemma_out_bit(d, b, 0);
        lemma_out_bit(d, b, 1);
        lemma_out_bit(d, b, 2);
        lemma_out_bit(d, b, 3);
        lemma_out_bit(d, b, 4);
        lemma_out_bit(d, b, 5);
        lemma_out_bit(d, b, 6);
        lemma_out_bit(d, b, 7);
        lemma_byte_bits(d[b]);
        assert(symbol_bit(syms, 8 * b) == (d[b] >> 7u8) & 1u8);
        assert(symbol_bit(syms, 8 * b + 1) == (d[b] >> 6u8) & 1u8);
        assert(symbol_bit(syms, 8 * b + 2) == (d[b] >> 5u8) & 1u8);
        assert(symbol_bit(syms, 8 * b + 3) == (d[b] >> 4u8) & 1u8);
        assert(symbol_bit(syms, 8 * b + 4) == (d[b] >> 3u8) & 1u8);
        assert(symbol_bit(syms, 8 * b + 5) == (d[b] >> 2u8) & 1u8);
        assert(symbol_bit(syms, 8 * b + 6) == (d[b] >> 1u8) & 1u8);
        assert(symbol_bit(syms, 8 * b + 7) == (d[b] >> 0u8) & 1u8);
    }
    assert(out =~= d);
}

} // verus!
