//! Small text helpers shared by the codecs: decimal rendering and string
//! building over `Seq<char>` views.

use vstd::prelude::*;
use vstd::string::StrSliceExecFns;

verus! {

/// The ASCII digit for `d` (0..=9).
pub open spec fn digit_char(d: nat) -> char {
    ((48 + d) as u8) as char
}

/// Decimal rendering of `n`, most significant digit first, no padding.
pub open spec fn decimal_spec(n: nat) -> Seq<char>
    decreases n,
{
    if n < 10 {
        seq![digit_char(n)]
    } else {
        decimal_spec(n / 10).push(digit_char(n % 10))
    }
}

/// `s` left-padded with '0' to at least `width` characters.
pub open spec fn zero_pad_spec(s: Seq<char>, width: nat) -> Seq<char> {
    if s.len() >= width {
        s
    } else {
        Seq::new((width - s.len()) as nat, |i: int| '0') + s
    }
}

/// `String::push`: appends `c`, so the string's characters gain `c` at the
/// end.
#[verifier::external_body]
pub fn push_char(s: &mut String, c: char)
    ensures
        final(s)@ == old(s)@.push(c),
{
    s.push(c);
}

/// Build a string from its characters.
pub fn string_from_chars(cs: &Vec<char>) -> (s: String)
    ensures
        s@ == cs@,
{
    let mut s = String::new();
    let mut i: usize = 0;
    while i < cs.len()
        invariant
            i <= cs@.len(),
            s@ == cs@.take(i as int),
        decreases cs@.len() - i,
    {
        push_char(&mut s, cs[i]);
        i = i + 1;
        assert(s@ =~= cs@.take(i as int));
    }
    assert(cs@.take(i as int) =~= cs@);
    s
}

/// The characters of a string.
pub fn chars_of(s: &str) -> (cs: Vec<char>)
    ensures
        cs@ == s@,
{
    let n = s.unicode_len();
    let mut cs: Vec<char> = Vec::new();
    let mut i: usize = 0;
    while i < n
        invariant
            n == s@.len(),
            i <= n,
            cs@ == s@.take(i as int),
        decreases n - i,
    {
        cs.push(s.get_char(i));
        i = i + 1;
        assert(cs@ =~= s@.take(i as int));
    }
    assert(s@.take(i as int) =~= s@);
    cs
}

/// Decimal digits of `n`.
pub fn decimal(n: u64) -> (cs: Vec<char>)
    ensures
        cs@ == decimal_spec(n as nat),
{
    let mut digits: Vec<char> = Vec::new();
    let mut m: u64 = n;
    // Collect least-significant first, then reverse.
    loop
        invariant
            decimal_spec(n as nat) == decimal_spec(m as nat) + digits@,
        decreases m,
    {
        if m < 10 {
            let c = ((48 + m) as u8) as char;
            let mut out: Vec<char> = Vec::new();
            out.push(c);
            let mut i: usize = 0;
            while i < digits.len()
                invariant
                    i <= digits@.len(),
                    out@ == seq![c] + digits@.take(i as int),
                decreases digits@.len() - i,
            {
                out.push(digits[i]);
                i = i + 1;
                assert(out@ =~= seq![c] + digits@.take(i as int));
            }
            assert(digits@.take(i as int) =~= digits@);
            assert(decimal_spec(m as nat) == seq![c]);
            return out;
        }
        let d = m % 10;
        let c = ((48 + d) as u8) as char;
        let mut next: Vec<char> = Vec::new();
        next.push(c);
        let mut i: usize = 0;
        while i < digits.len()
            invariant
                i <= digits@.len(),
                next@ == seq![c] + digits@.take(i as int),
            decreases digits@.len() - i,
        {
            next.push(digits[i]);
            i = i + 1;
            assert(next@ =~= seq![c] + digits@.take(i as int));
        }
        assert(digits@.take(i as int) =~= digits@);
        proof {
            assert(decimal_spec(m as nat) == decimal_spec((m / 10) as nat).push(digit_char((m % 10) as nat)));
            assert(decimal_spec((m / 10) as nat).push(c) + digits@ =~= decimal_spec((m / 10) as nat) + next@);
        }
        digits = next;
        m = m / 10;
    }
}

/// Character-wise equality of two strings.
pub fn text_eq(a: &str, b: &str) -> (r: bool)
    ensures
        r == (a@ == b@),
{
    let n = a.unicode_len();
    if n != b.unicode_len() {
        return false;
    }
    let mut i: usize = 0;
    while i < n
        invariant
            n == a@.len(),
            n == b@.len(),
            i <= n,
            a@.take(i as int) == b@.take(i as int),
        decreases n - i,
    {
        if a.get_char(i) != b.get_char(i) {
            assert(a@[i as int] != b@[i as int]);
            return false;
        }
        i = i + 1;
        assert(a@.take(i as int) =~= a@.take(i - 1).push(a@[i - 1]));
        assert(b@.take(i as int) =~= b@.take(i - 1).push(b@[i - 1]));
    }
    assert(a@.take(i as int) =~= a@);
    assert(b@.take(i as int) =~= b@);
    true
}

/// Unicode White_Space: the characters `char::is_whitespace` accepts.
pub open spec fn is_white_space(c: char) -> bool {
    let u = c as u32;
    ||| 0x09 <= u <= 0x0d
    ||| u == 0x20
    ||| u == 0x85
    ||| u == 0xa0
    ||| u == 0x1680
    ||| 0x2000 <= u <= 0x200a
    ||| u == 0x2028
    ||| u == 0x2029
    ||| u == 0x202f
    ||| u == 0x205f
    ||| u == 0x3000
}

pub fn is_white_space_char(c: char) -> (r: bool)
    ensures
        r == is_white_space(c),
{
    let u = c as u32;
    (0x09 <= u && u <= 0x0d) || u == 0x20 || u == 0x85 || u == 0xa0 || u == 0x1680
        || (0x2000 <= u && u <= 0x200a) || u == 0x2028 || u == 0x2029 || u == 0x202f
        || u == 0x205f || u == 0x3000
}

/// `s` without its leading characters that satisfy `p`.
pub open spec fn strip_leading(s: Seq<char>, p: spec_fn(char) -> bool) -> Seq<char>
    decreases s.len(),
{
    if s.len() > 0 && p(s[0]) {
        strip_leading(s.drop_first(), p)
    } else {
        s
    }
}

/// `s` without its trailing characters that satisfy `p`.
pub open spec fn strip_trailing(s: Seq<char>, p: spec_fn(char) -> bool) -> Seq<char>
    decreases s.len(),
{
    if s.len() > 0 && p(s.last()) {
        strip_trailing(s.drop_last(), p)
    } else {
        s
    }
}

/// `str::trim`: leading and trailing Unicode White_Space removed.
pub open spec fn trim_spec(s: Seq<char>) -> Seq<char> {
    strip_trailing(strip_leading(s, |c: char| is_white_space(c)), |c: char| is_white_space(c))
}

/// Index of the first character of `s` at or after `from` that is not
/// white space (or the length); everything skipped is white space.
fn skip_white_space(s: &Vec<char>, from: usize) -> (i: usize)
    requires
        from <= s@.len(),
    ensures
        from <= i <= s@.len(),
        strip_leading(s@.skip(from as int), |c: char| is_white_space(c))
            == strip_leading(s@.skip(i as int), |c: char| is_white_space(c)),
        i == s@.len() || !is_white_space(s@[i as int]),
{
    let mut i = from;
    while i < s.len() && is_white_space_char(s[i])
        invariant
            from <= i <= s@.len(),
            strip_leading(s@.skip(from as int), |c: char| is_white_space(c))
                == strip_leading(s@.skip(i as int), |c: char| is_white_space(c)),
        decreases s@.len() - i,
    {
        proof {
            assert(s@.skip(i as int).drop_first() =~= s@.skip(i as int + 1));
        }
        i = i + 1;
    }
    i
}

/// The characters of `s` with leading and trailing white space removed.
pub fn trim_chars(s: &Vec<char>) -> (t: Vec<char>)
    ensures
        t@ == trim_spec(s@),
{
    let lo = skip_white_space(s, 0);
    proof {
        assert(s@.skip(0) =~= s@);
        let r = s@.skip(lo as int);
        if r.len() > 0 {
            assert(r[0] == s@[lo as int]);
        }
        assert(strip_leading(r, |c: char| is_white_space(c)) == r);
    }
    let mut hi = s.len();
    while hi > lo && is_white_space_char(s[hi - 1])
        invariant
            lo <= hi <= s@.len(),
            strip_trailing(s@.skip(lo as int), |c: char| is_white_space(c))
                == strip_trailing(s@.subrange(lo as int, hi as int), |c: char| is_white_space(c)),
        decreases hi,
    {
        proof {
            let r = s@.subrange(lo as int, hi as int);
            assert(r.last() == s@[hi - 1]);
            assert(r.drop_last() =~= s@.subrange(lo as int, hi - 1));
        }
        hi = hi - 1;
    }
    proof {
        assert(s@.subrange(lo as int, s@.len() as int) =~= s@.skip(lo as int));
        let r = s@.subrange(lo as int, hi as int);
        if r.len() > 0 {
            assert(r.last() == s@[hi - 1]);
        }
        assert(strip_trailing(r, |c: char| is_white_space(c)) == r);
    }
    let mut t: Vec<char> = Vec::new();
    let mut k = lo;
    while k < hi
        invariant
            lo <= k <= hi <= s@.len(),
            t@ == s@.subrange(lo as int, k as int),
        decreases hi - k,
    {
        t.push(s[k]);
        k = k + 1;
        assert(t@ =~= s@.subrange(lo as int, k as int));
    }
    t
}

/// A column name as the sheet header shows it: names longer than 16
/// characters keep their first 15 and end in an ellipsis.
pub open spec fn truncate_name_spec(name: Seq<char>) -> Seq<char> {
    if name.len() > 16 {
        name.take(15).push('…')
    } else {
        name
    }
}

pub fn truncate_name(name: &str) -> (r: String)
    ensures
        r@ == truncate_name_spec(name@),
{
    let cs = chars_of(name);
    if cs.len() > 16 {
        let mut out: Vec<char> = Vec::new();
        let mut i: usize = 0;
        while i < 15
            invariant
                cs@.len() > 16,
                i <= 15,
                out@ == cs@.take(i as int),
            decreases 15 - i,
        {
            out.push(cs[i]);
            i = i + 1;
            assert(out@ =~= cs@.take(i as int));
        }
        out.push('…');
        string_from_chars(&out)
    } else {
        string_from_chars(&cs)
    }
}

/// Lowercase hex digit of a nibble.
pub open spec fn hex_digit(v: u8) -> char {
    if v < 10 {
        (48 + v) as char
    } else {
        (87 + v) as char
    }
}

/// Two lowercase hex digits per byte.
pub open spec fn hex_spec(b: Seq<u8>) -> Seq<char> {
    Seq::new(2 * b.len(), |i: int| if i % 2 == 0 { hex_digit(b[i / 2] / 16) } else { hex_digit(b[i / 2] % 16) })
}

fn hex_digit_char(v: u8) -> (c: char)
    requires
        v < 16,
    ensures
        c == hex_digit(v),
{
    if v < 10 {
        (48 + v) as char
    } else {
        (87 + v) as char
    }
}

/// Lowercase hex of `bytes`.
pub fn hex(bytes: &[u8]) -> (s: String)
    ensures
        s@ == hex_spec(bytes@),
{
    let mut s = String::new();
    let mut i: usize = 0;
    while i < bytes.len()
        invariant
            i <= bytes@.len(),
            s@ == hex_spec(bytes@).take(2 * i),
        decreases bytes@.len() - i,
    {
        let b = bytes[i];
        push_char(&mut s, hex_digit_char(b / 16));
        push_char(&mut s, hex_digit_char(b % 16));
        proof {
            let h = hex_spec(bytes@);
            assert(h[2 * i as int] == hex_digit(b / 16));
            assert(h[2 * i + 1] == hex_digit(b % 16));
        }
        i = i + 1;
        assert(s@ =~= hex_spec(bytes@).take(2 * i));
    }
    assert(hex_spec(bytes@).take(2 * i) =~= hex_spec(bytes@));
    s
}

} // verus!
