//! The session room's codecs and decisions: TOTP codes (RFC 6238, SHA-1,
//! 30 s step, 6 digits) read from the host's authenticator secret, the
//! challenge-response MAC that proves a guest holds the room key, the
//! replay guard over verified codes, the door's admission rule, frame
//! headers, and the plain wire records. Sockets and threads belong to the
//! application.

use vstd::prelude::*;
use hmac::digest::KeyInit;
use hmac::{Hmac, Mac};
use sha1::Sha1;
use std::io::Read;
use std::io::Write;
use crate::base32::{base32_decode, base32_decode_spec, base32_encode, base32_encode_spec};
use crate::text::{decimal, decimal_spec, zero_pad_spec, push_char, trim_chars, trim_spec, chars_of, text_eq, is_white_space, hex, hex_spec};
use crate::update::digits_value;
use crate::bytes::{u16_le, u16s_le, u16_from_le, u16s_to_le, u32_le, u64_le, u64_be, be_bytes, push_u32_le, push_u64_le};
use crate::raster::TILE_LEN;

verus! {

// ---------------------------------------------------------------------------
// HMAC-SHA1 (outside crates)
// ---------------------------------------------------------------------------

/// The HMAC-SHA1 tag of `msg` under `key`, as the hmac and sha1 crates
/// compute it.
pub uninterp spec fn hmac_sha1_spec(key: Seq<u8>, msg: Seq<u8>) -> Seq<u8>;

/// HMAC-SHA1 through `hmac::Hmac<sha1::Sha1>`: keyed with `key` (any
/// length is accepted), fed `msg`, finalized. The tag is a function of
/// key and message, 20 bytes long (SHA-1's output size).
#[verifier::external_body]
fn hmac_sha1(key: &[u8], msg: &[u8]) -> (tag: Vec<u8>)
    ensures
        tag@ == hmac_sha1_spec(key@, msg@),
        tag@.len() == 20,
{
    let mut mac = <Hmac<Sha1> as KeyInit>::new_from_slice(key).expect("hmac accepts any key length");
    mac.update(msg);
    mac.finalize().into_bytes().to_vec()
}

// ---------------------------------------------------------------------------
// HOTP / TOTP
// ---------------------------------------------------------------------------

/// RFC 4226 dynamic truncation of a 20-byte tag to six decimal digits:
/// the low nibble of the last byte picks four bytes, read big-endian with
/// the top bit cleared, modulo 10^6.
pub open spec fn truncate_spec(h: Seq<u8>) -> u32 {
    let off = (h[19] % 16) as int;
    let bin = (h[off] % 128) as nat * 16777216 + h[off + 1] as nat * 65536
        + h[off + 2] as nat * 256 + h[off + 3] as nat;
    (bin % 1_000_000) as u32
}

/// HOTP: the truncated HMAC of the big-endian counter.
pub open spec fn hotp_spec(secret: Seq<u8>, counter: u64) -> u32 {
    truncate_spec(hmac_sha1_spec(secret, u64_be(counter)))
}

/// TOTP: HOTP of the 30-second step that holds `unix_time`.
pub open spec fn totp_spec(secret: Seq<u8>, unix_time: u64) -> u32 {
    hotp_spec(secret, unix_time / 30)
}

fn hotp(secret: &[u8], counter: u64) -> (code: u32)
    ensures
        code == hotp_spec(secret@, counter),
        code < 1_000_000,
{
    let msg = be_bytes(counter);
    let h = hmac_sha1(secret, msg.as_slice());
    let off = (h[19] % 16) as usize;
    let bin: u32 = ((h[off] % 128) as u32) * 16777216 + (h[off + 1] as u32) * 65536
        + (h[off + 2] as u32) * 256 + (h[off + 3] as u32);
    bin % 1_000_000
}

/// The six-digit code for `unix_time`.
pub fn totp_at(secret: &[u8], unix_time: u64) -> (code: u32)
    ensures
        code == totp_spec(secret@, unix_time),
        code < 1_000_000,
{
    hotp(secret, unix_time / 30)
}

/// `format!("{:06}", code)`.
pub open spec fn six_digits(code: u32) -> Seq<char> {
    zero_pad_spec(decimal_spec(code as nat), 6)
}

pub open spec fn pow10(k: nat) -> nat
    decreases k,
{
    if k == 0 {
        1
    } else {
        10 * pow10((k - 1) as nat)
    }
}

proof fn lemma_decimal_len_bound(n: nat, k: nat)
    requires
        n < pow10(k),
        k >= 1,
    ensures
        1 <= decimal_spec(n).len() <= k,
    decreases n,
{
    if n >= 10 {
        let k1 = (k - 1) as nat;
        if k1 == 0 {
            reveal_with_fuel(pow10, 2);
            assert(pow10(k) == 10);
        } else {
            assert(n / 10 < pow10(k1));
            lemma_decimal_len_bound(n / 10, k1);
        }
    }
}

proof fn lemma_decimal_len(n: nat)
    ensures
        decimal_spec(n).len() >= 1,
        n < 1_000_000 ==> decimal_spec(n).len() <= 6,
{
    reveal_with_fuel(pow10, 7);
    assert(pow10(6) == 1_000_000);
    if n < 1_000_000 {
        lemma_decimal_len_bound(n, 6);
    }
}

/// A code as the six digits an authenticator shows.
pub fn code_text(code: u32) -> (s: String)
    requires
        code < 1_000_000,
    ensures
        s@ == six_digits(code),
        s@.len() == 6,
{
    let ds = decimal(code as u64);
    proof {
        lemma_decimal_len(code as nat);
    }
    let mut s = String::new();
    let mut k: usize = ds.len();
    while k < 6
        invariant
            ds@.len() <= k <= 6,
            s@ == Seq::new((k - ds@.len()) as nat, |i: int| '0'),
        decreases 6 - k,
    {
        push_char(&mut s, '0');
        k = k + 1;
        assert(s@ =~= Seq::new((k - ds@.len()) as nat, |i: int| '0'));
    }
    let ghost pad = s@;
    let mut i: usize = 0;
    while i < ds.len()
        invariant
            i <= ds@.len(),
            s@ == pad + ds@.take(i as int),
        decreases ds@.len() - i,
    {
        push_char(&mut s, ds[i]);
        i = i + 1;
        assert(s@ =~= pad + ds@.take(i as int));
    }
    proof {
        assert(ds@.take(i as int) =~= ds@);
        if ds@.len() >= 6 {
            assert(pad =~= Seq::<char>::empty());
            assert(s@ =~= ds@);
        }
    }
    s
}

/// What the host's authenticator shows at `now` for a base32 secret: the
/// code and the seconds left in its window; `None` when the secret does
/// not decode or decodes to nothing.
pub open spec fn code_at_spec(secret_b32: Seq<char>, now: u64) -> Option<(Seq<char>, u64)> {
    match base32_decode_spec(secret_b32) {
        Some(secret) => if secret.len() == 0 {
            None
        } else {
            Some((six_digits(totp_spec(secret, now)), (30 - now % 30) as u64))
        },
        None => None,
    }
}

/// The code at a given time.
pub fn code_at(secret_b32: &str, now: u64) -> (r: Option<(String, u64)>)
    ensures
        match r {
            Some((s, left)) => code_at_spec(secret_b32@, now) == Some((s@, left)),
            None => code_at_spec(secret_b32@, now) is None,
        },
{
    let secret = match base32_decode(secret_b32) {
        Some(v) => v,
        None => return None,
    };
    if secret.len() == 0 {
        return None;
    }
    let code = totp_at(secret.as_slice(), now);
    Some((code_text(code), 30 - now % 30))
}

/// `std::time::SystemTime::now`, as whole seconds since the Unix epoch
/// (`duration_since(UNIX_EPOCH)`, 0 if the clock reads before the epoch).
/// Nothing is promised of the value: it is the time.
#[verifier::external_body]
fn now_unix() -> u64 {
    std::time::SystemTime::now()
        .duration_since(std::time::UNIX_EPOCH)
        .map(|d| d.as_secs())
        .unwrap_or(0)
}

/// The code the host's authenticator is showing right now, and the seconds
/// left in its window — whatever the clock reads, the pair is the code at
/// some time `t`, and `None` comes exactly when the secret is unusable.
pub fn current_code(secret_b32: &str) -> (r: Option<(String, u64)>)
    ensures
        r is None <==> (match base32_decode_spec(secret_b32@) {
            Some(secret) => secret.len() == 0,
            None => true,
        }),
        match r {
            Some((s, left)) => exists|t: u64| code_at_spec(secret_b32@, t) == Some((s@, left)),
            None => true,
        },
{
    let now = now_unix();
    code_at(secret_b32, now)
}

// ---------------------------------------------------------------------------
// Verifying a typed code, with replay refused
// ---------------------------------------------------------------------------

pub open spec fn all_digits(ds: Seq<char>) -> bool {
    forall|i: int| 0 <= i < ds.len() ==> '0' <= #[trigger] ds[i] <= '9'
}

/// `str::parse::<u32>`: an optional '+', then one or more ASCII digits
/// whose value fits in a `u32`.
pub open spec fn parse_u32_spec(t: Seq<char>) -> Option<u32> {
    let ds = if t.len() > 0 && t[0] == '+' { t.drop_first() } else { t };
    if ds.len() > 0 && all_digits(ds) && digits_value(ds) <= u32::MAX {
        Some(digits_value(ds) as u32)
    } else {
        None
    }
}

pub fn parse_u32(t: &Vec<char>) -> (r: Option<u32>)
    ensures
        r == parse_u32_spec(t@),
{
    let start: usize = if t.len() > 0 && t[0] == '+' { 1 } else { 0 };
    let ghost ds = if t@.len() > 0 && t@[0] == '+' { t@.drop_first() } else { t@ };
    assert(ds =~= t@.skip(start as int));
    if start == t.len() {
        return None;
    }
    let mut i = start;
    let mut acc: u64 = 0;
    while i < t.len()
        invariant
            start < t@.len(),
            ds == t@.skip(start as int),
            ds == (if t@.len() > 0 && t@[0] == '+' { t@.drop_first() } else { t@ }),
            start <= i <= t@.len(),
            all_digits(ds.take(i - start)),
            acc == digits_value(ds.take(i - start)),
            acc <= u32::MAX,
        decreases t@.len() - i,
    {
        let c = t[i];
        if !('0' <= c && c <= '9') {
            proof {
                assert(ds[i - start] == c);
                assert(!('0' <= ds[i - start] <= '9'));
                assert(!all_digits(ds));
            }
            return None;
        }
        proof {
            let p = ds.take(i - start + 1);
            assert(p.drop_last() =~= ds.take(i - start));
            assert(p.last() == c);
        }
        let next = acc * 10 + (c as u32 - 48) as u64;
        if next > 0xffff_ffff {
            proof {
                // Every longer prefix only grows.
                let k = i - start + 1;
                assert(digits_value(ds.take(k)) == next);
                assert forall|j: int| k <= j <= ds.len() && all_digits(ds.take(j))
                    implies digits_value(ds.take(j)) > u32::MAX by {
                    lemma_prefix_value_grows(ds, k, j);
                }
                assert(ds.take(ds.len() as int) =~= ds);
            }
            return None;
        }
        acc = next;
        i = i + 1;
    }
    proof {
        assert(ds.take(i - start) =~= ds);
    }
    Some(acc as u32)
}

/// Digit prefixes only grow in value.
pub(crate) proof fn lemma_prefix_value_grows(ds: Seq<char>, k: int, j: int)
    requires
        0 <= k <= j <= ds.len(),
        all_digits(ds.take(j)),
    ensures
        digits_value(ds.take(j)) >= digits_value(ds.take(k)),
    decreases j - k,
{
    if j > k {
        assert(ds.take(j).drop_last() =~= ds.take(j - 1));
        assert(all_digits(ds.take(j - 1)));
        lemma_prefix_value_grows(ds, k, j - 1);
    }
}

/// `x - y`, or 0 when `y > x`.
pub open spec fn sat_sub(x: u64, y: u64) -> u64 {
    if y > x { 0 } else { (x - y) as u64 }
}

/// The counters tried for a code typed at `now`: the step before (wrapping
/// below 0), the current step, and the step after.
pub open spec fn windows(now: u64) -> Seq<u64> {
    let step = now / 30;
    seq![if step == 0 { u64::MAX } else { (step - 1) as u64 }, step, (step + 1) as u64]
}

/// A burn lasts while its window is fewer than 10 steps behind `now`'s.
pub open spec fn burn_survives(now: u64, p: (u64, u32)) -> bool {
    sat_sub(now / 30, p.0) < 10
}

/// The outcome of verifying `code` at `now` against the burned pairs: the
/// verdict and the burned pairs after. The first window (in order) whose
/// code matches decides; its (window, code) pair must not be burned yet,
/// and a verified pair is burned, with burns of windows 10 or more steps
/// old dropped.
pub open spec fn verify_outcome(secret: Seq<u8>, code: Seq<char>, now: u64, burned: Seq<(u64, u32)>)
    -> (bool, Seq<(u64, u32)>)
{
    match parse_u32_spec(trim_spec(code)) {
        None => (false, burned),
        Some(c) => {
            let ws = windows(now);
            if exists|i: int| 0 <= i < 3 && hotp_spec(secret, ws[i]) == c {
                let i = choose|i: int| 0 <= i < 3 && hotp_spec(secret, ws[i]) == c
                    && forall|j: int| 0 <= j < i ==> hotp_spec(secret, ws[j]) != c;
                if burned.contains((ws[i], c)) {
                    (false, burned)
                } else {
                    (true, burned.push((ws[i], c)).filter(|p: (u64, u32)| burn_survives(now, p)))
                }
            } else {
                (false, burned)
            }
        },
    }
}

fn vec_contains_pair(v: &Vec<(u64, u32)>, p: (u64, u32)) -> (r: bool)
    ensures
        r == v@.contains(p),
{
    let mut i: usize = 0;
    while i < v.len()
        invariant
            i <= v@.len(),
            forall|j: int| 0 <= j < i ==> v@[j] != p,
        decreases v@.len() - i,
    {
        if v[i].0 == p.0 && v[i].1 == p.1 {
            assert(v@[i as int] == p);
            return true;
        }
        i = i + 1;
    }
    false
}

/// Keep the burns that survive at `now`, in order.
fn retain_burns(v: &mut Vec<(u64, u32)>, now: u64)
    ensures
        final(v)@ == old(v)@.filter(|p: (u64, u32)| burn_survives(now, p)),
{
    let step = now / 30;
    let mut src: Vec<(u64, u32)> = Vec::new();
    std::mem::swap(&mut src, v);
    let mut i: usize = 0;
    while i < src.len()
        invariant
            i <= src@.len(),
            src@ == old(v)@,
            step == now / 30,
            v@ == src@.take(i as int).filter(|p: (u64, u32)| burn_survives(now, p)),
        decreases src@.len() - i,
    {
        let p = src[i];
        proof {
            reveal(Seq::filter);
            assert(src@.take(i + 1).drop_last() =~= src@.take(i as int));
            assert(src@.take(i + 1).last() == p);
        }
        let age = step.saturating_sub(p.0);
        if age < 10 {
            v.push(p);
        }
        i = i + 1;
    }
    proof {
        assert(src@.take(i as int) =~= src@);
    }
}

/// Verify a typed code at `now` with a ±1-step window; a verified
/// (window, code) pair is burned, so the same code is refused on replay.
pub fn verify_totp_at(secret: &[u8], code: &str, now: u64, burned: &mut Vec<(u64, u32)>) -> (ok: bool)
    ensures
        (ok, final(burned)@) == verify_outcome(secret@, code@, now, old(burned)@),
{
    let cs = chars_of(code);
    let t = trim_chars(&cs);
    let c = match parse_u32(&t) {
        Some(c) => c,
        None => return false,
    };
    let step = now / 30;
    let w0 = step.wrapping_sub(1);
    let w1 = step;
    let w2 = step + 1;
    let ghost ws = windows(now);
    proof {
        assert(ws[0] == w0);
        assert(ws[1] == w1);
        assert(ws[2] == w2);
    }
    let h0 = hotp(secret, w0);
    let h1 = hotp(secret, w1);
    let h2 = hotp(secret, w2);
    let w = if h0 == c {
        w0
    } else if h1 == c {
        w1
    } else if h2 == c {
        w2
    } else {
        return false;
    };
    let ghost i: int = if h0 == c { 0 } else if h1 == c { 1 } else { 2 };
    proof {
        assert(ws[i] == w);
        assert(hotp_spec(secret@, ws[i]) == c);
        assert(forall|j: int| 0 <= j < i ==> hotp_spec(secret@, ws[j]) != c);
        let k = choose|k: int| 0 <= k < 3 && hotp_spec(secret@, ws[k]) == c
            && forall|j: int| 0 <= j < k ==> hotp_spec(secret@, ws[j]) != c;
        assert(k == i);
    }
    if vec_contains_pair(burned, (w, c)) {
        return false;
    }
    burned.push((w, c));
    retain_burns(burned, now);
    true
}

/// Verify a typed code against the clock; whatever the clock reads, the
/// outcome is the verification at some time.
pub fn verify_totp(secret: &[u8], code: &str, burned: &mut Vec<(u64, u32)>) -> (ok: bool)
    ensures
        exists|t: u64| (ok, final(burned)@) == verify_outcome(secret@, code@, t, old(burned)@),
{
    let now = now_unix();
    verify_totp_at(secret, code, now, burned)
}

/// Replay is refused: once a code verifies at `now`, the same code typed
/// again at `now` against the updated burns does not.
pub proof fn lemma_burned_code_refuses_replay(secret: Seq<u8>, code: Seq<char>, now: u64, burned: Seq<(u64, u32)>)
    requires
        verify_outcome(secret, code, now, burned).0,
    ensures
        !verify_outcome(secret, code, now, verify_outcome(secret, code, now, burned).1).0,
{
    let c = parse_u32_spec(trim_spec(code)).unwrap();
    let ws = windows(now);
    let i = choose|i: int| 0 <= i < 3 && hotp_spec(secret, ws[i]) == c
        && forall|j: int| 0 <= j < i ==> hotp_spec(secret, ws[j]) != c;
    let pushed = burned.push((ws[i], c));
    let after = pushed.filter(|p: (u64, u32)| burn_survives(now, p));
    assert(burn_survives(now, (ws[i], c)));
    reveal(Seq::filter);
    assert(pushed.drop_last() =~= burned);
    assert(after == burned.filter(|p: (u64, u32)| burn_survives(now, p)).push((ws[i], c)));
    assert(after.contains((ws[i], c))) by {
        assert(after[after.len() - 1] == (ws[i], c));
    }
}

/// The digits of `n` read back as `n`.
pub(crate) proof fn lemma_decimal_reads_back(n: nat)
    ensures
        decimal_spec(n).len() >= 1,
        all_digits(decimal_spec(n)),
        digits_value(decimal_spec(n)) == n,
    decreases n,
{
    let d = n % 10;
    assert(crate::text::digit_char(d) as nat == 48 + d);
    if n < 10 {
        let s = decimal_spec(n);
        assert(s.drop_last() =~= Seq::<char>::empty());
        assert(digits_value(s.drop_last()) == 0);
    } else {
        lemma_decimal_reads_back(n / 10);
        let s = decimal_spec(n / 10);
        let t = s.push(crate::text::digit_char(n % 10));
        assert(t.drop_last() =~= s);
        assert forall|i: int| 0 <= i < t.len() implies '0' <= #[trigger] t[i] <= '9' by {
            if i < s.len() {
                assert(t[i] == s[i]);
            }
        }
    }
}

/// Leading zeros add nothing to a digit string's value.
proof fn lemma_zeros_read_as_nothing(z: Seq<char>, s: Seq<char>)
    requires
        forall|i: int| 0 <= i < z.len() ==> #[trigger] z[i] == '0',
    ensures
        digits_value(z + s) == digits_value(s),
    decreases z.len() + s.len(),
{
    if s.len() == 0 {
        assert(z + s =~= z);
        if z.len() > 0 {
            assert(z.drop_last() + s =~= z.drop_last());
            lemma_zeros_read_as_nothing(z.drop_last(), s);
        }
    } else {
        assert((z + s).drop_last() =~= z + s.drop_last());
        lemma_zeros_read_as_nothing(z, s.drop_last());
    }
}

/// The six digits shown for a code parse back to the code.
proof fn lemma_six_digits_parse(c: u32)
    requires
        c < 1_000_000,
    ensures
        parse_u32_spec(trim_spec(six_digits(c))) == Some(c),
{
    let d = decimal_spec(c as nat);
    lemma_decimal_reads_back(c as nat);
    lemma_decimal_len(c as nat);
    let t = six_digits(c);
    if d.len() < 6 {
        let z = Seq::new((6 - d.len()) as nat, |i: int| '0');
        assert(t == z + d);
        lemma_zeros_read_as_nothing(z, d);
        assert forall|i: int| 0 <= i < t.len() implies '0' <= #[trigger] t[i] <= '9' by {
            if i >= z.len() {
                assert(t[i] == d[i - z.len()]);
            }
        }
    }
    assert(all_digits(t));
    assert(t.len() >= 1);
    assert('0' <= t[0] <= '9');
    assert('0' <= t.last() <= '9');
    assert(!is_white_space(t[0]));
    assert(!is_white_space(t.last()));
    let p = |ch: char| is_white_space(ch);
    assert(crate::text::strip_leading(t, p) == t);
    assert(crate::text::strip_trailing(t, p) == t);
    assert(trim_spec(t) == t);
}

/// A fresh code verifies: the six digits shown for `now` are accepted at
/// `now` while no window's pair for that code is burned.
pub proof fn lemma_fresh_code_verifies(secret: Seq<u8>, now: u64, burned: Seq<(u64, u32)>)
    requires
        !burned.contains((windows(now)[0], totp_spec(secret, now))),
        !burned.contains((windows(now)[1], totp_spec(secret, now))),
        !burned.contains((windows(now)[2], totp_spec(secret, now))),
    ensures
        verify_outcome(secret, six_digits(totp_spec(secret, now)), now, burned).0,
{
    let c = totp_spec(secret, now);
    lemma_six_digits_parse(c);
    let ws = windows(now);
    assert(hotp_spec(secret, ws[1]) == c);
    let i = choose|i: int| 0 <= i < 3 && hotp_spec(secret, ws[i]) == c
        && forall|j: int| 0 <= j < i ==> hotp_spec(secret, ws[j]) != c;
    if hotp_spec(secret, ws[0]) == c {
        assert(forall|j: int| 0 <= j < 0 ==> hotp_spec(secret, ws[j]) != c);
    } else {
        assert(forall|j: int| 0 <= j < 1 ==> hotp_spec(secret, ws[j]) != c);
    }
    assert(0 <= i < 3);
}

// ---------------------------------------------------------------------------
// The room key: challenge-response MAC
// ---------------------------------------------------------------------------


/// The key bytes a room key stands for: its base32 decoding, or nothing
/// when it does not decode.
pub open spec fn key_bytes_spec(key: Seq<char>) -> Seq<u8> {
    match base32_decode_spec(key) {
        Some(k) => k,
        None => Seq::empty(),
    }
}

/// The proof a guest sends: hex HMAC-SHA1 under the room key's bytes over
/// the nonce's UTF-8 bytes followed by the code's. The key itself never
/// crosses the wire.
pub open spec fn auth_mac_spec(key: Seq<char>, nonce: Seq<char>, code: Seq<char>) -> Seq<char> {
    hex_spec(hmac_sha1_spec(key_bytes_spec(key), vstd::utf8::encode_utf8(nonce) + vstd::utf8::encode_utf8(code)))
}

pub fn auth_mac(key: &str, nonce: &str, code: &str) -> (m: String)
    ensures
        m@ == auth_mac_spec(key@, nonce@, code@),
{
    let key_bytes = match base32_decode(key) {
        Some(k) => k,
        None => Vec::new(),
    };
    let nb = nonce.as_bytes();
    let cb = code.as_bytes();
    let mut msg: Vec<u8> = Vec::new();
    let mut i: usize = 0;
    while i < nb.len()
        invariant
            i <= nb@.len(),
            msg@ == nb@.take(i as int),
        decreases nb@.len() - i,
    {
        msg.push(nb[i]);
        i = i + 1;
        assert(msg@ =~= nb@.take(i as int));
    }
    assert(nb@.take(i as int) =~= nb@);
    let mut j: usize = 0;
    while j < cb.len()
        invariant
            j <= cb@.len(),
            msg@ == nb@ + cb@.take(j as int),
        decreases cb@.len() - j,
    {
        msg.push(cb[j]);
        j = j + 1;
        assert(msg@ =~= nb@ + cb@.take(j as int));
    }
    assert(cb@.take(j as int) =~= cb@);
    let tag = hmac_sha1(key_bytes.as_slice(), msg.as_slice());
    hex(tag.as_slice())
}

// ---------------------------------------------------------------------------
// The door
// ---------------------------------------------------------------------------

/// The door's answer to a guest's proof.
#[derive(Debug, Clone, PartialEq, Eq)]
pub enum Admission {
    Admit,
    Refuse(String),
}

/// Why a guest was refused, or nothing when admitted: a wrong MAC (unless
/// the room is open to the network) refuses the key; a join name that is
/// blank, the host's own, or already in the room refuses the name.
pub open spec fn admission_spec(
    open: bool,
    key: Seq<char>,
    nonce: Seq<char>,
    code: Seq<char>,
    mac: Seq<char>,
    username: Seq<char>,
    host_name: Seq<char>,
    names: Seq<Seq<char>>,
) -> Option<Seq<char>> {
    if !(open || mac == auth_mac_spec(key, nonce, code)) {
        Some("the room key was refused"@)
    } else if trim_spec(username).len() == 0 || username == host_name || names.contains(username) {
        Some("the artist name '"@ + username + "' is already in this room — change yours in Settings › Session"@)
    } else {
        None
    }
}

/// Decide a guest's admission from its proof and join name, given the
/// names already in the room.
pub fn admit_guest(
    open: bool,
    key: &str,
    nonce: &str,
    code: &str,
    mac: &str,
    username: &str,
    host_name: &str,
    names: &Vec<String>,
) -> (a: Admission)
    ensures
        match a {
            Admission::Admit => admission_spec(open, key@, nonce@, code@, mac@, username@, host_name@,
                names@.map_values(|n: String| n@)) is None,
            Admission::Refuse(why) => admission_spec(open, key@, nonce@, code@, mac@, username@, host_name@,
                names@.map_values(|n: String| n@)) == Some(why@),
        },
{
    let ghost ns = names@.map_values(|n: String| n@);
    if !open {
        let expected = auth_mac(key, nonce, code);
        if !text_eq(mac, expected.as_str()) {
            return Admission::Refuse(String::from_str("the room key was refused"));
        }
    }
    let uc = chars_of(username);
    let trimmed = trim_chars(&uc);
    let mut taken = trimmed.len() == 0 || text_eq(username, host_name);
    let mut i: usize = 0;
    while i < names.len() && !taken
        invariant
            i <= names@.len(),
            ns == names@.map_values(|n: String| n@),
            taken == (trim_spec(username@).len() == 0 || username@ == host_name@
                || exists|j: int| 0 <= j < i && ns[j] == username@),
        decreases names@.len() - i,
    {
        proof {
            assert(ns[i as int] == names@[i as int]@);
        }
        if text_eq(names[i].as_str(), username) {
            taken = true;
        }
        i = i + 1;
    }
    proof {
        if !taken {
            assert(i == names@.len());
            assert(!ns.contains(username@));
        } else if !(trim_spec(username@).len() == 0 || username@ == host_name@) {
            let j = choose|j: int| 0 <= j < i && ns[j] == username@;
            assert(ns.contains(username@));
        }
    }
    if taken {
        let why = String::from_str("the artist name '").concat(username)
            .concat("' is already in this room — change yours in Settings › Session");
        Admission::Refuse(why)
    } else {
        Admission::Admit
    }
}

// ---------------------------------------------------------------------------
// Frames: length-prefixed, one kind byte
// ---------------------------------------------------------------------------

/// A JSON message.
pub const FRAME_JSON: u8 = 0;
/// Raw document snapshot bytes.
pub const FRAME_DOC: u8 = 1;
/// A command batch (host to guests, and guests' predictions).
pub const FRAME_CMDS: u8 = 2;
/// A stroke frame; its first payload byte is the subkind.
pub const FRAME_STROKE: u8 = 3;
/// The largest payload a reader accepts (snapshots can be large).
pub const MAX_FRAME: u32 = 268435456;

/// Big-endian bytes of a u32.
pub open spec fn u32_be(x: u32) -> Seq<u8> {
    seq![((x >> 24u32) & 0xff) as u8, ((x >> 16u32) & 0xff) as u8, ((x >> 8u32) & 0xff) as u8, (x & 0xff) as u8]
}

/// The value of four big-endian bytes.
pub open spec fn be_u32_value(b: Seq<u8>) -> nat {
    b[0] as nat * 16777216 + b[1] as nat * 65536 + b[2] as nat * 256 + b[3] as nat
}

/// The five header bytes written before a payload of `len` bytes: the
/// length as a big-endian u32 (taken modulo 2^32), then the kind.
pub open spec fn frame_header_spec(kind: u8, len: usize) -> Seq<u8> {
    u32_be((len as nat % 0x1_0000_0000) as u32).push(kind)
}

pub fn frame_header(kind: u8, len: usize) -> (h: Vec<u8>)
    ensures
        h@ == frame_header_spec(kind, len),
{
    let n = (len as u64 % 0x1_0000_0000) as u32;
    let mut h: Vec<u8> = Vec::new();
    h.push(((n >> 24u32) & 0xff) as u8);
    h.push(((n >> 16u32) & 0xff) as u8);
    h.push(((n >> 8u32) & 0xff) as u8);
    h.push((n & 0xff) as u8);
    h.push(kind);
    assert(h@ =~= frame_header_spec(kind, len));
    h
}

/// The payload length a received length prefix announces, or `None` when
/// it is larger than `MAX_FRAME` (the reader refuses such a frame).
pub fn frame_len(prefix: &[u8]) -> (r: Option<u32>)
    requires
        prefix@.len() == 4,
    ensures
        match r {
            Some(n) => n == be_u32_value(prefix@) && n <= MAX_FRAME,
            None => be_u32_value(prefix@) > MAX_FRAME,
        },
{
    let n: u32 = (prefix[0] as u32) * 16777216 + (prefix[1] as u32) * 65536 + (prefix[2] as u32) * 256
        + (prefix[3] as u32);
    if n > MAX_FRAME {
        None
    } else {
        Some(n)
    }
}

/// What a header announces is what was written: a payload of at most
/// `MAX_FRAME` bytes is read back at its own length.
pub proof fn lemma_frame_len_roundtrip(kind: u8, len: usize)
    requires
        len <= MAX_FRAME,
    ensures
        be_u32_value(frame_header_spec(kind, len).take(4)) == len,
{
    let v: u32 = (len as nat % 0x1_0000_0000) as u32;
    assert(v == len);
    let h = frame_header_spec(kind, len);
    assert(h.take(4) =~= u32_be(v));
    assert(((v >> 24u32) & 0xff) <= 255 && ((v >> 16u32) & 0xff) <= 255 && ((v >> 8u32) & 0xff) <= 255
        && (v & 0xff) <= 255) by (bit_vector);
    assert(v == ((v >> 24u32) & 0xff) * 16777216 + ((v >> 16u32) & 0xff) * 65536
        + ((v >> 8u32) & 0xff) * 256 + (v & 0xff)) by (bit_vector);
}

// ---------------------------------------------------------------------------
// Wire records (their serialized forms are the application's)
// ---------------------------------------------------------------------------

/// The end of a stroke.
#[derive(Debug, Clone, PartialEq, Eq)]
pub struct StrokeEndWire {
    pub author: String,
    pub stroke_id: u64,
    /// Host to peers: the global order stamp. Guest to host: 0.
    pub seq: u64,
    /// false = the stroke never landed (peers drop it; the seq is a
    /// sequenced no-op so the lane stays in step).
    pub ok: bool,
}

/// The committed after-state of a stroke, per touched tile.
#[derive(Debug, Clone, PartialEq, Eq)]
pub struct StrokeHashesWire {
    pub stroke_id: u64,
    pub seq: u64,
    pub drawing: u64,
    pub layer_name: String,
    /// (x, y, hash; 0 = gone).
    pub tiles: Vec<(i32, i32, u64)>,
}

/// The start of a stroke. The brush's float settings travel as their
/// IEEE-754 bit patterns, which nothing here reads.
#[derive(Debug)]
pub struct StrokeBegin {
    pub author: String,
    pub stroke_id: u64,
    pub drawing: u64,
    pub layer_name: String,
    /// 0 = ink, 1 = erase, 2 = alpha-lock.
    pub mode: u8,
    pub opacity_bits: u32,
    /// (content hash, w, h, GIH frames)
    pub tip: Option<(u64, u32, u32, u32)>,
    /// (content hash, w, h, scale bits, strength bits)
    pub grain: Option<(u64, u32, u32, u32, u32)>,
}

/// The host's relay of a guest's stroke start: the author is the guest's
/// join name, never the payload's claim; everything else passes as sent.
pub fn stamp_author(begin: StrokeBegin, join_name: &String) -> (b: StrokeBegin)
    ensures
        b.author@ == join_name@,
        b.stroke_id == begin.stroke_id,
        b.drawing == begin.drawing,
        b.layer_name@ == begin.layer_name@,
        b.mode == begin.mode,
        b.opacity_bits == begin.opacity_bits,
        b.tip == begin.tip,
        b.grain == begin.grain,
{
    StrokeBegin { author: join_name.clone(), ..begin }
}

/// One command batch on the wire: who produced it, and (host to peers) its
/// place in the one order. Guests send seq 0; the host stamps the origin
/// from the join name, never the payload.
#[derive(Debug)]
pub struct CmdBatchWire {
    pub seq: u64,
    pub origin: String,
    pub cmds: Vec<crate::command::Command>,
}

// ---------------------------------------------------------------------------
// LAN discovery
// ---------------------------------------------------------------------------

/// A room seen on this network.
pub struct Beacon {
    pub name: String,
    pub addr: String,
    pub version: String,
    pub open: bool,
    pub last: std::time::Instant,
}

/// The characters of an optional string.
pub open spec fn opt_text(o: Option<String>) -> Option<Seq<char>> {
    match o {
        Some(s) => Some(s@),
        None => None,
    }
}

/// The port a beacon that names none is taken to listen on.
pub const DEFAULT_ROOM_PORT: u64 = 41100;

/// The room a received beacon announces, from the fields it carried:
/// only a beacon marked with protocol 1 counts; the port (default 41100)
/// is taken modulo 2^16 and joined to the sender's address; a missing name
/// reads "room", a missing version "?", a missing open flag false.
pub open spec fn beacon_fields_spec(
    gaban: Option<u64>,
    name: Option<Seq<char>>,
    port: Option<u64>,
    ver: Option<Seq<char>>,
    open: Option<bool>,
    ip: Seq<char>,
) -> Option<(Seq<char>, Seq<char>, Seq<char>, bool)> {
    if gaban != Some(1u64) {
        None
    } else {
        let p = match port { Some(p) => p, None => DEFAULT_ROOM_PORT };
        let addr = ip + ":"@ + decimal_spec((p % 65536) as nat);
        Some((
            match name { Some(n) => n, None => "room"@ },
            addr,
            match ver { Some(v) => v, None => "?"@ },
            match open { Some(o) => o, None => false },
        ))
    }
}

/// Read a beacon's fields (already taken out of its JSON) into a room,
/// stamped with the moment it was seen.
pub fn read_beacon(
    gaban: Option<u64>,
    name: Option<String>,
    port: Option<u64>,
    ver: Option<String>,
    open: Option<bool>,
    ip: String,
    seen: std::time::Instant,
) -> (b: Option<Beacon>)
    ensures
        match b {
            Some(b) => beacon_fields_spec(gaban, opt_text(name), port, opt_text(ver), open, ip@)
                == Some((b.name@, b.addr@, b.version@, b.open)) && b.last == seen,
            None => beacon_fields_spec(gaban, opt_text(name), port, opt_text(ver), open, ip@)
                is None,
        },
{
    match gaban {
        Some(g) => {
            if g != 1 {
                return None;
            }
        },
        None => {
            return None;
        },
    }
    let p: u64 = match port {
        Some(p) => p,
        None => DEFAULT_ROOM_PORT,
    };
    let port16 = p % 65536;
    let mut addr = ip.concat(":");
    let ds = decimal(port16);
    let ghost head = addr@;
    let mut i: usize = 0;
    while i < ds.len()
        invariant
            i <= ds@.len(),
            addr@ == head + ds@.take(i as int),
        decreases ds@.len() - i,
    {
        push_char(&mut addr, ds[i]);
        i = i + 1;
        assert(addr@ =~= head + ds@.take(i as int));
    }
    assert(ds@.take(i as int) =~= ds@);
    let name = match name {
        Some(n) => n,
        None => String::from_str("room"),
    };
    let version = match ver {
        Some(v) => v,
        None => String::from_str("?"),
    };
    let open = match open {
        Some(o) => o,
        None => false,
    };
    Some(Beacon { name, addr, version, open, last: seen })
}

// ---------------------------------------------------------------------------
// The guest's shipped debug log
// ---------------------------------------------------------------------------

/// How many log lines a guest holds for shipping before it stops taking
/// more (the oldest lines of the window are the instrument).
pub const SHIP_CAP: usize = 800;

/// The marker appended once when the ship buffer fills.
pub open spec fn ship_full_marker() -> Seq<char> {
    "… ship buffer full — later lines dropped this window"@
}

/// One line pushed onto the buffered lines `l`: below the cap it is kept;
/// at the cap the "buffer full" marker goes in its place; past it nothing.
pub open spec fn ship_step(l: Seq<Seq<char>>, line: Seq<char>) -> Seq<Seq<char>> {
    if l.len() < SHIP_CAP {
        l.push(line)
    } else if l.len() == SHIP_CAP {
        l.push(ship_full_marker())
    } else {
        l
    }
}

/// The buffered lines after `ms` is pushed onto `l`, in order.
pub open spec fn ship_after(l: Seq<Seq<char>>, ms: Seq<Seq<char>>) -> Seq<Seq<char>>
    decreases ms.len(),
{
    if ms.len() == 0 {
        l
    } else {
        ship_step(ship_after(l, ms.drop_last()), ms.last())
    }
}

/// A shipping window: the lines pushed after arming come out of the next
/// drain as the first `SHIP_CAP` of them in order, followed by one "buffer
/// full" marker exactly when more were pushed.
pub proof fn lemma_ship_window(ms: Seq<Seq<char>>)
    ensures
        ship_after(Seq::empty(), ms) == (if ms.len() <= SHIP_CAP {
            ms
        } else {
            ms.take(SHIP_CAP as int).push(ship_full_marker())
        }),
    decreases ms.len(),
{
    if ms.len() > 0 {
        let p = ms.drop_last();
        lemma_ship_window(p);
        if ms.len() <= SHIP_CAP {
            assert(p.push(ms.last()) =~= ms);
        } else if ms.len() == SHIP_CAP + 1 {
            assert(p =~= ms.take(SHIP_CAP as int));
        } else {
            assert(p.take(SHIP_CAP as int) =~= ms.take(SHIP_CAP as int));
        }
    }
}

proof fn lemma_ship_prefix(states: Seq<Option<Seq<Seq<char>>>>, ms: Seq<Seq<char>>, n: int)
    requires
        0 <= n <= ms.len(),
        states.len() == ms.len() + 1,
        states[0] == Some(Seq::<Seq<char>>::empty()),
        forall|i: int| 0 <= i < ms.len() ==> #[trigger] states[i + 1] == match states[i] {
            None => None,
            Some(l) => Some(ship_step(l, ms[i])),
        },
    ensures
        states[n] == Some(ship_after(Seq::empty(), ms.take(n))),
    decreases n,
{
    if n == 0 {
        assert(ms.take(0) =~= Seq::<Seq<char>>::empty());
    } else {
        lemma_ship_prefix(states, ms, n - 1);
        assert(states[(n - 1) + 1] == Some(ship_step(ship_after(Seq::empty(), ms.take(n - 1)), ms[n - 1])));
        assert(ms.take(n).drop_last() =~= ms.take(n - 1));
        assert(ms.take(n).last() == ms[n - 1]);
    }
}

/// Pushes into an armed buffer, one by one: when `states[i + 1]` is what
/// `ShipBuffer::push` leaves after `states[i]` and line `ms[i]`, starting
/// from a freshly armed (empty) buffer, the buffer then holds the first
/// `SHIP_CAP` lines in call order, followed by one "buffer full" marker
/// exactly when more were pushed; the next drain hands out exactly that.
pub proof fn lemma_ship_pushes(states: Seq<Option<Seq<Seq<char>>>>, ms: Seq<Seq<char>>)
    requires
        states.len() == ms.len() + 1,
        states[0] == Some(Seq::<Seq<char>>::empty()),
        forall|i: int| 0 <= i < ms.len() ==> #[trigger] states[i + 1] == match states[i] {
            None => None,
            Some(l) => Some(ship_step(l, ms[i])),
        },
    ensures
        states[ms.len() as int] == Some(if ms.len() <= SHIP_CAP {
            ms
        } else {
            ms.take(SHIP_CAP as int).push(ship_full_marker())
        }),
{
    lemma_ship_prefix(states, ms, ms.len() as int);
    assert(ms.take(ms.len() as int) =~= ms);
    lemma_ship_window(ms);
}

/// Log lines waiting to be shipped to the host; `None` while not armed
/// (outside a session).
pub struct ShipBuffer {
    pub lines: Option<Vec<String>>,
}

pub open spec fn lines_view(v: Vec<String>) -> Seq<Seq<char>> {
    v@.map_values(|s: String| s@)
}

impl ShipBuffer {
    pub open spec fn view(&self) -> Option<Seq<Seq<char>>> {
        match self.lines {
            Some(v) => Some(lines_view(v)),
            None => None,
        }
    }

    /// A disarmed buffer.
    pub fn new() -> (b: Self)
        ensures
            b@ is None,
    {
        ShipBuffer { lines: None }
    }

    /// Arm (empty) or disarm the buffer. Arming resets it.
    pub fn arm(&mut self, on: bool)
        ensures
            final(self)@ == (if on { Some(Seq::<Seq<char>>::empty()) } else { None::<Seq<Seq<char>>> }),
    {
        if on {
            let v: Vec<String> = Vec::new();
            assert(lines_view(v) =~= Seq::<Seq<char>>::empty());
            self.lines = Some(v);
        } else {
            self.lines = None;
        }
    }

    /// Take everything buffered since the last drain (nothing when
    /// disarmed); an armed buffer stays armed and empty.
    pub fn drain(&mut self) -> (r: Vec<String>)
        ensures
            match old(self)@ {
                Some(l) => lines_view(r) == l && final(self)@ == Some(Seq::<Seq<char>>::empty()),
                None => r@.len() == 0 && final(self)@ is None,
            },
    {
        match self.lines.take() {
            Some(v) => {
                let e: Vec<String> = Vec::new();
                assert(lines_view(e) =~= Seq::<Seq<char>>::empty());
                self.lines = Some(e);
                v
            },
            None => Vec::new(),
        }
    }

    /// Buffer one line when armed: below the cap it is kept; at the cap the
    /// "buffer full" marker is added once; past it the line is dropped.
    pub fn push(&mut self, line: String)
        ensures
            match old(self)@ {
                None => final(self)@ is None,
                Some(l) => final(self)@ == Some(ship_step(l, line@)),
            },
    {
        match self.lines.take() {
            Some(mut v) => {
                let ghost pre = v;
                if v.len() < SHIP_CAP {
                    v.push(line);
                    assert(lines_view(v) =~= lines_view(pre).push(line@));
                } else if v.len() == SHIP_CAP {
                    v.push(String::from_str("… ship buffer full — later lines dropped this window"));
                    assert(lines_view(v) =~= lines_view(pre).push(ship_full_marker()));
                }
                self.lines = Some(v);
            },
            None => {},
        }
    }
}

// ---------------------------------------------------------------------------
// Compressed payloads (flate2)
// ---------------------------------------------------------------------------

/// The raw DEFLATE stream flate2 writes for `data` at its fast level.
pub uninterp spec fn deflate_spec(data: Seq<u8>) -> Seq<u8>;

/// What flate2's DEFLATE decoder reads from `data`: the decompressed bytes,
/// or `None` when it reports an error.
pub uninterp spec fn inflate_spec(data: Seq<u8>) -> Option<Seq<u8>>;

/// `flate2::write::DeflateEncoder` over a `Vec<u8>` at
/// `Compression::fast()`: write everything, finish. A function of the
/// input; DEFLATE is lossless, so the decoder reads the input back. (A
/// `Vec` sink never fails, so the raw-input fallback on a finishing error
/// is not taken.)
#[verifier::external_body]
fn deflate_fast(data: &[u8]) -> (out: Vec<u8>)
    ensures
        out@ == deflate_spec(data@),
        inflate_spec(out@) == Some(data@),
{
    let mut enc = flate2::write::DeflateEncoder::new(Vec::new(), flate2::Compression::fast());
    let _ = enc.write_all(data);
    enc.finish().unwrap_or_else(|_| data.to_vec())
}

/// `flate2::read::DeflateDecoder` over `data`, read to the end: the
/// decompressed bytes, or `None` on a decoding error. A function of the
/// input.
#[verifier::external_body]
fn inflate(data: &[u8]) -> (out: Option<Vec<u8>>)
    ensures
        match out {
            Some(v) => inflate_spec(data@) == Some(v@),
            None => inflate_spec(data@) is None,
        },
{
    let mut out = Vec::new();
    let mut dec = flate2::read::DeflateDecoder::new(data);
    match dec.read_to_end(&mut out) {
        Ok(_) => Some(out),
        Err(_) => None,
    }
}

/// A command batch's JSON from its wire form: deflated, or (from older
/// peers) raw when it does not inflate.
pub fn batch_json(payload: &[u8]) -> (json: Vec<u8>)
    ensures
        json@ == (match inflate_spec(payload@) {
            Some(v) => v,
            None => payload@,
        }),
{
    match inflate(payload) {
        Some(v) => v,
        None => {
            let mut raw: Vec<u8> = Vec::new();
            let mut i: usize = 0;
            while i < payload.len()
                invariant
                    i <= payload@.len(),
                    raw@ == payload@.take(i as int),
                decreases payload@.len() - i,
            {
                raw.push(payload[i]);
                i = i + 1;
                assert(raw@ =~= payload@.take(i as int));
            }
            assert(payload@.take(i as int) =~= payload@);
            raw
        },
    }
}

/// The stroke subkind of a content-addressed resource image.
pub const SUB_RES: u8 = 3;

/// Stroke frame subkinds: a stroke's start, its dabs, its end, and its
/// committed tile hashes.
pub const SUB_BEGIN: u8 = 0;
pub const SUB_DABS: u8 = 1;
pub const SUB_END: u8 = 2;
pub const SUB_HASHES: u8 = 4;

/// What the host does with a stroke frame a guest sends, besides handing
/// it on as that guest's (author = join name) event.
#[derive(Debug, Clone, Copy, PartialEq, Eq, Structural)]
pub enum Relay {
    /// Relayed live to the other guests, author restamped (`stamp_author`).
    Restamped,
    /// Relayed live to the other guests as received.
    AsSent,
    /// Kept at the host, which replays and sequences it.
    HostOnly,
}

/// Begin is restamped and relayed; dabs and resources are relayed as
/// sent; an end, hashes and anything else stay with the host.
pub open spec fn relay_spec(sub: u8) -> Relay {
    if sub == SUB_BEGIN {
        Relay::Restamped
    } else if sub == SUB_DABS || sub == SUB_RES {
        Relay::AsSent
    } else {
        Relay::HostOnly
    }
}

/// The host's relay rule for a guest's stroke frame of subkind `sub`.
pub fn relay_for(sub: u8) -> (r: Relay)
    ensures
        r == relay_spec(sub),
{
    if sub == SUB_BEGIN {
        Relay::Restamped
    } else if sub == SUB_DABS || sub == SUB_RES {
        Relay::AsSent
    } else {
        Relay::HostOnly
    }
}

/// A resource frame: the subkind, the image's content hash, width and
/// height (little-endian), then its RGBA bytes deflated.
pub open spec fn res_frame_spec(hash: u64, w: u32, h: u32, rgba: Seq<u8>) -> Seq<u8> {
    seq![SUB_RES] + u64_le(hash) + u32_le(w) + u32_le(h) + deflate_spec(rgba)
}

/// Write a resource frame. A frame written for `w * h` RGBA pixels reads
/// back (after its subkind byte) as the same hash, size and pixels.
pub fn enc_res(hash: u64, w: u32, h: u32, rgba: &[u8]) -> (v: Vec<u8>)
    ensures
        v@ == res_frame_spec(hash, w, h, rgba@),
        rgba@.len() == w as nat * h as nat * 4 ==> dec_res_spec(v@.skip(1)) == Some((hash, w, h, rgba@)),
{
    let mut v: Vec<u8> = Vec::new();
    v.push(SUB_RES);
    push_u64_le(&mut v, hash);
    push_u32_le(&mut v, w);
    push_u32_le(&mut v, h);
    let z = deflate_fast(rgba);
    let ghost head = v@;
    let mut i: usize = 0;
    while i < z.len()
        invariant
            i <= z@.len(),
            v@ == head + z@.take(i as int),
        decreases z@.len() - i,
    {
        v.push(z[i]);
        i = i + 1;
        assert(v@ =~= head + z@.take(i as int));
    }
    assert(z@.take(i as int) =~= z@);
    assert(v@ =~= res_frame_spec(hash, w, h, rgba@));
    proof {
        if rgba@.len() == w as nat * h as nat * 4 {
            lemma_res_roundtrip(hash, w, h, rgba@);
        }
    }
    v
}

/// Little-endian values of byte runs.
#[verifier::opaque]
pub open spec fn le_u64_value(b: Seq<u8>) -> u64 {
    (b[0] as nat + b[1] as nat * 0x100 + b[2] as nat * 0x10000 + b[3] as nat * 0x1000000
        + b[4] as nat * 0x100000000 + b[5] as nat * 0x10000000000 + b[6] as nat * 0x1000000000000
        + b[7] as nat * 0x100000000000000) as u64
}

#[verifier::opaque]
pub open spec fn le_u32_value(b: Seq<u8>) -> u32 {
    (b[0] as nat + b[1] as nat * 0x100 + b[2] as nat * 0x10000 + b[3] as nat * 0x1000000) as u32
}

/// A resource frame's body (after the subkind byte) read back: the hash,
/// width and height, and the inflated RGBA — refused when the body is
/// shorter than its header, does not inflate, or inflates to anything but
/// `w * h` RGBA pixels.
pub open spec fn dec_res_spec(rest: Seq<u8>) -> Option<(u64, u32, u32, Seq<u8>)> {
    if rest.len() < 16 {
        None
    } else {
        let hash = le_u64_value(rest.subrange(0, 8));
        let w = le_u32_value(rest.subrange(8, 12));
        let h = le_u32_value(rest.subrange(12, 16));
        match inflate_spec(rest.skip(16)) {
            None => None,
            Some(rgba) => if rgba.len() == w as nat * h as nat * 4 {
                Some((hash, w, h, rgba))
            } else {
                None
            },
        }
    }
}

pub fn dec_res(rest: &[u8]) -> (r: Option<(u64, u32, u32, Vec<u8>)>)
    ensures
        match r {
            Some((hash, w, h, rgba)) => dec_res_spec(rest@) == Some((hash, w, h, rgba@)),
            None => dec_res_spec(rest@) is None,
        },
{
    if rest.len() < 16 {
        return None;
    }
    proof {
        reveal(le_u64_value);
        reveal(le_u32_value);
    }
    let hash: u64 = (rest[0] as u64) + (rest[1] as u64) * 0x100 + (rest[2] as u64) * 0x10000
        + (rest[3] as u64) * 0x1000000 + (rest[4] as u64) * 0x100000000 + (rest[5] as u64) * 0x10000000000
        + (rest[6] as u64) * 0x1000000000000 + (rest[7] as u64) * 0x100000000000000;
    let w: u32 = (rest[8] as u32) + (rest[9] as u32) * 0x100 + (rest[10] as u32) * 0x10000
        + (rest[11] as u32) * 0x1000000;
    let h: u32 = (rest[12] as u32) + (rest[13] as u32) * 0x100 + (rest[14] as u32) * 0x10000
        + (rest[15] as u32) * 0x1000000;
    let mut body: Vec<u8> = Vec::new();
    let mut i: usize = 16;
    while i < rest.len()
        invariant
            16 <= i <= rest@.len(),
            body@ == rest@.subrange(16, i as int),
        decreases rest@.len() - i,
    {
        body.push(rest[i]);
        i = i + 1;
        assert(body@ =~= rest@.subrange(16, i as int));
    }
    assert(body@ =~= rest@.skip(16));
    let rgba = match inflate(body.as_slice()) {
        Some(v) => v,
        None => return None,
    };
    assert((w as u128) * (h as u128) * 4 <= 0xffff_ffff_ffff_ffff_ffff_ffff_u128) by (nonlinear_arith)
        requires
            w <= 0xffff_ffff,
            h <= 0xffff_ffff;
    if (rgba.len() as u128) != (w as u128) * (h as u128) * 4 {
        return None;
    }
    Some((hash, w, h, rgba))
}

proof fn lemma_le_u64_roundtrip(x: u64)
    ensures
        le_u64_value(u64_le(x)) == x,
{
    reveal(le_u64_value);
    let b = u64_le(x);
    assert(x == ((x & 0xff) + ((x >> 8u64) & 0xff) * 0x100 + ((x >> 16u64) & 0xff) * 0x10000
        + ((x >> 24u64) & 0xff) * 0x1000000 + ((x >> 32u64) & 0xff) * 0x100000000
        + ((x >> 40u64) & 0xff) * 0x10000000000 + ((x >> 48u64) & 0xff) * 0x1000000000000
        + ((x >> 56u64) & 0xff) * 0x100000000000000)) by (bit_vector);
    assert((x & 0xff) < 256 && ((x >> 8u64) & 0xff) < 256 && ((x >> 16u64) & 0xff) < 256
        && ((x >> 24u64) & 0xff) < 256 && ((x >> 32u64) & 0xff) < 256 && ((x >> 40u64) & 0xff) < 256
        && ((x >> 48u64) & 0xff) < 256 && ((x >> 56u64) & 0xff) < 256) by (bit_vector);
}

proof fn lemma_le_u32_roundtrip(x: u32)
    ensures
        le_u32_value(u32_le(x)) == x,
{
    reveal(le_u32_value);
    assert(x == ((x & 0xff) + ((x >> 8u32) & 0xff) * 0x100 + ((x >> 16u32) & 0xff) * 0x10000
        + ((x >> 24u32) & 0xff) * 0x1000000)) by (bit_vector);
    assert((x & 0xff) < 256 && ((x >> 8u32) & 0xff) < 256 && ((x >> 16u32) & 0xff) < 256
        && ((x >> 24u32) & 0xff) < 256) by (bit_vector);
}

/// Reading back the body of a resource frame gives what was written, given
/// that the deflated pixels inflate back.
#[verifier::spinoff_prover]
proof fn lemma_res_roundtrip(hash: u64, w: u32, h: u32, rgba: Seq<u8>)
    requires
        rgba.len() == w as nat * h as nat * 4,
        inflate_spec(deflate_spec(rgba)) == Some(rgba),
    ensures
        dec_res_spec(res_frame_spec(hash, w, h, rgba).skip(1)) == Some((hash, w, h, rgba)),
{
    let body = res_frame_spec(hash, w, h, rgba).skip(1);
    assert(body =~= u64_le(hash) + u32_le(w) + u32_le(h) + deflate_spec(rgba));
    assert(body.subrange(0, 8) =~= u64_le(hash));
    assert(body.subrange(8, 12) =~= u32_le(w));
    assert(body.subrange(12, 16) =~= u32_le(h));
    assert(body.skip(16) =~= deflate_spec(rgba));
    lemma_le_u64_roundtrip(hash);
    lemma_le_u32_roundtrip(w);
    lemma_le_u32_roundtrip(h);
}


// ---------------------------------------------------------------------------
// Tile repairs: a header the app writes, then the texels deflated
// ---------------------------------------------------------------------------

/// The stroke subkind of an authoritative tile repair.
pub const SUB_REPAIR: u8 = 5;

/// The repaired tiles as values: where, and the texels (none to clear).
pub open spec fn repair_view(t: Seq<(i32, i32, Vec<u16>)>) -> Seq<(i32, i32, Seq<u16>)> {
    t.map_values(|e: (i32, i32, Vec<u16>)| (e.0, e.1, e.2@))
}

/// The texels of the tiles that have any, little-endian, in order.
pub open spec fn repair_texels(tiles: Seq<(i32, i32, Seq<u16>)>) -> Seq<u8>
    decreases tiles.len(),
{
    if tiles.len() == 0 {
        Seq::empty()
    } else {
        let rest = repair_texels(tiles.drop_last());
        if tiles.last().2.len() == 0 {
            rest
        } else {
            rest + u16s_le(tiles.last().2)
        }
    }
}

/// A repair frame: the subkind, the header's length (u32 LE, modulo
/// 2^32), the header, then the texels deflated.
pub open spec fn repair_frame_spec(header: Seq<u8>, texels: Seq<u8>) -> Seq<u8> {
    seq![SUB_REPAIR] + u32_le((header.len() % 0x1_0000_0000) as u32) + header + deflate_spec(texels)
}

/// A repair frame's body read back: the header and the inflated texels —
/// refused when the length prefix is cut short, the header runs past the
/// end, or the texels do not inflate.
pub open spec fn dec_repair_spec(rest: Seq<u8>) -> Option<(Seq<u8>, Seq<u8>)> {
    if rest.len() < 4 {
        None
    } else {
        let hl = le_u32_value(rest.subrange(0, 4)) as int;
        if 4 + hl > rest.len() {
            None
        } else {
            match inflate_spec(rest.skip(4 + hl)) {
                None => None,
                Some(texels) => Some((rest.subrange(4, 4 + hl), texels)),
            }
        }
    }
}

/// Each tile's place and whether it carries texels: what the header lists.
pub fn repair_entries(tiles: &Vec<(i32, i32, Vec<u16>)>) -> (e: Vec<(i32, i32, bool)>)
    ensures
        e@.len() == tiles@.len(),
        forall|i: int| 0 <= i < tiles@.len() ==> #[trigger] e@[i] == (tiles@[i].0, tiles@[i].1, tiles@[i].2@.len() > 0),
{
    let mut e: Vec<(i32, i32, bool)> = Vec::new();
    let mut i: usize = 0;
    while i < tiles.len()
        invariant
            i <= tiles@.len(),
            e@.len() == i,
            forall|k: int| 0 <= k < i ==> #[trigger] e@[k] == (tiles@[k].0, tiles@[k].1, tiles@[k].2@.len() > 0),
        decreases tiles@.len() - i,
    {
        e.push((tiles[i].0, tiles[i].1, tiles[i].2.len() > 0));
        i = i + 1;
    }
    e
}

/// Write a repair frame around the app's header bytes.
pub fn enc_repair_frame(header: &[u8], tiles: &Vec<(i32, i32, Vec<u16>)>) -> (v: Vec<u8>)
    ensures
        v@ == repair_frame_spec(header@, repair_texels(repair_view(tiles@))),
        header@.len() < 0x1_0000_0000 ==> dec_repair_spec(v@.skip(1)) == Some(
            (header@, repair_texels(repair_view(tiles@))),
        ),
{
    let ghost tv = repair_view(tiles@);
    let mut texels: Vec<u8> = Vec::new();
    let mut i: usize = 0;
    while i < tiles.len()
        invariant
            i <= tiles@.len(),
            tv == repair_view(tiles@),
            texels@ == repair_texels(tv.take(i as int)),
        decreases tiles@.len() - i,
    {
        proof {
            assert(tv.take(i as int + 1).drop_last() =~= tv.take(i as int));
        }
        if tiles[i].2.len() > 0 {
            let mut b = u16s_to_le(tiles[i].2.as_slice());
            texels.append(&mut b);
        }
        i = i + 1;
    }
    proof {
        assert(tv.take(i as int) =~= tv);
    }
    let mut v: Vec<u8> = Vec::new();
    v.push(SUB_REPAIR);
    let n = (header.len() as u64 % 0x1_0000_0000) as u32;
    push_u32_le(&mut v, n);
    let ghost head = v@;
    let mut k: usize = 0;
    while k < header.len()
        invariant
            k <= header@.len(),
            v@ == head + header@.take(k as int),
        decreases header@.len() - k,
    {
        v.push(header[k]);
        k = k + 1;
        assert(v@ =~= head + header@.take(k as int));
    }
    assert(header@.take(k as int) =~= header@);
    let z = deflate_fast(texels.as_slice());
    let ghost mid = v@;
    let mut j: usize = 0;
    while j < z.len()
        invariant
            j <= z@.len(),
            v@ == mid + z@.take(j as int),
        decreases z@.len() - j,
    {
        v.push(z[j]);
        j = j + 1;
        assert(v@ =~= mid + z@.take(j as int));
    }
    assert(z@.take(j as int) =~= z@);
    assert(v@ =~= repair_frame_spec(header@, texels@));
    proof {
        if header@.len() < 0x1_0000_0000 {
            let body = v@.skip(1);
            assert(body.subrange(0, 4) =~= u32_le(n));
            lemma_le_u32_roundtrip(n);
            assert(body.subrange(4, 4 + header@.len() as int) =~= header@);
            assert(body.skip(4 + header@.len() as int) =~= z@);
        }
    }
    v
}

/// Read a repair frame's body back into the header bytes and the texels.
pub fn dec_repair_frame(rest: &[u8]) -> (r: Option<(Vec<u8>, Vec<u8>)>)
    ensures
        match r {
            Some((h, t)) => dec_repair_spec(rest@) == Some((h@, t@)),
            None => dec_repair_spec(rest@) is None,
        },
{
    if rest.len() < 4 {
        return None;
    }
    proof {
        reveal(le_u32_value);
    }
    let hl: u32 = (rest[0] as u32) + (rest[1] as u32) * 0x100 + (rest[2] as u32) * 0x10000 + (rest[3] as u32) * 0x1000000;
    assert(hl == le_u32_value(rest@.subrange(0, 4)));
    if (hl as usize) > rest.len() - 4 {
        return None;
    }
    let end = 4 + hl as usize;
    let mut header: Vec<u8> = Vec::new();
    let mut i: usize = 4;
    while i < end
        invariant
            4 <= i <= end <= rest@.len(),
            header@ == rest@.subrange(4, i as int),
        decreases end - i,
    {
        header.push(rest[i]);
        i = i + 1;
        assert(header@ =~= rest@.subrange(4, i as int));
    }
    let mut body: Vec<u8> = Vec::new();
    let mut j: usize = end;
    while j < rest.len()
        invariant
            end <= j <= rest@.len(),
            body@ == rest@.subrange(end as int, j as int),
        decreases rest@.len() - j,
    {
        body.push(rest[j]);
        j = j + 1;
        assert(body@ =~= rest@.subrange(end as int, j as int));
    }
    assert(body@ =~= rest@.skip(end as int));
    match inflate(body.as_slice()) {
        Some(texels) => Some((header, texels)),
        None => None,
    }
}

/// How many entries carry texels.
pub open spec fn present_count(entries: Seq<(i32, i32, bool)>) -> nat
    decreases entries.len(),
{
    if entries.len() == 0 {
        0
    } else {
        present_count(entries.drop_last()) + if entries.last().2 { 1nat } else { 0nat }
    }
}

/// The bytes of one tile's texels.
pub const TILE_BYTES: usize = 32768;


/// A decoded tile sits where its entry says, with a whole tile of texels
/// when the entry has any and none otherwise.
pub open spec fn tile_shape(t: (i32, i32, Vec<u16>), e: (i32, i32, bool)) -> bool {
    t.0 == e.0 && t.1 == e.1 && t.2@.len() == (if e.2 { TILE_LEN as nat } else { 0nat })
}

/// The `TILE_LEN` little-endian texels starting at byte `off`.
fn read_tile(texels: &[u8], off: usize) -> (t: Vec<u16>)
    requires
        off + TILE_BYTES <= texels@.len(),
    ensures
        t@.len() == TILE_LEN,
        u16s_le(t@) == texels@.subrange(off as int, off + TILE_BYTES),
{
    let n = texels.len();
    let mut t: Vec<u16> = Vec::new();
    let mut w: usize = 0;
    while w < TILE_LEN
        invariant
            w <= TILE_LEN,
            n == texels@.len(),
            off + TILE_BYTES <= texels@.len(),
            t@.len() == w,
            u16s_le(t@) == texels@.subrange(off as int, off + 2 * w),
        decreases TILE_LEN - w,
    {
        assert(off + 2 * w + 1 < off + TILE_BYTES);
        let x = u16_from_le(texels[off + 2 * w], texels[off + 2 * w + 1]);
        let ghost pre = t@;
        t.push(x);
        proof {
            assert(t@.drop_last() =~= pre);
            assert(texels@.subrange(off as int, off + 2 * (w + 1)) =~= texels@.subrange(off as int, off + 2 * w)
                + seq![texels@[off + 2 * w], texels@[off + 2 * w + 1]]);
        }
        w = w + 1;
    }
    t
}

/// Cut the inflated texels back into the tiles the header lists: each
/// present entry takes the next whole tile, an absent one none. Refused
/// unless the texels are exactly one whole tile per present entry.
pub fn repair_tiles(entries: &Vec<(i32, i32, bool)>, texels: &[u8]) -> (r: Option<Vec<(i32, i32, Vec<u16>)>>)
    ensures
        r is None <==> texels@.len() != present_count(entries@) * TILE_BYTES,
        r matches Some(ts) ==> {
            &&& ts@.len() == entries@.len()
            &&& forall|i: int| 0 <= i < ts@.len() ==> tile_shape(#[trigger] ts@[i], entries@[i])
            &&& repair_texels(repair_view(ts@)) == texels@
        },
{
    let mut present: usize = 0;
    let mut i: usize = 0;
    while i < entries.len()
        invariant
            i <= entries@.len(),
            present == present_count(entries@.take(i as int)),
            present <= i,
        decreases entries@.len() - i,
    {
        proof {
            assert(entries@.take(i as int + 1).drop_last() =~= entries@.take(i as int));
        }
        if entries[i].2 {
            present = present + 1;
        }
        i = i + 1;
    }
    proof {
        assert(entries@.take(i as int) =~= entries@);
    }
    if texels.len() % TILE_BYTES != 0 || texels.len() / TILE_BYTES != present {
        proof {
            if texels@.len() == present * TILE_BYTES {
                let m: int = present as int;
                assert((m * 32768) % 32768 == 0 && (m * 32768) / 32768 == m) by (nonlinear_arith);
            }
        }
        return None;
    }
    proof {
        let len: int = texels@.len() as int;
        let m: int = present as int;
        assert(len == m * 32768) by (nonlinear_arith)
            requires
                len % 32768 == 0,
                len / 32768 == m;
    }
    let tn = texels.len();
    let mut ts: Vec<(i32, i32, Vec<u16>)> = Vec::new();
    let mut off: usize = 0;
    let mut k: usize = 0;
    while k < entries.len()
        invariant
            k <= entries@.len(),
            tn == texels@.len(),
            texels@.len() == present_count(entries@) * TILE_BYTES,
            off == present_count(entries@.take(k as int)) * TILE_BYTES,
            off <= texels@.len(),
            ts@.len() == k,
            forall|q: int| 0 <= q < k ==> tile_shape(#[trigger] ts@[q], entries@[q]),
            repair_texels(repair_view(ts@)) == texels@.subrange(0, off as int),
        decreases entries@.len() - k,
    {
        let ghost before = ts@;
        let ghost a = present_count(entries@.take(k as int));
        let ghost total = present_count(entries@);
        proof {
            assert(entries@.take(k as int + 1).drop_last() =~= entries@.take(k as int));
            assert(entries@.take(k as int + 1).last() == entries@[k as int]);
            lemma_present_count_prefix(entries@, k as int + 1);
            if entries@[k as int].2 {
                assert(a + 1 <= total);
                assert((a + 1) * 32768 <= total * 32768) by (nonlinear_arith)
                    requires
                        a + 1 <= total;
            }
        }
        if entries[k].2 {
            assert(off + TILE_BYTES <= texels@.len());
            let t = read_tile(texels, off);
            let ghost tv = t@;
            ts.push((entries[k].0, entries[k].1, t));
            proof {
                assert(repair_view(ts@).drop_last() =~= repair_view(before));
                assert(repair_view(ts@).last() == (entries@[k as int].0, entries@[k as int].1, tv));
                assert(texels@.subrange(0, off + TILE_BYTES) =~= texels@.subrange(0, off as int)
                    + texels@.subrange(off as int, off + TILE_BYTES));
                assert(ts@[k as int].2@ == tv);
                assert(ts@[k as int].0 == entries@[k as int].0 && ts@[k as int].1 == entries@[k as int].1);
                assert(ts@[k as int].2@.len() == TILE_LEN as nat);
                assert forall|q: int| 0 <= q < k + 1 implies tile_shape(#[trigger] ts@[q], entries@[q]) by {
                    if q < k {
                        assert(ts@[q] == before[q]);
                    }
                }
            }
            off = off + TILE_BYTES;
        } else {
            ts.push((entries[k].0, entries[k].1, Vec::new()));
            proof {
                assert(repair_view(ts@).drop_last() =~= repair_view(before));
                assert(repair_view(ts@).last().2.len() == 0);
                assert(ts@[k as int].0 == entries@[k as int].0 && ts@[k as int].1 == entries@[k as int].1);
                assert(ts@[k as int].2@.len() == 0);
                assert(!entries@[k as int].2);
                assert forall|q: int| 0 <= q < k + 1 implies tile_shape(#[trigger] ts@[q], entries@[q]) by {
                    if q < k {
                        assert(ts@[q] == before[q]);
                    }
                }
            }
        }
        k = k + 1;
    }
    proof {
        assert(entries@.take(k as int) =~= entries@);
        assert(texels@.subrange(0, off as int) =~= texels@);
    }
    Some(ts)
}


pub(crate) proof fn lemma_u16s_le_inj(x: Seq<u16>, y: Seq<u16>)
    requires
        u16s_le(x) == u16s_le(y),
    ensures
        x == y,
    decreases x.len(),
{
    crate::bytes::lemma_u16s_le_len(x);
    crate::bytes::lemma_u16s_le_len(y);
    if x.len() > 0 {
        let px = u16s_le(x.drop_last());
        let py = u16s_le(y.drop_last());
        crate::bytes::lemma_u16s_le_len(x.drop_last());
        crate::bytes::lemma_u16s_le_len(y.drop_last());
        assert(u16s_le(x) == px + u16_le(x.last()));
        assert(u16s_le(y) == py + u16_le(y.last()));
        assert(px =~= u16s_le(x).subrange(0, px.len() as int));
        assert(py =~= u16s_le(y).subrange(0, py.len() as int));
        let a = x.last();
        let b = y.last();
        assert(u16_le(a) =~= u16s_le(x).subrange(px.len() as int, u16s_le(x).len() as int));
        assert(u16_le(b) =~= u16s_le(y).subrange(py.len() as int, u16s_le(y).len() as int));
        assert(u16_le(a)[0] == u16_le(b)[0] && u16_le(a)[1] == u16_le(b)[1]);
        assert(a == b) by (bit_vector)
            requires
                (a & 0xff) as u8 == (b & 0xff) as u8,
                ((a >> 8u16) & 0xff) as u8 == ((b >> 8u16) & 0xff) as u8;
        lemma_u16s_le_inj(x.drop_last(), y.drop_last());
        assert(x =~= x.drop_last().push(a));
        assert(y =~= y.drop_last().push(b));
    }
}

/// Reading a repair back gives what was written: tiles cut from the
/// written texels along the written entries are the written tiles (each
/// of which held a whole tile of texels or none).
pub proof fn lemma_repair_readback(written: Seq<(i32, i32, Seq<u16>)>, read: Seq<(i32, i32, Seq<u16>)>)
    requires
        forall|i: int| 0 <= i < written.len() ==> (#[trigger] written[i]).2.len() == 0 || written[i].2.len() == TILE_LEN,
        read.len() == written.len(),
        forall|i: int|
            0 <= i < read.len() ==> (#[trigger] read[i]).0 == written[i].0 && read[i].1 == written[i].1 && read[i].2.len() == (
            if written[i].2.len() > 0 {
                TILE_LEN as nat
            } else {
                0nat
            }),
        repair_texels(read) == repair_texels(written),
    ensures
        read == written,
    decreases written.len(),
{
    if written.len() > 0 {
        let n = written.len() - 1;
        let wl = written.last();
        let rl = read.last();
        assert(written[n] == wl && read[n] == rl);
        assert(rl.2.len() == wl.2.len());
        let wp = repair_texels(written.drop_last());
        let rp = repair_texels(read.drop_last());
        crate::bytes::lemma_u16s_le_len(wl.2);
        crate::bytes::lemma_u16s_le_len(rl.2);
        let wt = repair_texels(written);
        if wl.2.len() > 0 {
            assert(wt == wp + u16s_le(wl.2));
            assert(wt == rp + u16s_le(rl.2));
            assert(wp =~= wt.subrange(0, wp.len() as int));
            assert(rp =~= wt.subrange(0, rp.len() as int));
            assert(u16s_le(wl.2) =~= wt.subrange(wp.len() as int, wt.len() as int));
            assert(u16s_le(rl.2) =~= wt.subrange(rp.len() as int, wt.len() as int));
            lemma_u16s_le_inj(rl.2, wl.2);
        } else {
            assert(rl.2 =~= wl.2);
        }
        assert forall|i: int| 0 <= i < written.drop_last().len() implies (#[trigger] written.drop_last()[i]).2.len() == 0
            || written.drop_last()[i].2.len() == TILE_LEN by {
            assert(written.drop_last()[i] == written[i]);
        }
        assert forall|i: int| 0 <= i < read.drop_last().len() implies (#[trigger] read.drop_last()[i]).0 == written.drop_last()[i].0
            && read.drop_last()[i].1 == written.drop_last()[i].1 && read.drop_last()[i].2.len() == (if written.drop_last()[i].2.len()
            > 0 {
            TILE_LEN as nat
        } else {
            0nat
        }) by {
            assert(read.drop_last()[i] == read[i] && written.drop_last()[i] == written[i]);
        }
        lemma_repair_readback(written.drop_last(), read.drop_last());
        assert(written =~= written.drop_last().push(wl));
        assert(read =~= read.drop_last().push(rl));
    }
}

proof fn lemma_present_count_prefix(entries: Seq<(i32, i32, bool)>, n: int)
    requires
        0 <= n <= entries.len(),
    ensures
        present_count(entries.take(n)) <= present_count(entries),
    decreases entries.len() - n,
{
    if n < entries.len() {
        lemma_present_count_prefix(entries, n + 1);
        assert(entries.take(n + 1).drop_last() =~= entries.take(n));
    } else {
        assert(entries.take(n) =~= entries);
    }
}

// ---------------------------------------------------------------------------
// Fresh secrets (rand)
// ---------------------------------------------------------------------------

/// `rand::random::<u8>()`: a byte from the thread-local generator. Nothing
/// is promised of its value.
#[verifier::external_body]
fn random_byte() -> u8 {
    rand::random::<u8>()
}

/// `n` random bytes.
fn random_bytes(n: usize) -> (b: Vec<u8>)
    ensures
        b@.len() == n,
{
    let mut b: Vec<u8> = Vec::new();
    let mut i: usize = 0;
    while i < n
        invariant
            i <= n,
            b@.len() == i,
        decreases n - i,
    {
        b.push(random_byte());
        i = i + 1;
    }
    b
}

/// A fresh room key: 20 random bytes, in base32 (32 characters).
pub fn generate_key() -> (k: String)
    ensures
        exists|b: Seq<u8>| b.len() == 20 && k@ == base32_encode_spec(b),
        k@.len() == 32,
{
    let b = random_bytes(20);
    base32_encode(b.as_slice())
}

/// A fresh challenge for a joining guest: 16 random bytes in hex.
pub fn room_nonce() -> (n: String)
    ensures
        exists|b: Seq<u8>| b.len() == 16 && n@ == hex_spec(b),
        n@.len() == 32,
{
    let b = random_bytes(16);
    hex(b.as_slice())
}

} // verus!
