//! The published-build channel's decisions: reading a release tag as a
//! version, and judging a fetched release against the running build. The
//! network and file work around them belong to the application.

use vstd::prelude::*;
use crate::text::{chars_of, trim_chars, trim_spec, strip_leading};
use vstd::string::StrSliceExecFns;
use crate::json::{Json, json_parse, json_spec};

verus! {

/// What the checker reports back to the interface.
#[derive(Debug, Clone, PartialEq, Eq)]
pub enum UpdateEvent {
    /// A newer release exists: (version tag, asset url, asset size).
    Ready { tag: String, url: String, size: u64 },
    UpToDate(String),
    /// Quiet trouble (offline, bad repo, rate limit) — chatter at most.
    Note(String),
}

/// This build's version, as release tags are compared against it.
pub const CURRENT_VERSION: &'static str = "0.1.0";

pub open spec fn is_v(c: char) -> bool {
    c == 'v' || c == 'V'
}

pub open spec fn is_ascii_digit(c: char) -> bool {
    '0' <= c <= '9'
}

/// The text before the first '.' (all of it when there is none).
pub open spec fn first_piece(t: Seq<char>) -> Seq<char>
    decreases t.len(),
{
    if t.len() == 0 || t[0] == '.' {
        Seq::empty()
    } else {
        seq![t[0]] + first_piece(t.drop_first())
    }
}

/// The text after the first '.', if there is one.
pub open spec fn after_dot(t: Seq<char>) -> Option<Seq<char>>
    decreases t.len(),
{
    if t.len() == 0 {
        None
    } else if t[0] == '.' {
        Some(t.drop_first())
    } else {
        after_dot(t.drop_first())
    }
}

/// How many ASCII digits `p` starts with.
pub open spec fn leading_digits(p: Seq<char>) -> nat
    decreases p.len(),
{
    if p.len() > 0 && is_ascii_digit(p[0]) {
        1 + leading_digits(p.drop_first())
    } else {
        0
    }
}

/// The decimal value of a run of ASCII digits.
pub open spec fn digits_value(ds: Seq<char>) -> nat
    decreases ds.len(),
{
    if ds.len() == 0 {
        0
    } else {
        digits_value(ds.drop_last()) * 10 + (ds.last() as nat - 48) as nat
    }
}

/// One version component: its leading digits parsed as a `u32`; no
/// digits, or a value past `u32::MAX`, reads as 0.
pub open spec fn piece_value(p: Seq<char>) -> u32 {
    let n = leading_digits(p);
    let v = digits_value(p.take(n as int));
    if n == 0 || v > u32::MAX {
        0
    } else {
        v as u32
    }
}

/// "v1.2.3" / "1.2.3" -> (1, 2, 3): trimmed, leading 'v'/'V's dropped,
/// split at '.', the first three components read; a missing component is 0.
/// A tag that does not then start with a digit is unparseable and reads as
/// (0, 0, 0), so it never looks newer than a real version.
pub open spec fn version_spec(tag: Seq<char>) -> (u32, u32, u32) {
    let t = strip_leading(trim_spec(tag), |c: char| is_v(c));
    if !(t.len() > 0 && is_ascii_digit(t[0])) {
        (0, 0, 0)
    } else {
        version_pieces(t)
    }
}

/// The first three '.'-separated components of `t`, each its leading digits.
pub open spec fn version_pieces(t: Seq<char>) -> (u32, u32, u32) {
    let a = piece_value(first_piece(t));
    match after_dot(t) {
        None => (a, 0, 0),
        Some(t1) => {
            let b = piece_value(first_piece(t1));
            match after_dot(t1) {
                None => (a, b, 0),
                Some(t2) => (a, b, piece_value(first_piece(t2))),
            }
        },
    }
}

/// The first piece's digits are the text's digits ('.' is no digit).
proof fn lemma_piece_digits(t: Seq<char>)
    ensures
        leading_digits(first_piece(t)) == leading_digits(t),
        leading_digits(t) <= t.len(),
        leading_digits(t) <= first_piece(t).len(),
        first_piece(t).take(leading_digits(t) as int) =~= t.take(leading_digits(t) as int),
    decreases t.len(),
{
    if t.len() == 0 || t[0] == '.' {
    } else {
        lemma_piece_digits(t.drop_first());
        let fp = first_piece(t);
        assert(fp == seq![t[0]] + first_piece(t.drop_first()));
        assert(fp.drop_first() =~= first_piece(t.drop_first()));
        if is_ascii_digit(t[0]) {
            let n = leading_digits(t);
            assert(fp.take(n as int) =~= seq![t[0]] + first_piece(t.drop_first()).take(n - 1));
            assert(t.take(n as int) =~= seq![t[0]] + t.drop_first().take(n - 1));
        }
    }
}

/// The value of the component that starts at `start`, and where the next
/// one starts (just past the first '.' at or after `start`), if any.
fn read_piece(t: &Vec<char>, start: usize) -> (r: (u32, Option<usize>))
    requires
        start <= t@.len(),
    ensures
        r.0 == piece_value(first_piece(t@.skip(start as int))),
        match r.1 {
            None => after_dot(t@.skip(start as int)) is None,
            Some(n) => n <= t@.len() && after_dot(t@.skip(start as int)) == Some(t@.skip(n as int)),
        },
{
    let ghost u = t@.skip(start as int);
    assert(u =~= t@.skip(start as int));
    // Leading digits, with overflow remembered.
    let mut i = start;
    let mut acc: u64 = 0;
    let mut big = false;
    while i < t.len() && '0' <= t[i] && t[i] <= '9'
        invariant
            start <= i <= t@.len(),
            u == t@.skip(start as int),
            leading_digits(u) == (i - start) + leading_digits(t@.skip(i as int)),
            after_dot(u) == after_dot(t@.skip(i as int)),
            forall|k: int| 0 <= k < i - start ==> is_ascii_digit(#[trigger] u[k]),
            !big ==> acc == digits_value(u.take(i - start)) && acc <= u32::MAX,
            big ==> digits_value(u.take(i - start)) > u32::MAX,
        decreases t@.len() - i,
    {
        proof {
            assert(t@.skip(i as int).drop_first() =~= t@.skip(i as int + 1));
            let p = u.take(i - start + 1);
            assert(p.drop_last() =~= u.take(i - start));
            assert(p.last() == t@[i as int]);
        }
        let d = (t[i] as u32 - 48) as u64;
        if !big {
            let next = acc * 10 + d;
            if next > 0xffff_ffff {
                big = true;
            } else {
                acc = next;
            }
        }
        i = i + 1;
    }
    proof {
        let rest = t@.skip(i as int);
        if i < t@.len() {
            assert(rest[0] == t@[i as int]);
        }
        assert(leading_digits(rest) == 0);
        lemma_piece_digits(u);
    }
    let value: u32 = if i == start || big { 0 } else { acc as u32 };
    // The next '.', if any.
    let mut j = i;
    while j < t.len() && t[j] != '.'
        invariant
            start <= j <= t@.len(),
            u == t@.skip(start as int),
            after_dot(u) == after_dot(t@.skip(j as int)),
        decreases t@.len() - j,
    {
        proof {
            assert(t@.skip(j as int).drop_first() =~= t@.skip(j as int + 1));
        }
        j = j + 1;
    }
    proof {
        assert(forall|k: int| start <= k < i ==> t@[k] != '.') by {
            assert forall|k: int| start <= k < i implies t@[k] != '.' by {
                assert(u[k - start] == t@[k]);
            }
        }
    }
    if j < t.len() {
        proof {
            assert(t@.skip(j as int).drop_first() =~= t@.skip(j + 1));
        }
        (value, Some(j + 1))
    } else {
        (value, None)
    }
}

/// "v1.2.3" / "1.2.3" -> (1, 2, 3). Anything unparseable reads as
/// (0, 0, 0), so a garbage tag can never look newer than a real version.
pub fn parse_version(tag: &str) -> (v: (u32, u32, u32))
    ensures
        v == version_spec(tag@),
{
    let cs = chars_of(tag);
    let t = trim_chars(&cs);
    // Drop leading 'v'/'V's.
    let mut s: usize = 0;
    assert(t@.skip(0) =~= t@);
    while s < t.len() && (t[s] == 'v' || t[s] == 'V')
        invariant
            s <= t@.len(),
            strip_leading(t@, |c: char| is_v(c)) == strip_leading(t@.skip(s as int), |c: char| is_v(c)),
        decreases t@.len() - s,
    {
        proof {
            assert(t@.skip(s as int).drop_first() =~= t@.skip(s as int + 1));
        }
        s = s + 1;
    }
    proof {
        assert(t@.skip(0) =~= t@);
        let r = t@.skip(s as int);
        if r.len() > 0 {
            assert(r[0] == t@[s as int]);
        }
        assert(strip_leading(r, |c: char| is_v(c)) == r);
    }
    if s >= t.len() || !('0' <= t[s] && t[s] <= '9') {
        return (0, 0, 0);
    }
    proof {
        assert(t@.skip(s as int)[0] == t@[s as int]);
    }
    let (a, n1) = read_piece(&t, s);
    match n1 {
        None => (a, 0, 0),
        Some(p1) => {
            let (b, n2) = read_piece(&t, p1);
            match n2 {
                None => (a, b, 0),
                Some(p2) => {
                    let (c, _) = read_piece(&t, p2);
                    (a, b, c)
                },
            }
        },
    }
}

// ---------------------------------------------------------------------------
// Judging a fetched release
// ---------------------------------------------------------------------------

/// One downloadable file of a release, as the release listing gives it
/// (a missing name or url reads as empty, a missing size as 0).
#[derive(Debug, Clone, PartialEq, Eq)]
pub struct ReleaseAsset {
    pub name: String,
    pub url: String,
    pub size: u64,
}

/// ASCII letters lowered; everything else kept.
pub open spec fn ascii_lower(s: Seq<char>) -> Seq<char> {
    Seq::new(s.len(), |i: int| if 'A' <= s[i] <= 'Z' { ((s[i] as u32) + 32) as char } else { s[i] })
}

pub open spec fn starts_with(s: Seq<char>, p: Seq<char>) -> bool {
    s.len() >= p.len() && s.take(p.len() as int) == p
}

pub open spec fn ends_with(s: Seq<char>, p: Seq<char>) -> bool {
    s.len() >= p.len() && s.skip(s.len() - p.len()) == p
}

pub open spec fn contains_text(s: Seq<char>, p: Seq<char>) -> bool {
    exists|i: int| 0 <= i <= s.len() - p.len() && #[trigger] s.subrange(i, i + p.len()) == p
}

/// An asset that is this application's installer-free build, served over
/// https with a size: its lowercased name starts with "animstudio", ends
/// with ".exe" and does not contain "setup".
pub open spec fn asset_usable(a: ReleaseAsset) -> bool {
    let lower = ascii_lower(a.name@);
    &&& starts_with(lower, "animstudio"@)
    &&& ends_with(lower, ".exe"@)
    &&& !contains_text(lower, "setup"@)
    &&& starts_with(a.url@, "https://"@)
    &&& a.size > 0
}

/// Version order: by major, then minor, then patch.
pub open spec fn version_le(a: (u32, u32, u32), b: (u32, u32, u32)) -> bool {
    a.0 < b.0 || (a.0 == b.0 && (a.1 < b.1 || (a.1 == b.1 && a.2 <= b.2)))
}

/// Versions are totally ordered: every pair compares, the order is
/// transitive, and two versions at most each other are the same version,
/// so a release differing from the running build in any of major, minor
/// or patch is either newer or older, never both.
pub proof fn law_version_order_is_total(a: (u32, u32, u32), b: (u32, u32, u32), c: (u32, u32, u32))
    ensures
        version_le(a, a),
        version_le(a, b) || version_le(b, a),
        version_le(a, b) && version_le(b, a) ==> a == b,
        version_le(a, b) && version_le(b, c) ==> version_le(a, c),
{
}

/// Versions compare by major first, then minor, then patch: a larger
/// major is newer whatever follows, and so on down to the patch.
pub proof fn law_version_order_is_lexicographic(a: (u32, u32, u32), b: (u32, u32, u32))
    ensures
        a.0 < b.0 ==> version_le(a, b) && !version_le(b, a),
        a.0 == b.0 && a.1 < b.1 ==> version_le(a, b) && !version_le(b, a),
        a.0 == b.0 && a.1 == b.1 && a.2 < b.2 ==> version_le(a, b) && !version_le(b, a),
{
}

/// A release newer than the running build in any component is never
/// called up to date.
pub proof fn law_newer_release_is_not_up_to_date(tag: Seq<char>, current: Seq<char>, assets: Option<Seq<ReleaseAsset>>)
    requires
        tag.len() > 0,
        version_spec(tag) != version_spec(current),
        version_le(version_spec(current), version_spec(tag)),
    ensures
        !(release_event_spec(tag, current, assets) is UpToDate),
{
    law_version_order_is_total(version_spec(tag), version_spec(current), version_spec(current));
}

/// What a release listing means for the running build: no tag means no
/// releases yet; a tag not newer than the running build is up to date;
/// otherwise the first usable asset is ready, and without one the release
/// is noted as carrying none (or no assets at all).
pub open spec fn release_event_spec(tag: Seq<char>, current: Seq<char>, assets: Option<Seq<ReleaseAsset>>) -> UpdateEventView {
    if tag.len() == 0 {
        UpdateEventView::Note("update check: no releases yet"@)
    } else if version_le(version_spec(tag), version_spec(current)) {
        UpdateEventView::UpToDate(tag)
    } else {
        match assets {
            None => UpdateEventView::Note("release "@ + tag + " has no assets"@),
            Some(a) => if exists|i: int| 0 <= i < a.len() && asset_usable(#[trigger] a[i]) {
                let i = choose|i: int| 0 <= i < a.len() && asset_usable(#[trigger] a[i])
                    && forall|j: int| 0 <= j < i ==> !asset_usable(#[trigger] a[j]);
                UpdateEventView::Ready { tag, url: a[i].url@, size: a[i].size }
            } else {
                UpdateEventView::Note("release "@ + tag + " carries no animstudio exe"@)
            },
        }
    }
}

/// The abstract value of an update event.
pub enum UpdateEventView {
    Ready { tag: Seq<char>, url: Seq<char>, size: u64 },
    UpToDate(Seq<char>),
    Note(Seq<char>),
}

impl UpdateEvent {
    pub open spec fn view(&self) -> UpdateEventView {
        match self {
            UpdateEvent::Ready { tag, url, size } => UpdateEventView::Ready { tag: tag@, url: url@, size: *size },
            UpdateEvent::UpToDate(t) => UpdateEventView::UpToDate(t@),
            UpdateEvent::Note(n) => UpdateEventView::Note(n@),
        }
    }
}

fn lower_chars(s: &str) -> (r: Vec<char>)
    ensures
        r@ == ascii_lower(s@),
{
    let cs = chars_of(s);
    let mut out: Vec<char> = Vec::new();
    let mut i: usize = 0;
    while i < cs.len()
        invariant
            cs@ == s@,
            i <= cs@.len(),
            out@ == ascii_lower(cs@).take(i as int),
        decreases cs@.len() - i,
    {
        let c = cs[i];
        let l = if 'A' <= c && c <= 'Z' { ((c as u32) + 32) as u8 as char } else { c };
        proof {
            if 'A' <= c <= 'Z' {
                assert(((c as u32) + 32) as u8 as char == ((c as u32) + 32) as char);
            }
        }
        out.push(l);
        i = i + 1;
        assert(out@ =~= ascii_lower(cs@).take(i as int));
    }
    assert(ascii_lower(cs@).take(i as int) =~= ascii_lower(cs@));
    out
}

/// `p` occurs in `s` at `i`.
fn matches_at(s: &Vec<char>, p: &Vec<char>, i: usize) -> (r: bool)
    requires
        i + p@.len() <= s@.len(),
    ensures
        r == (s@.subrange(i as int, i + p@.len()) == p@),
{
    let n = s.len();
    let mut k: usize = 0;
    while k < p.len()
        invariant
            i + p@.len() <= s@.len(),
            s@.len() <= usize::MAX,
            k <= p@.len(),
            forall|j: int| 0 <= j < k ==> s@[i + j] == p@[j],
        decreases p@.len() - k,
    {
        if s[i + k] != p[k] {
            proof {
                assert(s@.subrange(i as int, i + p@.len())[k as int] != p@[k as int]);
            }
            return false;
        }
        k = k + 1;
    }
    assert(s@.subrange(i as int, i + p@.len()) =~= p@);
    true
}

fn has_prefix(s: &Vec<char>, p: &Vec<char>) -> (r: bool)
    ensures
        r == starts_with(s@, p@),
{
    if s.len() < p.len() {
        return false;
    }
    let r = matches_at(s, p, 0);
    assert(s@.subrange(0, p@.len() as int) =~= s@.take(p@.len() as int));
    r
}

fn has_suffix(s: &Vec<char>, p: &Vec<char>) -> (r: bool)
    ensures
        r == ends_with(s@, p@),
{
    if s.len() < p.len() {
        return false;
    }
    let r = matches_at(s, p, s.len() - p.len());
    assert(s@.subrange(s@.len() - p@.len(), s@.len() as int) =~= s@.skip(s@.len() - p@.len()));
    r
}

fn has_infix(s: &Vec<char>, p: &Vec<char>) -> (r: bool)
    ensures
        r == contains_text(s@, p@),
{
    if s.len() < p.len() {
        return false;
    }
    let last = s.len() - p.len();
    let mut i: usize = 0;
    loop
        invariant
            p@.len() <= s@.len(),
            last == s@.len() - p@.len(),
            i <= last,
            forall|j: int| 0 <= j < i ==> #[trigger] s@.subrange(j, j + p@.len()) != p@,
        decreases last - i,
    {
        if matches_at(s, p, i) {
            return true;
        }
        if i == last {
            return false;
        }
        i = i + 1;
    }
}

fn asset_is_usable(a: &ReleaseAsset) -> (r: bool)
    ensures
        r == asset_usable(*a),
{
    let lower = lower_chars(a.name.as_str());
    let url = chars_of(a.url.as_str());
    let pre = chars_of("animstudio");
    let ext = chars_of(".exe");
    let setup = chars_of("setup");
    let https = chars_of("https://");
    has_prefix(&lower, &pre) && has_suffix(&lower, &ext) && !has_infix(&lower, &setup)
        && has_prefix(&url, &https) && a.size > 0
}

fn version_at_most(a: (u32, u32, u32), b: (u32, u32, u32)) -> (r: bool)
    ensures
        r == version_le(a, b),
{
    a.0 < b.0 || (a.0 == b.0 && (a.1 < b.1 || (a.1 == b.1 && a.2 <= b.2)))
}

pub open spec fn assets_view(o: Option<Vec<ReleaseAsset>>) -> Option<Seq<ReleaseAsset>> {
    match o {
        Some(a) => Some(a@),
        None => None,
    }
}

/// Judge a fetched release listing against the running build `current`.
pub fn release_event(tag: String, current: &str, assets: Option<Vec<ReleaseAsset>>) -> (e: UpdateEvent)
    ensures
        e@ == release_event_spec(tag@, current@, assets_view(assets)),
{
    if tag.unicode_len() == 0 {
        return UpdateEvent::Note(String::from_str("update check: no releases yet"));
    }
    if version_at_most(parse_version(tag.as_str()), parse_version(current)) {
        return UpdateEvent::UpToDate(tag);
    }
    let ghost sa = assets_view(assets);
    match assets {
        None => {
            let note = String::from_str("release ").concat(tag.as_str()).concat(" has no assets");
            UpdateEvent::Note(note)
        },
        Some(list) => {
            let mut list = list;
            let ghost orig = list@;
            let mut i: usize = 0;
            while i < list.len()
                invariant
                    list@ == orig,
                    sa == Some(orig),
                    sa == assets_view(assets),
                    !version_le(version_spec(tag@), version_spec(current@)),
                    tag@.len() != 0,
                    i <= list@.len(),
                    forall|j: int| 0 <= j < i ==> !asset_usable(#[trigger] list@[j]),
                decreases list@.len() - i,
            {
                if asset_is_usable(&list[i]) {
                    let a = list.remove(i);
                    proof {
                        assert(a == orig[i as int]);
                        let k = choose|k: int| 0 <= k < orig.len() && asset_usable(#[trigger] orig[k])
                            && forall|j: int| 0 <= j < k ==> !asset_usable(#[trigger] orig[j]);
                        if k < i {
                            assert(!asset_usable(orig[k]));
                        }
                        if k > i {
                            assert(!asset_usable(orig[i as int]));
                        }
                        assert(k == i);
                    }
                    return UpdateEvent::Ready { tag, url: a.url, size: a.size };
                }
                i = i + 1;
            }
            let note = String::from_str("release ").concat(tag.as_str()).concat(" carries no animstudio exe");
            UpdateEvent::Note(note)
        },
    }
}

/// An asset entry as the release listing gives it: a missing name or url
/// reads as empty, a missing size as 0.
pub open spec fn asset_fits(a: ReleaseAsset, j: Json) -> bool {
    &&& a.name@ == json_text_or_empty(j.get_spec("name"@))
    &&& a.url@ == json_text_or_empty(j.get_spec("browser_download_url"@))
    &&& a.size == match j.get_spec("size"@) { Some(n) => match n.u64_spec() { Some(v) => v, None => 0 }, None => 0 }
}

/// A member read as text: a string's text, else empty.
pub open spec fn json_text_or_empty(v: Option<Json>) -> Seq<char> {
    match v {
        Some(j) => match j.str_spec() {
            Some(s) => s@,
            None => Seq::empty(),
        },
        None => Seq::empty(),
    }
}

/// What a release listing's body means for the running build `current`:
/// a body serde_json cannot read is noted with its error; otherwise the
/// release's `tag_name` and `assets` are judged.
pub open spec fn release_body_fits(body: Seq<char>, current: Seq<char>, e: UpdateEventView) -> bool {
    match json_spec(body) {
        Err(m) => e == UpdateEventView::Note("update check: "@ + m),
        Ok(doc) => match doc.get_spec("assets"@) {
            Some(list) => match list.arr_spec() {
                Some(items) => exists|assets: Seq<ReleaseAsset>| assets.len() == items.len()
                    && (forall|i: int| 0 <= i < items.len() ==> asset_fits(#[trigger] assets[i], items[i]))
                    && e == release_event_spec(json_text_or_empty(doc.get_spec("tag_name"@)), current, Some(assets)),
                None => e == release_event_spec(json_text_or_empty(doc.get_spec("tag_name"@)), current, None),
            },
            None => e == release_event_spec(json_text_or_empty(doc.get_spec("tag_name"@)), current, None),
        },
    }
}

fn text_or_empty(v: Option<&Json>) -> (s: String)
    ensures
        s@ == json_text_or_empty(match v { Some(j) => Some(*j), None => None }),
{
    match v {
        Some(j) => match j.as_str() {
            Some(t) => t.clone(),
            None => String::new(),
        },
        None => String::new(),
    }
}

/// Judge the body of a latest-release answer against the running build
/// `current`.
pub fn release_from_body(body: &str, current: &str) -> (e: UpdateEvent)
    ensures
        release_body_fits(body@, current@, e@),
{
    let doc = match json_parse(body) {
        Ok(d) => d,
        Err(m) => return UpdateEvent::Note(String::from_str("update check: ").concat(m.as_str())),
    };
    let tag = text_or_empty(doc.get("tag_name"));
    let list = match doc.get("assets") {
        Some(l) => l.as_arr(),
        None => None,
    };
    match list {
        None => release_event(tag, current, None),
        Some(items) => {
            let mut assets: Vec<ReleaseAsset> = Vec::new();
            let mut i: usize = 0;
            while i < items.len()
                invariant
                    i <= items@.len(),
                    assets@.len() == i,
                    forall|k: int| 0 <= k < i ==> asset_fits(#[trigger] assets@[k], items@[k]),
                decreases items@.len() - i,
            {
                let a = &items[i];
                let name = text_or_empty(a.get("name"));
                let url = text_or_empty(a.get("browser_download_url"));
                let size: u64 = match a.get("size") {
                    Some(n) => match n.as_u64() {
                        Some(v) => v,
                        None => 0,
                    },
                    None => 0,
                };
                assets.push(ReleaseAsset { name, url, size });
                i = i + 1;
            }
            let ghost av = assets@;
            let e = release_event(tag, current, Some(assets));
            proof {
                assert(av.len() == items@.len());
                assert(forall|k: int| 0 <= k < items@.len() ==> asset_fits(#[trigger] av[k], items@[k]));
            }
            e
        },
    }
}

} // verus!
