//! XDTS (exchangeDigitalTimeSheet) interop: the digital exposure-sheet
//! exchange format. Timing only — cell numbers on tracks, no artwork. A
//! file is the signature line and a JSON document; serde_json reads and
//! writes the JSON, and the document's schema is walked and built here.
//! Files on disk are the application's.

use vstd::prelude::*;
use vstd::string::StrSliceExecFns;
use crate::text::{chars_of, strip_leading, string_from_chars, trim_chars, trim_spec, text_eq, push_char};
use crate::update::is_ascii_digit;
use crate::ids::DrawingId;
use crate::model::{Cut, Drawing, has_drawing};
use crate::text::{decimal, decimal_spec};
use crate::sparse::frames_ascending;
use crate::xsheet::{Column, Exposure};
use crate::json::{Json, json_parse, json_spec, json_text, json_text_spec};

verus! {

/// One imported track: keys as (frame, Some(cell number) | None = empty).
#[derive(Debug, Clone, PartialEq, Eq)]
pub struct XdtsColumn {
    pub name: String,
    pub keys: Vec<(u32, Option<String>)>,
}

/// A parsed sheet (the first time table only — one cut per file).
#[derive(Debug, Clone, PartialEq, Eq)]
pub struct XdtsSheet {
    pub name: String,
    pub duration: u32,
    pub columns: Vec<XdtsColumn>,
}

/// How many ASCII digits `s` ends with.
pub open spec fn trailing_digit_count(s: Seq<char>) -> nat
    decreases s.len(),
{
    if s.len() > 0 && is_ascii_digit(s.last()) {
        1 + trailing_digit_count(s.drop_last())
    } else {
        0
    }
}

/// The number a scene or cut name ends with, as the sheet header's 1-4
/// digit field: its trailing digits without leading zeros, at most four
/// of them; "0" when the digits are all zeros; "1" when there are none.
pub open spec fn trailing_number_spec(name: Seq<char>) -> Seq<char> {
    let digits = name.skip(name.len() - trailing_digit_count(name));
    let trimmed = strip_leading(digits, |c: char| c == '0');
    if trimmed.len() == 0 {
        if digits.len() == 0 { "1"@ } else { "0"@ }
    } else if trimmed.len() <= 4 {
        trimmed
    } else {
        trimmed.take(4)
    }
}

/// Trailing digits of a scene or cut name ("SC02" -> "2", "CUT01" -> "1").
pub fn trailing_number(name: &str) -> (r: String)
    ensures
        r@ == trailing_number_spec(name@),
{
    let cs = chars_of(name);
    let n = cs.len();
    // The start of the trailing digit run.
    let mut start = n;
    assert(cs@.take(n as int) =~= cs@);
    while start > 0 && '0' <= cs[start - 1] && cs[start - 1] <= '9'
        invariant
            start <= n == cs@.len(),
            trailing_digit_count(cs@) == (n - start) + trailing_digit_count(cs@.take(start as int)),
        decreases start,
    {
        proof {
            assert(cs@.take(start as int).drop_last() =~= cs@.take(start - 1));
            assert(cs@.take(start as int).last() == cs@[start - 1]);
        }
        start = start - 1;
    }
    proof {
        if start > 0 {
            assert(cs@.take(start as int).last() == cs@[start - 1]);
        }
        assert(trailing_digit_count(cs@.take(start as int)) == 0);
        assert(cs@.skip(n - trailing_digit_count(cs@)) =~= cs@.skip(start as int));
    }
    let ghost digits = cs@.skip(start as int);
    // Skip leading zeros.
    let mut z = start;
    while z < n && cs[z] == '0'
        invariant
            start <= z <= n == cs@.len(),
            digits == cs@.skip(start as int),
            strip_leading(digits, |c: char| c == '0') == strip_leading(cs@.skip(z as int), |c: char| c == '0'),
        decreases n - z,
    {
        proof {
            assert(cs@.skip(z as int).drop_first() =~= cs@.skip(z + 1));
        }
        z = z + 1;
    }
    proof {
        let r = cs@.skip(z as int);
        if r.len() > 0 {
            assert(r[0] == cs@[z as int]);
        }
        assert(strip_leading(r, |c: char| c == '0') == r);
        reveal_strlit("1");
        reveal_strlit("0");
    }
    if z == n {
        if start == n {
            return String::from_str("1");
        } else {
            return String::from_str("0");
        }
    }
    let end = if n - z > 4 { z + 4 } else { n };
    let mut out: Vec<char> = Vec::new();
    let mut k = z;
    while k < end
        invariant
            z <= k <= end <= n == cs@.len(),
            out@ == cs@.subrange(z as int, k as int),
        decreases end - k,
    {
        out.push(cs[k]);
        k = k + 1;
        assert(out@ =~= cs@.subrange(z as int, k as int));
    }
    proof {
        let t = cs@.skip(z as int);
        if n - z > 4 {
            assert(out@ =~= t.take(4));
        } else {
            assert(out@ =~= t);
        }
    }
    string_from_chars(&out)
}

/// The first line of an .xdts file.
pub const XDTS_SIGNATURE: &'static str = "exchangeDigitalTimeSheet Save Data";

/// The cell value of explicit emptiness.
pub const NULL_CELL: &'static str = "SYMBOL_NULL_CELL";

/// The cell value the sheet writes for a key: a drawing's 1-based
/// position in the cut's library ("1" for a drawing not in it), or the
/// null cell for an Empty key.
pub open spec fn cell_value_spec(drawings: Seq<Drawing>, e: Exposure) -> Seq<char> {
    match e {
        Exposure::Empty => "SYMBOL_NULL_CELL"@,
        Exposure::Drawing(d) => if has_drawing(drawings, d) {
            let i = choose|i: int| 0 <= i < drawings.len() && drawings[i].id == d
                && forall|j: int| 0 <= j < i ==> #[trigger] drawings[j].id != d;
            decimal_spec((i + 1) as nat)
        } else {
            "1"@
        },
    }
}

/// A column's exported track: its keys in frame order, each with the cell
/// value it writes.
pub open spec fn is_track_of(drawings: Seq<Drawing>, col: Column, t: Seq<(u32, String)>) -> bool {
    &&& frames_ascending(t)
    &&& forall|i: int| 0 <= i < t.len() ==> #[trigger] col.key_map().contains_key(t[i].0)
        && t[i].1@ == cell_value_spec(drawings, col.key_map()[t[i].0])
    &&& forall|f: u32| #[trigger] col.key_map().contains_key(f)
        ==> exists|i: int| 0 <= i < t.len() && #[trigger] t[i].0 == f
}

fn cell_value(cut: &Cut, e: Exposure) -> (v: String)
    ensures
        v@ == cell_value_spec(cut.drawings@, e),
{
    match e {
        Exposure::Empty => String::from_str("SYMBOL_NULL_CELL"),
        Exposure::Drawing(d) => match cut.drawing_index(d) {
            Some(i) => {
                let n = cut.drawings.len();
                proof {
                    let k = choose|k: int| 0 <= k < cut.drawings@.len() && cut.drawings@[k].id == d
                        && forall|j: int| 0 <= j < k ==> #[trigger] cut.drawings@[j].id != d;
                    if k < i {
                        assert(cut.drawings@[k].id != d);
                    }
                    if k > i {
                        assert(cut.drawings@[i as int].id != d);
                    }
                }
                string_from_chars(&decimal((i as u64) + 1))
            },
            None => String::from_str("1"),
        },
    }
}

/// The tracks an export writes: one per drawing column, in sheet order.
pub fn xdts_tracks(cut: &Cut) -> (ts: Vec<Vec<(u32, String)>>)
    requires
        cut.xsheet.wf(),
    ensures
        ts@.len() == cut.xsheet.columns@.len(),
        forall|k: int| 0 <= k < ts@.len() ==> is_track_of(cut.drawings@, cut.xsheet.columns@[k], #[trigger] ts@[k]@),
{
    let mut ts: Vec<Vec<(u32, String)>> = Vec::new();
    let mut k: usize = 0;
    while k < cut.xsheet.columns.len()
        invariant
            cut.xsheet.wf(),
            k <= cut.xsheet.columns@.len(),
            ts@.len() == k,
            forall|m: int| 0 <= m < k ==> is_track_of(cut.drawings@, cut.xsheet.columns@[m], #[trigger] ts@[m]@),
        decreases cut.xsheet.columns@.len() - k,
    {
        let col = &cut.xsheet.columns[k];
        assert(col.wf());
        let keys = col.keys();
        let mut t: Vec<(u32, String)> = Vec::new();
        let mut j: usize = 0;
        while j < keys.len()
            invariant
                j <= keys@.len(),
                t@.len() == j,
                frames_ascending(keys@),
                forall|i: int| 0 <= i < keys@.len() ==> #[trigger] col.key_map().contains_key(keys@[i].0)
                    && col.key_map()[keys@[i].0] == keys@[i].1,
                forall|i: int| 0 <= i < j ==> (#[trigger] t@[i]).0 == keys@[i].0
                    && t@[i].1@ == cell_value_spec(cut.drawings@, keys@[i].1),
            decreases keys@.len() - j,
        {
            let (f, e) = keys[j];
            let v = cell_value(cut, e);
            t.push((f, v));
            j = j + 1;
        }
        proof {
            assert forall|a: int, b: int| 0 <= a < b < t@.len() implies #[trigger] t@[a].0 < #[trigger] t@[b].0 by {
                assert(keys@[a].0 < keys@[b].0);
            }
            assert forall|f: u32| #[trigger] col.key_map().contains_key(f)
                implies exists|i: int| 0 <= i < t@.len() && #[trigger] t@[i].0 == f by {
                let i = choose|i: int| 0 <= i < keys@.len() && #[trigger] keys@[i].0 == f;
                assert(t@[i].0 == f);
            }
            assert forall|i: int| 0 <= i < t@.len() implies #[trigger] col.key_map().contains_key(t@[i].0)
                && t@[i].1@ == cell_value_spec(cut.drawings@, col.key_map()[t@[i].0]) by {
                assert(keys@[i].0 == t@[i].0);
            }
        }
        let ghost pre = ts@;
        ts.push(t);
        proof {
            assert forall|m: int| 0 <= m < k + 1 implies is_track_of(cut.drawings@, cut.xsheet.columns@[m], #[trigger] ts@[m]@) by {
                if m < k {
                    assert(ts@[m] == pre[m]);
                }
            }
        }
        k = k + 1;
    }
    ts
}

// ---------------------------------------------------------------------------
// Import
// ---------------------------------------------------------------------------

/// The JSON text of a sheet: what follows the first line when that line,
/// trimmed, is the signature; otherwise the whole text (a missing
/// signature line is tolerated).
pub open spec fn sheet_json_spec(text: Seq<char>) -> Seq<char> {
    if exists|i: int| 0 <= i < text.len() && text[i] == '\n' {
        let i = choose|i: int| 0 <= i < text.len() && text[i] == '\n'
            && forall|j: int| 0 <= j < i ==> #[trigger] text[j] != '\n';
        if trim_spec(text.take(i)) == "exchangeDigitalTimeSheet Save Data"@ {
            text.skip(i + 1)
        } else {
            text
        }
    } else {
        text
    }
}

pub fn sheet_json(text: &str) -> (j: String)
    ensures
        j@ == sheet_json_spec(text@),
{
    let cs = chars_of(text);
    let mut i: usize = 0;
    while i < cs.len() && cs[i] != '\n'
        invariant
            cs@ == text@,
            i <= cs@.len(),
            forall|j: int| 0 <= j < i ==> #[trigger] cs@[j] != '\n',
        decreases cs@.len() - i,
    {
        i = i + 1;
    }
    if i == cs.len() {
        return string_from_chars(&cs);
    }
    proof {
        let k = choose|k: int| 0 <= k < cs@.len() && cs@[k] == '\n'
            && forall|j: int| 0 <= j < k ==> #[trigger] cs@[j] != '\n';
        if k < i {
            assert(cs@[k] != '\n');
        }
        if k > i {
            assert(cs@[i as int] != '\n');
        }
        assert(k == i);
    }
    let mut first: Vec<char> = Vec::new();
    let mut k: usize = 0;
    while k < i
        invariant
            i < cs@.len(),
            k <= i,
            first@ == cs@.take(k as int),
        decreases i - k,
    {
        first.push(cs[k]);
        k = k + 1;
        assert(first@ =~= cs@.take(k as int));
    }
    let trimmed = string_from_chars(&trim_chars(&first));
    if text_eq(trimmed.as_str(), XDTS_SIGNATURE) {
        let mut rest: Vec<char> = Vec::new();
        let mut m: usize = i + 1;
        while m < cs.len()
            invariant
                i < cs@.len(),
                i + 1 <= m <= cs@.len(),
                rest@ == cs@.subrange(i + 1, m as int),
            decreases cs@.len() - m,
        {
            rest.push(cs[m]);
            m = m + 1;
            assert(rest@ =~= cs@.subrange(i + 1, m as int));
        }
        assert(rest@ =~= cs@.skip(i + 1));
        string_from_chars(&rest)
    } else {
        string_from_chars(&cs)
    }
}

/// Tick marks and hyphens: annotations of other tools, not cells.
pub open spec fn is_annotation(v: Seq<char>) -> bool {
    v == "SYMBOL_TICK_1"@ || v == "SYMBOL_TICK_2"@ || v == "SYMBOL_HYPHEN"@
}

/// A track's frame items as keys, in item order: the null cell is an
/// explicit empty key, annotations are skipped, anything else is a cell
/// number.
pub open spec fn item_keys(items: Seq<(u32, String)>) -> Seq<(u32, Option<String>)>
    decreases items.len(),
{
    if items.len() == 0 {
        Seq::empty()
    } else {
        let rest = item_keys(items.drop_last());
        let (f, v) = items.last();
        if v@ == "SYMBOL_NULL_CELL"@ {
            rest.push((f, None))
        } else if is_annotation(v@) {
            rest
        } else {
            rest.push((f, Some(v)))
        }
    }
}

/// The keys at frame `f`, in order.
pub open spec fn at_frame(s: Seq<(u32, Option<String>)>, f: u32) -> Seq<(u32, Option<String>)> {
    s.filter(|e: (u32, Option<String>)| e.0 == f)
}

/// `out` is `input` stably sorted by frame: ascending frames, and the keys
/// of every frame in their input order.
pub open spec fn stably_sorted(input: Seq<(u32, Option<String>)>, out: Seq<(u32, Option<String>)>) -> bool {
    &&& forall|i: int, j: int| 0 <= i < j < out.len() ==> #[trigger] out[i].0 <= #[trigger] out[j].0
    &&& forall|f: u32| #[trigger] at_frame(out, f) == at_frame(input, f)
}

/// The texts of a list of strings.
pub open spec fn names_view(s: Seq<String>) -> Seq<Seq<char>> {
    s.map_values(|n: String| n@)
}

/// A track's column name: its header name when present and not empty,
/// else "T" and its 1-based number.
pub open spec fn track_name_spec(names: Seq<Seq<char>>, track_no: usize) -> Seq<char> {
    if track_no < names.len() && names[track_no as int].len() > 0 {
        names[track_no as int]
    } else {
        "T"@ + decimal_spec(track_no as nat + 1)
    }
}

proof fn lemma_filter_none(s: Seq<(u32, Option<String>)>, f: u32)
    requires
        forall|i: int| 0 <= i < s.len() ==> #[trigger] s[i].0 != f,
    ensures
        at_frame(s, f) == Seq::<(u32, Option<String>)>::empty(),
    decreases s.len(),
{
    reveal(Seq::filter);
    if s.len() > 0 {
        lemma_filter_none(s.drop_last(), f);
    }
}

proof fn lemma_singleton_filter(x: (u32, Option<String>), f: u32)
    ensures
        at_frame(seq![x], f) == (if x.0 == f { seq![x] } else { Seq::<(u32, Option<String>)>::empty() }),
{
    reveal(Seq::filter);
    let e = Seq::<(u32, Option<String>)>::empty();
    assert(seq![x].drop_last() =~= e);
    assert(at_frame(e, f) =~= e);
    assert(seq![x].last() == x);
}

/// Insert `x` after every key whose frame is at most its own.
fn insert_stable(out: &mut Vec<(u32, Option<String>)>, x: (u32, Option<String>))
    requires
        forall|i: int, j: int| 0 <= i < j < old(out)@.len() ==> #[trigger] old(out)@[i].0 <= #[trigger] old(out)@[j].0,
    ensures
        forall|i: int, j: int| 0 <= i < j < final(out)@.len() ==> #[trigger] final(out)@[i].0 <= #[trigger] final(out)@[j].0,
        forall|f: u32| #[trigger] at_frame(final(out)@, f) == at_frame(old(out)@, f) + at_frame(seq![x], f),
{
    let ghost o = out@;
    let mut p: usize = 0;
    while p < out.len() && out[p].0 <= x.0
        invariant
            out@ == o,
            p <= o.len(),
            forall|i: int| 0 <= i < p ==> #[trigger] o[i].0 <= x.0,
        decreases o.len() - p,
    {
        p = p + 1;
    }
    let ghost f0 = x.0;
    out.insert(p, x);
    proof {
        let a = o.take(p as int);
        let b = o.skip(p as int);
        assert(o =~= a + b);
        assert(out@ =~= a + seq![x] + b);
        assert forall|i: int| 0 <= i < b.len() implies #[trigger] b[i].0 > x.0 by {
            if p < o.len() {
                assert(o[p as int].0 > x.0);
                assert(b[i] == o[p + i]);
                if i > 0 {
                    assert(o[p as int].0 <= o[p + i].0);
                }
            }
        }
        assert forall|i: int, j: int| 0 <= i < j < out@.len() implies #[trigger] out@[i].0 <= #[trigger] out@[j].0 by {
            if i < p && j < p {
                assert(out@[i] == o[i] && out@[j] == o[j]);
            } else if i < p && j == p {
            } else if i < p {
                assert(out@[i] == o[i] && out@[j] == o[j - 1]);
            } else if i == p {
                assert(out@[j] == o[j - 1]);
                assert(out@[j] == b[j - 1 - p]);
            } else {
                assert(out@[i] == o[i - 1] && out@[j] == o[j - 1]);
            }
        }
        assert forall|f: u32| #[trigger] at_frame(out@, f) == at_frame(o, f) + at_frame(seq![x], f) by {
            let pred = |e: (u32, Option<String>)| e.0 == f;
            Seq::filter_distributes_over_add(a + seq![x], b, pred);
            Seq::filter_distributes_over_add(a, seq![x], pred);
            Seq::filter_distributes_over_add(a, b, pred);
            lemma_singleton_filter(x, f);
            if x.0 == f {
                lemma_filter_none(b, f);
                assert(at_frame(a, f) + at_frame(seq![x], f) + at_frame(b, f)
                    =~= at_frame(a, f) + at_frame(b, f) + at_frame(seq![x], f));
            } else {
                assert(at_frame(a, f) + at_frame(seq![x], f) + at_frame(b, f)
                    =~= at_frame(a, f) + at_frame(b, f) + at_frame(seq![x], f));
            }
        }
    }
}

/// Build an imported column from its track number, the header's track
/// names and the track's frame items (frame, first cell value).
pub fn xdts_column(track_no: usize, header_names: &Vec<String>, items: &Vec<(u32, String)>) -> (c: XdtsColumn)
    requires
        track_no < usize::MAX,
    ensures
        c.name@ == track_name_spec(names_view(header_names@), track_no),
        stably_sorted(item_keys(items@), c.keys@),
{
    let mut keys: Vec<(u32, Option<String>)> = Vec::new();
    let mut i: usize = 0;
    while i < items.len()
        invariant
            i <= items@.len(),
            forall|a: int, b: int| 0 <= a < b < keys@.len() ==> #[trigger] keys@[a].0 <= #[trigger] keys@[b].0,
            forall|f: u32| #[trigger] at_frame(keys@, f) == at_frame(item_keys(items@.take(i as int)), f),
        decreases items@.len() - i,
    {
        let (f, v) = (items[i].0, &items[i].1);
        let ghost pre = items@.take(i as int);
        proof {
            assert(items@.take(i + 1).drop_last() =~= pre);
            assert(items@.take(i + 1).last() == items@[i as int]);
        }
        let ghost ik = item_keys(pre);
        if text_eq(v.as_str(), "SYMBOL_NULL_CELL") {
            insert_stable(&mut keys, (f, None));
            proof {
                assert(item_keys(items@.take(i + 1)) == ik.push((f, None::<String>)));
                assert forall|g: u32| #[trigger] at_frame(keys@, g) == at_frame(item_keys(items@.take(i + 1)), g) by {
                    Seq::filter_distributes_over_add(ik, seq![(f, None::<String>)], |e: (u32, Option<String>)| e.0 == g);
                    assert(ik.push((f, None::<String>)) =~= ik + seq![(f, None::<String>)]);
                }
            }
        } else if text_eq(v.as_str(), "SYMBOL_TICK_1") || text_eq(v.as_str(), "SYMBOL_TICK_2")
            || text_eq(v.as_str(), "SYMBOL_HYPHEN") {
        } else {
            let cell = v.clone();
            let ghost x = (f, Some(cell));
            insert_stable(&mut keys, (f, Some(cell)));
            proof {
                assert(item_keys(items@.take(i + 1)) == ik.push(x));
                assert forall|g: u32| #[trigger] at_frame(keys@, g) == at_frame(item_keys(items@.take(i + 1)), g) by {
                    Seq::filter_distributes_over_add(ik, seq![x], |e: (u32, Option<String>)| e.0 == g);
                    assert(ik.push(x) =~= ik + seq![x]);
                }
            }
        }
        i = i + 1;
    }
    proof {
        assert(items@.take(i as int) =~= items@);
    }
    let name = if track_no < header_names.len() && header_names[track_no].unicode_len() > 0 {
        header_names[track_no].clone()
    } else {
        let mut s = String::from_str("T");
        let ds = decimal((track_no as u64) + 1);
        let ghost head = s@;
        let mut k: usize = 0;
        while k < ds.len()
            invariant
                k <= ds@.len(),
                s@ == head + ds@.take(k as int),
            decreases ds@.len() - k,
        {
            push_char(&mut s, ds[k]);
            k = k + 1;
            assert(s@ =~= head + ds@.take(k as int));
        }
        assert(ds@.take(k as int) =~= ds@);
        s
    };
    XdtsColumn { name, keys }
}


// ---------------------------------------------------------------------------
// Reading a sheet from its JSON document
// ---------------------------------------------------------------------------

/// What a document yields before the columns are assembled: the sheet's
/// name and duration, the CELL header's track names, and each CELL track's
/// number with its keys in item order.
pub struct SheetPlan {
    pub name: Seq<char>,
    pub duration: u32,
    pub names: Seq<Seq<char>>,
    pub tracks: Seq<(usize, Seq<(u32, Option<String>)>)>,
}

/// The member `key` of `j`, read as an array.
pub open spec fn arr_at(j: Json, key: Seq<char>) -> Option<Seq<Json>> {
    match j.get_spec(key) {
        Some(v) => v.arr_spec(),
        None => None,
    }
}

/// The first element of an array that there is.
pub open spec fn first_spec(a: Option<Seq<Json>>) -> Option<Json> {
    match a {
        Some(s) => if s.len() > 0 { Some(s[0]) } else { None },
        None => None,
    }
}

/// An entry whose `fieldId` reads as the signed integer 0: the CELL field.
pub open spec fn is_cell_field(f: Json) -> bool {
    match f.get_spec("fieldId"@) {
        Some(i) => i.i64_spec() == Some(0i64),
        None => false,
    }
}

/// The first CELL entry of a list.
pub open spec fn first_cell(fs: Seq<Json>) -> Option<Json>
    decreases fs.len(),
{
    if fs.len() == 0 {
        None
    } else if is_cell_field(fs[0]) {
        Some(fs[0])
    } else {
        first_cell(fs.drop_first())
    }
}

/// A string element read as a track name; anything else reads as empty.
pub open spec fn name_of(j: Json) -> Seq<char> {
    match j.str_spec() {
        Some(s) => s@,
        None => Seq::empty(),
    }
}

/// The CELL header's track names (none when the header is missing).
pub open spec fn header_names_spec(table: Json) -> Seq<Seq<char>> {
    match arr_at(table, "timeTableHeaders"@) {
        Some(hs) => match first_cell(hs) {
            Some(h) => match arr_at(h, "names"@) {
                Some(ns) => ns.map_values(|n: Json| name_of(n)),
                None => Seq::empty(),
            },
            None => Seq::empty(),
        },
        None => Seq::empty(),
    }
}

/// A frame item's cell: the first value of its first data entry, when that
/// is a string.
pub open spec fn frame_value_spec(item: Json) -> Option<String> {
    match first_spec(arr_at(item, "data"@)) {
        Some(d) => match first_spec(arr_at(d, "values"@)) {
            Some(v) => v.str_spec(),
            None => None,
        },
        None => None,
    }
}

/// A frame item's frame number, when it has one.
pub open spec fn frame_of(item: Json) -> Option<u32> {
    match item.get_spec("frame"@) {
        Some(f) => match f.u64_spec() {
            Some(n) => Some(n as u32),
            None => None,
        },
        None => None,
    }
}

/// The key a frame item gives, if any: no cell value or the null cell is
/// an explicit empty, an annotation gives none, any other value is a cell.
pub open spec fn item_key(f: u32, v: Option<String>) -> Seq<(u32, Option<String>)> {
    match v {
        None => seq![(f, None)],
        Some(s) => if s@ == "SYMBOL_NULL_CELL"@ {
            seq![(f, None)]
        } else if is_annotation(s@) {
            Seq::empty()
        } else {
            seq![(f, Some(s))]
        },
    }
}

/// A track's frame items as keys in item order; nothing when an item has
/// no frame number.
pub open spec fn frame_keys(items: Seq<Json>) -> Option<Seq<(u32, Option<String>)>>
    decreases items.len(),
{
    if items.len() == 0 {
        Some(Seq::empty())
    } else {
        match frame_of(items[0]) {
            None => None,
            Some(f) => match frame_keys(items.drop_first()) {
                None => None,
                Some(rest) => Some(item_key(f, frame_value_spec(items[0])) + rest),
            },
        }
    }
}

/// A track's number: its `trackNo` as an unsigned integer, else 0.
pub open spec fn track_no_spec(t: Json) -> usize {
    match t.get_spec("trackNo"@) {
        Some(n) => match n.u64_spec() {
            Some(v) => v as usize,
            None => 0,
        },
        None => 0,
    }
}

/// Each CELL track's number and keys, or the first track's refusal.
pub open spec fn tracks_plan(ts: Seq<Json>) -> Result<Seq<(usize, Seq<(u32, Option<String>)>)>, Seq<char>>
    decreases ts.len(),
{
    if ts.len() == 0 {
        Ok(Seq::empty())
    } else {
        let no = track_no_spec(ts[0]);
        if no == usize::MAX {
            Err("xdts: bad trackNo"@)
        } else {
            match frame_keys(match arr_at(ts[0], "frames"@) { Some(a) => a, None => Seq::empty() }) {
                None => Err("xdts: frame item without 'frame'"@),
                Some(keys) => match tracks_plan(ts.drop_first()) {
                    Err(m) => Err(m),
                    Ok(rest) => Ok(seq![(no, keys)] + rest),
                },
            }
        }
    }
}

/// What a document yields: from its first time table the name ("XDTS"
/// when not a string), the duration, the CELL header's names and the CELL
/// field's tracks, or the refusal for the first thing missing.
pub open spec fn sheet_spec(doc: Json) -> Result<SheetPlan, Seq<char>> {
    match doc.get_spec("timeTables"@) {
        None => Err("xdts: missing 'timeTables'"@),
        Some(tt) => match first_spec(tt.arr_spec()) {
            None => Err("xdts: no timeTables"@),
            Some(table) => match table.get_spec("name"@) {
                None => Err("xdts: missing 'name'"@),
                Some(nm) => match table.get_spec("duration"@) {
                    None => Err("xdts: missing 'duration'"@),
                    Some(du) => match du.u64_spec() {
                        None => Err("xdts: bad duration"@),
                        Some(d) => match table.get_spec("fields"@) {
                            None => Err("xdts: missing 'fields'"@),
                            Some(fs) => match (match fs.arr_spec() { Some(a) => first_cell(a), None => None }) {
                                None => Err("xdts: no CELL field"@),
                                Some(cf) => match arr_at(cf, "tracks"@) {
                                    None => Err("xdts: no tracks"@),
                                    Some(ts) => match tracks_plan(ts) {
                                        Err(m) => Err(m),
                                        Ok(cols) => if d as u32 == 0 {
                                            Err("xdts: zero duration"@)
                                        } else {
                                            Ok(SheetPlan {
                                                name: match nm.str_spec() { Some(s) => s@, None => "XDTS"@ },
                                                duration: d as u32,
                                                names: header_names_spec(table),
                                                tracks: cols,
                                            })
                                        },
                                    },
                                },
                            },
                        },
                    },
                },
            },
        },
    }
}

/// A sheet assembled from a plan: its name and duration, and per track a
/// column named from the header and keyed by the track's keys stably
/// sorted by frame.
pub open spec fn sheet_fits(s: XdtsSheet, p: SheetPlan) -> bool {
    &&& s.name@ == p.name
    &&& s.duration == p.duration
    &&& s.columns@.len() == p.tracks.len()
    &&& forall|k: int| 0 <= k < p.tracks.len() ==> (#[trigger] s.columns@[k]).name@ == track_name_spec(p.names, p.tracks[k].0)
        && stably_sorted(p.tracks[k].1, s.columns@[k].keys@)
}

/// The outcome a document owes: the assembled sheet, or the refusal.
pub open spec fn sheet_result(r: Result<XdtsSheet, String>, doc: Json) -> bool {
    match sheet_spec(doc) {
        Ok(p) => r matches Ok(s) && sheet_fits(s, p),
        Err(m) => r matches Err(e) && e@ == m,
    }
}

fn arr_at_exec<'a>(j: &'a Json, key: &str) -> (r: Option<&'a Vec<Json>>)
    ensures
        r matches Some(a) ==> arr_at(*j, key@) == Some(a@),
        r is None ==> arr_at(*j, key@) is None,
{
    match j.get(key) {
        Some(v) => v.as_arr(),
        None => None,
    }
}

fn first_cell_exec(fs: &Vec<Json>) -> (r: Option<&Json>)
    ensures
        r matches Some(f) ==> first_cell(fs@) == Some(*f),
        r is None ==> first_cell(fs@) is None,
{
    let mut i: usize = 0;
    assert(fs@.skip(0) =~= fs@);
    while i < fs.len()
        invariant
            i <= fs@.len(),
            first_cell(fs@) == first_cell(fs@.skip(i as int)),
        decreases fs@.len() - i,
    {
        proof {
            assert(fs@.skip(i as int)[0] == fs@[i as int]);
            assert(fs@.skip(i as int).drop_first() =~= fs@.skip(i + 1));
        }
        let f = &fs[i];
        let is_cell = match f.get("fieldId") {
            Some(id) => match id.as_i64() {
                Some(v) => v == 0,
                None => false,
            },
            None => false,
        };
        if is_cell {
            return Some(f);
        }
        i = i + 1;
    }
    None
}

fn header_names(table: &Json) -> (names: Vec<String>)
    ensures
        names_view(names@) == header_names_spec(*table),
{
    let mut names: Vec<String> = Vec::new();
    let hs = match arr_at_exec(table, "timeTableHeaders") {
        Some(hs) => hs,
        None => {
            assert(names_view(names@) =~= Seq::<Seq<char>>::empty());
            return names;
        },
    };
    let h = match first_cell_exec(hs) {
        Some(h) => h,
        None => {
            assert(names_view(names@) =~= Seq::<Seq<char>>::empty());
            return names;
        },
    };
    let ns = match arr_at_exec(h, "names") {
        Some(ns) => ns,
        None => {
            assert(names_view(names@) =~= Seq::<Seq<char>>::empty());
            return names;
        },
    };
    let ghost want = ns@.map_values(|n: Json| name_of(n));
    let mut i: usize = 0;
    while i < ns.len()
        invariant
            i <= ns@.len(),
            want == ns@.map_values(|n: Json| name_of(n)),
            names@.len() == i,
            names_view(names@) == want.take(i as int),
        decreases ns@.len() - i,
    {
        let n = match ns[i].as_str() {
            Some(s) => s.clone(),
            None => String::new(),
        };
        assert(n@ == want[i as int]);
        let ghost pre = names@;
        names.push(n);
        proof {
            assert(names@ =~= pre.push(n));
            assert(names_view(pre) == want.take(i as int));
            assert forall|k: int| 0 <= k <= i implies names_view(names@)[k] == want.take(i + 1)[k] by {
                if k < i {
                    assert(names@[k] == pre[k]);
                    assert(names_view(pre)[k] == want.take(i as int)[k]);
                } else {
                    assert(names@[k] == n);
                }
            }
        }
        i = i + 1;
        assert(names_view(names@) =~= want.take(i as int));
    }
    assert(want.take(i as int) =~= want);
    names
}

fn frame_value(item: &Json) -> (r: Option<&String>)
    ensures
        r matches Some(s) ==> frame_value_spec(*item) == Some(*s),
        r is None ==> frame_value_spec(*item) is None,
{
    let d = match arr_at_exec(item, "data") {
        Some(a) => if a.len() > 0 { &a[0] } else { return None },
        None => return None,
    };
    match arr_at_exec(d, "values") {
        Some(a) => if a.len() > 0 { a[0].as_str() } else { None },
        None => None,
    }
}

/// One track's frame items as (frame, cell value) pairs, the null cell
/// standing for a missing value; `None` when an item has no frame number.
fn track_items(frames: &Vec<Json>) -> (r: Option<Vec<(u32, String)>>)
    ensures
        match frame_keys(frames@) {
            Some(keys) => r matches Some(items) && item_keys(items@) == keys,
            None => r is None,
        },
{
    let mut items: Vec<(u32, String)> = Vec::new();
    let ghost mut done: Seq<(u32, Option<String>)> = Seq::empty();
    let mut j: usize = 0;
    assert(frames@.skip(0) =~= frames@);
    assert(done + Seq::<(u32, Option<String>)>::empty() =~= done);
    while j < frames.len()
        invariant
            j <= frames@.len(),
            item_keys(items@) == done,
            frame_keys(frames@) == match frame_keys(frames@.skip(j as int)) {
                Some(rest) => Some(done + rest),
                None => None::<Seq<(u32, Option<String>)>>,
            },
        decreases frames@.len() - j,
    {
        let it = &frames[j];
        proof {
            assert(frames@.skip(j as int)[0] == frames@[j as int]);
            assert(frames@.skip(j as int).drop_first() =~= frames@.skip(j + 1));
        }
        let f = match it.get("frame") {
            Some(fj) => match fj.as_u64() {
                Some(n) => n as u32,
                None => return None,
            },
            None => return None,
        };
        let v = match frame_value(it) {
            Some(s) => s.clone(),
            None => String::from_str(NULL_CELL),
        };
        let ghost k = item_key(f, frame_value_spec(*it));
        let ghost pre = items@;
        items.push((f, v));
        proof {
            reveal_strlit("SYMBOL_NULL_CELL");
            assert(items@.drop_last() =~= pre);
            assert(item_keys(items@) == done + k) by {
                if v@ == "SYMBOL_NULL_CELL"@ {
                    assert(done.push((f, None)) =~= done + k);
                } else if is_annotation(v@) {
                    assert(done =~= done + k);
                } else {
                    assert(done.push((f, Some(v))) =~= done + k);
                }
            }
            match frame_keys(frames@.skip(j + 1)) {
                Some(rest) => {
                    assert(done + (k + rest) =~= (done + k) + rest);
                },
                None => {},
            }
            done = done + k;
        }
        j = j + 1;
    }
    assert(frames@.skip(j as int) =~= Seq::<Json>::empty());
    assert(done + Seq::<(u32, Option<String>)>::empty() =~= done);
    Some(items)
}

/// The CELL tracks as columns, or the first track's refusal.
fn track_columns(ts: &Vec<Json>, names: &Vec<String>) -> (r: Result<Vec<XdtsColumn>, String>)
    ensures
        match tracks_plan(ts@) {
            Ok(plan) => r matches Ok(cols) && cols@.len() == plan.len()
                && forall|k: int| 0 <= k < plan.len() ==> (#[trigger] cols@[k]).name@ == track_name_spec(names_view(names@), plan[k].0)
                    && stably_sorted(plan[k].1, cols@[k].keys@),
            Err(m) => r matches Err(e) && e@ == m,
        },
{
    let mut cols: Vec<XdtsColumn> = Vec::new();
    let ghost mut done: Seq<(usize, Seq<(u32, Option<String>)>)> = Seq::empty();
    let mut i: usize = 0;
    assert(ts@.skip(0) =~= ts@);
    assert(done + Seq::<(usize, Seq<(u32, Option<String>)>)>::empty() =~= done);
    while i < ts.len()
        invariant
            i <= ts@.len(),
            cols@.len() == done.len(),
            forall|k: int| 0 <= k < done.len() ==> (#[trigger] cols@[k]).name@ == track_name_spec(names_view(names@), done[k].0)
                && stably_sorted(done[k].1, cols@[k].keys@),
            tracks_plan(ts@) == match tracks_plan(ts@.skip(i as int)) {
                Ok(rest) => Ok(done + rest),
                Err(m) => Err::<Seq<(usize, Seq<(u32, Option<String>)>)>, Seq<char>>(m),
            },
        decreases ts@.len() - i,
    {
        let t = &ts[i];
        proof {
            assert(ts@.skip(i as int)[0] == ts@[i as int]);
            assert(ts@.skip(i as int).drop_first() =~= ts@.skip(i + 1));
        }
        let no: usize = match t.get("trackNo") {
            Some(n) => match n.as_u64() {
                Some(v) => v as usize,
                None => 0,
            },
            None => 0,
        };
        if no == usize::MAX {
            return Err(String::from_str("xdts: bad trackNo"));
        }
        let empty: Vec<Json> = Vec::new();
        let frames = match arr_at_exec(t, "frames") {
            Some(a) => a,
            None => &empty,
        };
        let items = match track_items(frames) {
            Some(items) => items,
            None => return Err(String::from_str("xdts: frame item without 'frame'")),
        };
        let col = xdts_column(no, names, &items);
        let ghost c = (no, item_keys(items@));
        let ghost pre = cols@;
        cols.push(col);
        proof {
            assert forall|k: int| 0 <= k < done.len() + 1 implies (#[trigger] cols@[k]).name@ == track_name_spec(names_view(names@), done.push(c)[k].0)
                && stably_sorted(done.push(c)[k].1, cols@[k].keys@) by {
                if k < done.len() {
                    assert(cols@[k] == pre[k]);
                }
            }
            match tracks_plan(ts@.skip(i + 1)) {
                Ok(rest) => {
                    assert(done + (seq![c] + rest) =~= done.push(c) + rest);
                },
                Err(_) => {},
            }
            done = done.push(c);
        }
        i = i + 1;
    }
    assert(ts@.skip(i as int) =~= Seq::<Json>::empty());
    assert(done + Seq::<(usize, Seq<(u32, Option<String>)>)>::empty() =~= done);
    Ok(cols)
}

/// Read a sheet from an .xdts document: the first time table's name,
/// duration and CELL tracks as columns.
pub fn sheet_from_json(doc: &Json) -> (r: Result<XdtsSheet, String>)
    ensures
        sheet_result(r, *doc),
{
    let tt = match doc.get("timeTables") {
        Some(tt) => tt,
        None => return Err(String::from_str("xdts: missing 'timeTables'")),
    };
    let table = match tt.as_arr() {
        Some(a) => if a.len() > 0 { &a[0] } else { return Err(String::from_str("xdts: no timeTables")) },
        None => return Err(String::from_str("xdts: no timeTables")),
    };
    let nm = match table.get("name") {
        Some(n) => n,
        None => return Err(String::from_str("xdts: missing 'name'")),
    };
    let du = match table.get("duration") {
        Some(d) => d,
        None => return Err(String::from_str("xdts: missing 'duration'")),
    };
    let duration: u32 = match du.as_u64() {
        Some(d) => d as u32,
        None => return Err(String::from_str("xdts: bad duration")),
    };
    let name = match nm.as_str() {
        Some(s) => s.clone(),
        None => String::from_str("XDTS"),
    };
    let names = header_names(table);
    let fs = match table.get("fields") {
        Some(f) => f,
        None => return Err(String::from_str("xdts: missing 'fields'")),
    };
    let cell = match fs.as_arr() {
        Some(a) => first_cell_exec(a),
        None => None,
    };
    let cf = match cell {
        Some(c) => c,
        None => return Err(String::from_str("xdts: no CELL field")),
    };
    let ts = match arr_at_exec(cf, "tracks") {
        Some(t) => t,
        None => return Err(String::from_str("xdts: no tracks")),
    };
    let columns = match track_columns(ts, &names) {
        Ok(c) => c,
        Err(e) => return Err(e),
    };
    if duration == 0 {
        return Err(String::from_str("xdts: zero duration"));
    }
    proof {
        reveal_strlit("XDTS");
    }
    Ok(XdtsSheet { name, duration, columns })
}

/// Parse .xdts text into a sheet (the CELL tracks only). A missing
/// signature line is tolerated; the JSON must hold the sheet's shape.
pub fn parse(text: &str) -> (r: Result<XdtsSheet, String>)
    ensures
        match json_spec(sheet_json_spec(text@)) {
            Ok(doc) => sheet_result(r, doc),
            Err(m) => r matches Err(e) && e@ == "xdts: "@ + m,
        },
{
    let json_text = sheet_json(text);
    match json_parse(json_text.as_str()) {
        Ok(doc) => sheet_from_json(&doc),
        Err(m) => Err(String::from_str("xdts: ").concat(m.as_str())),
    }
}

// ---------------------------------------------------------------------------
// Writing a sheet's JSON document
// ---------------------------------------------------------------------------

/// A string holding `t`.
pub open spec fn is_text(j: Json, t: Seq<char>) -> bool {
    j.str_spec() matches Some(s) && s@ == t
}

/// The number `n` as serde_json holds an unsigned integer.
pub open spec fn is_count(j: Json, n: u64) -> bool {
    j == Json::Num(Some(n), if n <= i64::MAX { Some(n as i64) } else { None })
}

/// An object whose members are named `keys`, in that order.
pub open spec fn keys_are(j: Json, keys: Seq<Seq<char>>) -> bool {
    j matches Json::Obj(m) && m@.len() == keys.len() && forall|i: int| 0 <= i < keys.len() ==> (#[trigger] m@[i]).0@ == keys[i]
}

/// An array of `n` elements.
pub open spec fn arr_len(j: Json, n: nat) -> bool {
    j matches Json::Arr(a) && a@.len() == n
}

/// The `i`-th member of an object or element of an array.
pub open spec fn at(j: Json, i: int) -> Json {
    match j {
        Json::Obj(m) => m@[i].1,
        Json::Arr(a) => a@[i],
        _ => Json::Null,
    }
}

/// A frame entry of an exported track: `{"data":[{"id":0,"values":[v]}],"frame":f}`.
pub open spec fn frame_json_fits(j: Json, f: u32, v: Seq<char>) -> bool {
    let data = at(j, 0);
    let d0 = at(data, 0);
    &&& keys_are(j, seq!["data"@, "frame"@])
    &&& arr_len(data, 1)
    &&& keys_are(d0, seq!["id"@, "values"@])
    &&& is_count(at(d0, 0), 0)
    &&& arr_len(at(d0, 1), 1)
    &&& is_text(at(at(d0, 1), 0), v)
    &&& is_count(at(j, 1), f as u64)
}

/// An exported track: `{"frames":[...],"trackNo":k}` with the column's
/// keys in frame order, each with the cell value it writes.
pub open spec fn track_json_fits(j: Json, k: int, drawings: Seq<Drawing>, col: Column) -> bool {
    &&& keys_are(j, seq!["frames"@, "trackNo"@])
    &&& is_count(at(j, 1), k as u64)
    &&& at(j, 0) matches Json::Arr(a) && exists|t: Seq<(u32, String)>| #![trigger is_track_of(drawings, col, t)]
        is_track_of(drawings, col, t) && t.len() == a@.len()
        && forall|i: int| 0 <= i < t.len() ==> frame_json_fits(#[trigger] a@[i], t[i].0, t[i].1@)
}

/// An exported time table: `{"duration":..,"fields":[{"fieldId":0,"tracks":[..]}],
/// "name":..,"timeTableHeaders":[{"fieldId":0,"names":[..]}]}`, one track
/// and one name per drawing column in sheet order.
pub open spec fn table_json_fits(t: Json, cut: Cut) -> bool {
    let cols = cut.xsheet.columns@;
    let field = at(at(t, 1), 0);
    let header = at(at(t, 3), 0);
    &&& keys_are(t, seq!["duration"@, "fields"@, "name"@, "timeTableHeaders"@])
    &&& is_count(at(t, 0), cut.frame_count as u64)
    &&& arr_len(at(t, 1), 1)
    &&& keys_are(field, seq!["fieldId"@, "tracks"@])
    &&& is_count(at(field, 0), 0)
    &&& at(field, 1) matches Json::Arr(ts) && ts@.len() == cols.len()
        && forall|k: int| 0 <= k < cols.len() ==> track_json_fits(#[trigger] ts@[k], k, cut.drawings@, cols[k])
    &&& is_text(at(t, 2), cut.name@)
    &&& arr_len(at(t, 3), 1)
    &&& keys_are(header, seq!["fieldId"@, "names"@])
    &&& is_count(at(header, 0), 0)
    &&& at(header, 1) matches Json::Arr(ns) && ns@.len() == cols.len()
        && forall|k: int| 0 <= k < cols.len() ==> is_text(#[trigger] ns@[k], cols[k].name@)
}

/// The document an export writes: `{"header":{"cut":..,"scene":..},
/// "timeTables":[table],"version":5}`, the header numbers taken from the
/// cut's and the scene's names.
pub open spec fn export_doc_fits(d: Json, cut: Cut, scene: Seq<char>) -> bool {
    let header = at(d, 0);
    &&& keys_are(d, seq!["header"@, "timeTables"@, "version"@])
    &&& keys_are(header, seq!["cut"@, "scene"@])
    &&& is_text(at(header, 0), trailing_number_spec(cut.name@))
    &&& is_text(at(header, 1), trailing_number_spec(scene))
    &&& arr_len(at(d, 1), 1)
    &&& table_json_fits(at(at(d, 1), 0), cut)
    &&& is_count(at(d, 2), 5)
}

fn count_json(n: u64) -> (j: Json)
    ensures
        is_count(j, n),
{
    if n <= 0x7fff_ffff_ffff_ffffu64 {
        Json::Num(Some(n), Some(n as i64))
    } else {
        Json::Num(Some(n), None)
    }
}

fn text_json(t: &str) -> (j: Json)
    ensures
        is_text(j, t@),
{
    Json::Str(t.to_string())
}

fn obj2(k0: &str, v0: Json, k1: &str, v1: Json) -> (j: Json)
    ensures
        keys_are(j, seq![k0@, k1@]),
        at(j, 0) == v0,
        at(j, 1) == v1,
{
    let mut m: Vec<(String, Json)> = Vec::new();
    m.push((k0.to_string(), v0));
    m.push((k1.to_string(), v1));
    Json::Obj(m)
}

fn arr1(v: Json) -> (j: Json)
    ensures
        arr_len(j, 1),
        at(j, 0) == v,
{
    let mut a: Vec<Json> = Vec::new();
    a.push(v);
    Json::Arr(a)
}

fn track_json(k: usize, drawings: Ghost<Seq<Drawing>>, col: Ghost<Column>, t: Vec<(u32, String)>) -> (j: Json)
    requires
        is_track_of(drawings@, col@, t@),
    ensures
        track_json_fits(j, k as int, drawings@, col@),
{
    let ghost tv = t@;
    let mut frames: Vec<Json> = Vec::new();
    let mut i: usize = 0;
    while i < t.len()
        invariant
            tv == t@,
            i <= t@.len(),
            frames@.len() == i,
            forall|m: int| 0 <= m < i ==> frame_json_fits(#[trigger] frames@[m], tv[m].0, tv[m].1@),
        decreases t@.len() - i,
    {
        let (f, v) = (t[i].0, t[i].1.as_str());
        let entry = obj2("id", count_json(0), "values", arr1(text_json(v)));
        let fj = obj2("data", arr1(entry), "frame", count_json(f as u64));
        proof {
            reveal_strlit("id");
            reveal_strlit("values");
            reveal_strlit("data");
            reveal_strlit("frame");
        }
        frames.push(fj);
        i = i + 1;
    }
    proof {
        reveal_strlit("frames");
        reveal_strlit("trackNo");
    }
    let j = obj2("frames", Json::Arr(frames), "trackNo", count_json(k as u64));
    assert(is_track_of(drawings@, col@, tv));
    j
}

/// The JSON document of a cut's drawing-column timing.
pub fn export_doc(cut: &Cut, scene_name: &str) -> (d: Json)
    requires
        cut.xsheet.wf(),
    ensures
        export_doc_fits(d, *cut, scene_name@),
{
    let ts = xdts_tracks(cut);
    let mut tracks: Vec<Json> = Vec::new();
    let mut names: Vec<Json> = Vec::new();
    let mut ts = ts;
    let ghost all = ts@;
    let n = cut.xsheet.columns.len();
    let mut k: usize = 0;
    while k < n
        invariant
            n == cut.xsheet.columns@.len(),
            all.len() == n,
            k <= n,
            ts@.len() == n - k,
            forall|m: int| 0 <= m < n - k ==> #[trigger] ts@[m] == all[m + k],
            forall|m: int| 0 <= m < n ==> is_track_of(cut.drawings@, cut.xsheet.columns@[m], #[trigger] all[m]@),
            tracks@.len() == k,
            names@.len() == k,
            forall|m: int| 0 <= m < k ==> track_json_fits(#[trigger] tracks@[m], m, cut.drawings@, cut.xsheet.columns@[m]),
            forall|m: int| 0 <= m < k ==> is_text(#[trigger] names@[m], cut.xsheet.columns@[m].name@),
        decreases n - k,
    {
        let t = ts.remove(0);
        assert(t == all[k as int]);
        let tj = track_json(k, Ghost(cut.drawings@), Ghost(cut.xsheet.columns@[k as int]), t);
        tracks.push(tj);
        names.push(text_json(cut.xsheet.columns[k].name.as_str()));
        k = k + 1;
    }
    let field = obj2("fieldId", count_json(0), "tracks", Json::Arr(tracks));
    let header = obj2("fieldId", count_json(0), "names", Json::Arr(names));
    let mut tm: Vec<(String, Json)> = Vec::new();
    tm.push((String::from_str("duration"), count_json(cut.frame_count as u64)));
    tm.push((String::from_str("fields"), arr1(field)));
    tm.push((String::from_str("name"), text_json(cut.name.as_str())));
    tm.push((String::from_str("timeTableHeaders"), arr1(header)));
    let table = Json::Obj(tm);
    let head = obj2("cut", text_json(trailing_number(cut.name.as_str()).as_str()), "scene",
        text_json(trailing_number(scene_name).as_str()));
    let mut dm: Vec<(String, Json)> = Vec::new();
    dm.push((String::from_str("header"), head));
    dm.push((String::from_str("timeTables"), arr1(table)));
    dm.push((String::from_str("version"), count_json(5)));
    proof {
        reveal_strlit("fieldId");
        reveal_strlit("tracks");
        reveal_strlit("names");
        reveal_strlit("duration");
        reveal_strlit("fields");
        reveal_strlit("name");
        reveal_strlit("timeTableHeaders");
        reveal_strlit("cut");
        reveal_strlit("scene");
        reveal_strlit("header");
        reveal_strlit("timeTables");
        reveal_strlit("version");
    }
    Json::Obj(dm)
}

/// A cut's drawing-column timing as an .xdts file's full text: the
/// signature line, then the document.
pub fn export(cut: &Cut, scene_name: &str) -> (s: String)
    requires
        cut.xsheet.wf(),
    ensures
        exists|d: Json| export_doc_fits(d, *cut, scene_name@)
            && s@ == "exchangeDigitalTimeSheet Save Data\n"@ + json_text_spec(d),
{
    let d = export_doc(cut, scene_name);
    let body = json_text(&d);
    String::from_str("exchangeDigitalTimeSheet Save Data\n").concat(body.as_str())
}

// ---------------------------------------------------------------------------
// Laws of import and export
// ---------------------------------------------------------------------------

proof fn lemma_trailing_count(p: Seq<char>, ds: Seq<char>)
    requires
        p.len() == 0 || !('0' <= p.last() <= '9'),
        forall|i: int| 0 <= i < ds.len() ==> '0' <= #[trigger] ds[i] <= '9',
    ensures
        trailing_digit_count(p + ds) == ds.len(),
    decreases ds.len(),
{
    if ds.len() == 0 {
        assert(p + ds =~= p);
    } else {
        let d2 = ds.drop_last();
        lemma_trailing_count(p, d2);
        assert((p + ds).drop_last() =~= p + d2);
        assert((p + ds).last() == ds[ds.len() - 1]);
    }
}

proof fn lemma_strip_zeros(zs: Seq<char>, t: Seq<char>)
    requires
        forall|i: int| 0 <= i < zs.len() ==> #[trigger] zs[i] == '0',
        t.len() == 0 || t[0] != '0',
    ensures
        strip_leading(zs + t, |c: char| c == '0') == t,
    decreases zs.len(),
{
    if zs.len() == 0 {
        assert(zs + t =~= t);
    } else {
        lemma_strip_zeros(zs.drop_first(), t);
        assert((zs + t).drop_first() =~= zs.drop_first() + t);
        assert((zs + t)[0] == '0');
    }
}

/// The header number of a name reads back as the name's number: when a
/// name ends in `zeros` zeros and then the significant digits `t` (after a
/// non-digit or nothing), its trailing number is `t` itself, or the first
/// four digits of `t` when it is longer.
pub proof fn law_trailing_number_is_the_significant_digits(prefix: Seq<char>, zeros: nat, t: Seq<char>)
    requires
        prefix.len() == 0 || !('0' <= prefix.last() <= '9'),
        t.len() > 0,
        t[0] != '0',
        forall|i: int| 0 <= i < t.len() ==> '0' <= #[trigger] t[i] <= '9',
    ensures
        t.len() <= 4 ==> trailing_number_spec(prefix + Seq::new(zeros, |i: int| '0') + t) == t,
        t.len() > 4 ==> trailing_number_spec(prefix + Seq::new(zeros, |i: int| '0') + t) == t.subrange(0, 4),
{
    let zs = Seq::new(zeros, |i: int| '0');
    let name = prefix + zs + t;
    assert(name =~= prefix + (zs + t));
    lemma_trailing_count(prefix, zs + t);
    assert(name.skip(name.len() - (zs + t).len()) =~= zs + t);
    lemma_strip_zeros(zs, t);
}

/// A name without significant trailing digits: "0" when it ends in zeros,
/// "1" when it ends in no digit at all.
pub proof fn law_trailing_number_without_significant_digits(prefix: Seq<char>, zeros: nat)
    requires
        prefix.len() == 0 || !('0' <= prefix.last() <= '9'),
    ensures
        trailing_number_spec(prefix + Seq::new(zeros, |i: int| '0')) == (if zeros == 0 { "1"@ } else { "0"@ }),
{
    let zs = Seq::new(zeros, |i: int| '0');
    let name = prefix + zs;
    lemma_trailing_count(prefix, zs);
    assert(name.skip(name.len() - zs.len()) =~= zs);
    lemma_strip_zeros(zs, Seq::empty());
    assert(zs + Seq::<char>::empty() =~= zs);
    if zeros == 0 {
        assert(zs =~= Seq::<char>::empty());
    }
}

/// Import keeps cells and drops annotations: no key carries a tick mark,
/// a hyphen or the null cell as a cell number, and every frame item whose
/// value is not a tick mark or a hyphen gives its key (an explicit empty
/// for the null cell).
pub proof fn law_imported_keys_skip_annotations(items: Seq<(u32, String)>)
    ensures
        forall|k: int| 0 <= k < item_keys(items).len() ==> ((#[trigger] item_keys(items)[k]).1 matches Some(v) ==> {
            &&& v@ != "SYMBOL_TICK_1"@
            &&& v@ != "SYMBOL_TICK_2"@
            &&& v@ != "SYMBOL_HYPHEN"@
            &&& v@ != "SYMBOL_NULL_CELL"@
        }),
        forall|i: int| 0 <= i < items.len() && (#[trigger] items[i]).1@ != "SYMBOL_TICK_1"@
            && items[i].1@ != "SYMBOL_TICK_2"@ && items[i].1@ != "SYMBOL_HYPHEN"@
            ==> item_keys(items).contains(
                (items[i].0, if items[i].1@ == "SYMBOL_NULL_CELL"@ { None } else { Some(items[i].1) }),
            ),
    decreases items.len(),
{
    if items.len() > 0 {
        let pre = items.drop_last();
        law_imported_keys_skip_annotations(pre);
        let rest = item_keys(pre);
        let (f, v) = items.last();
        assert forall|k: int| 0 <= k < item_keys(items).len() implies ((#[trigger] item_keys(items)[k]).1 matches Some(w) ==> {
            &&& w@ != "SYMBOL_TICK_1"@
            &&& w@ != "SYMBOL_TICK_2"@
            &&& w@ != "SYMBOL_HYPHEN"@
            &&& w@ != "SYMBOL_NULL_CELL"@
        }) by {
            if k < rest.len() {
                assert(item_keys(items)[k] == rest[k]);
            }
        }
        assert forall|i: int| 0 <= i < items.len() && (#[trigger] items[i]).1@ != "SYMBOL_TICK_1"@
            && items[i].1@ != "SYMBOL_TICK_2"@ && items[i].1@ != "SYMBOL_HYPHEN"@
            implies item_keys(items).contains(
                (items[i].0, if items[i].1@ == "SYMBOL_NULL_CELL"@ { None } else { Some(items[i].1) }),
            ) by {
            let key = (items[i].0, if items[i].1@ == "SYMBOL_NULL_CELL"@ { None } else { Some(items[i].1) });
            if i < pre.len() {
                assert(pre[i] == items[i]);
                let m = choose|m: int| 0 <= m < rest.len() && rest[m] == key;
                assert(item_keys(items)[m] == key);
            } else {
                assert(items[i] == (f, v));
                assert(item_keys(items)[item_keys(items).len() - 1] == key);
            }
        }
    }
}

/// A frame item that is a cell or the null cell, not an annotation.
pub open spec fn keeps_item(it: (u32, String)) -> bool {
    it.1@ != "SYMBOL_TICK_1"@ && it.1@ != "SYMBOL_TICK_2"@ && it.1@ != "SYMBOL_HYPHEN"@
}

/// The key a kept frame item gives: an explicit empty for the null cell,
/// else the cell.
pub open spec fn key_of_item(it: (u32, String)) -> (u32, Option<String>) {
    (it.0, if it.1@ == "SYMBOL_NULL_CELL"@ { None } else { Some(it.1) })
}

/// A track's keys, exactly: its frame items without the tick marks and
/// hyphens, in item order, each as its key.
pub proof fn law_imported_keys_are_the_kept_items(items: Seq<(u32, String)>)
    ensures
        item_keys(items) == items.filter(|it: (u32, String)| keeps_item(it)).map_values(|it: (u32, String)| key_of_item(it)),
    decreases items.len(),
{
    reveal(Seq::filter);
    if items.len() == 0 {
        assert(items.filter(|it: (u32, String)| keeps_item(it)) =~= Seq::<(u32, String)>::empty());
        assert(item_keys(items) =~= items.filter(|it: (u32, String)| keeps_item(it)).map_values(|it: (u32, String)| key_of_item(it)));
    } else {
        let pre = items.drop_last();
        law_imported_keys_are_the_kept_items(pre);
        let fp = pre.filter(|it: (u32, String)| keeps_item(it));
        let x = items.last();
        if keeps_item(x) {
            assert(items.filter(|it: (u32, String)| keeps_item(it)) == fp.push(x));
            assert(fp.push(x).map_values(|it: (u32, String)| key_of_item(it))
                =~= fp.map_values(|it: (u32, String)| key_of_item(it)).push(key_of_item(x)));
            assert(item_keys(items) == item_keys(pre).push(key_of_item(x)));
        } else {
            assert(items.filter(|it: (u32, String)| keeps_item(it)) == fp);
            reveal_strlit("SYMBOL_NULL_CELL");
            reveal_strlit("SYMBOL_TICK_1");
            reveal_strlit("SYMBOL_TICK_2");
            reveal_strlit("SYMBOL_HYPHEN");
            assert("SYMBOL_NULL_CELL"@.len() == 16);
            assert("SYMBOL_TICK_1"@.len() == 13);
            assert("SYMBOL_TICK_2"@.len() == 13);
            assert("SYMBOL_HYPHEN"@.len() == 13);
            assert(x.1@ != "SYMBOL_NULL_CELL"@);
            assert(is_annotation(x.1@));
            assert(item_keys(items) == item_keys(pre));
        }
    }
}

} // verus!
