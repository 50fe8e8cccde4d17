use std::collections::BTreeMap;

use animstudio::ids::DrawingId;
use animstudio::runs::{column_marks, rule_tier, ColumnMarks};
use animstudio::text::truncate_name;
use animstudio::xdts::trailing_number;
use animstudio::xsheet::Exposure;

fn marks_of(keys: &[(u32, Option<u32>)], count: u32) -> ColumnMarks {
    // (frame, Some(raw drawing id)) = Drawing key, None = Empty key.
    let map: BTreeMap<u32, Option<DrawingId>> =
        keys.iter().map(|(f, d)| (*f, d.map(|raw| DrawingId(raw as u64)))).collect();
    column_marks(count, |f| {
        map.get(&f).map(|d| match d {
            Some(id) => Exposure::Drawing(*id),
            None => Exposure::Empty,
        })
    })
}

#[test]
fn holds_become_single_runs_not_islands() {
    let m = marks_of(&[(0, Some(1)), (6, Some(2)), (12, None)], 24);
    assert_eq!(m.runs.len(), 2);
    assert_eq!((m.runs[0].start, m.runs[0].end), (0, 5));
    assert_eq!((m.runs[1].start, m.runs[1].end), (6, 11));
    assert_eq!(m.empties, vec![12]);
}

#[test]
fn a_run_reaches_the_sheet_end_without_a_terminator() {
    let m = marks_of(&[(3, Some(7))], 48);
    assert_eq!(m.runs.len(), 1);
    assert_eq!((m.runs[0].start, m.runs[0].end), (3, 47));
    assert!(m.empties.is_empty());
}

#[test]
fn adjacent_keys_touch_without_overlap() {
    let m = marks_of(&[(0, Some(1)), (1, Some(2))], 4);
    assert_eq!((m.runs[0].start, m.runs[0].end), (0, 0));
    assert_eq!((m.runs[1].start, m.runs[1].end), (1, 3));
}

#[test]
fn rule_tiers_at_24fps() {
    // seconds at 0/24, halves at 12, beats at 6/18.
    assert_eq!(rule_tier(0, 24), Some(2));
    assert_eq!(rule_tier(24, 24), Some(2));
    assert_eq!(rule_tier(12, 24), Some(1));
    assert_eq!(rule_tier(6, 24), Some(0));
    assert_eq!(rule_tier(18, 24), Some(0));
    assert_eq!(rule_tier(7, 24), None);
}

#[test]
fn runs_keep_their_drawings_and_empties_stay_apart() {
    let m = marks_of(&[(2, None), (4, Some(9)), (8, None), (9, None), (10, Some(3))], 12);
    assert_eq!(m.runs.len(), 2);
    assert_eq!((m.runs[0].start, m.runs[0].end, m.runs[0].drawing), (4, 7, DrawingId(9)));
    assert_eq!((m.runs[1].start, m.runs[1].end, m.runs[1].drawing), (10, 11, DrawingId(3)));
    assert_eq!(m.empties, vec![2, 8, 9]);
    let none = marks_of(&[], 0);
    assert!(none.runs.is_empty() && none.empties.is_empty());
}

#[test]
fn rule_tiers_at_small_and_zero_rates() {
    assert_eq!(rule_tier(5, 0), None);
    assert_eq!(rule_tier(3, 1), Some(2));
    assert_eq!(rule_tier(1, 2), Some(1));
    assert_eq!(rule_tier(1, 3), Some(1));
    assert_eq!(rule_tier(2, 5), Some(1));
    assert_eq!(rule_tier(1, 5), Some(0));
}

#[test]
fn long_names_are_cut_with_an_ellipsis() {
    assert_eq!(truncate_name("short"), "short");
    assert_eq!(truncate_name("exactly sixteen!"), "exactly sixteen!");
    assert_eq!(truncate_name("seventeen chars!!"), "seventeen chars…");
    assert_eq!(truncate_name("ＡＢＣＤＥＦＧＨＩＪＫＬＭＮＯＰＱ"), "ＡＢＣＤＥＦＧＨＩＪＫＬＭＮＯ…");
}

#[test]
fn trailing_numbers_for_the_sheet_header() {
    assert_eq!(trailing_number("SC02"), "2");
    assert_eq!(trailing_number("CUT01"), "1");
    assert_eq!(trailing_number("cut"), "1");
    assert_eq!(trailing_number("c000"), "0");
    assert_eq!(trailing_number("x123456"), "1234");
    assert_eq!(trailing_number("12a"), "1");
}
