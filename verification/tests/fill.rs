use animstudio::fill::{dilate, fill_region, flood_region, FillMask, FillRefusal};

fn grid(rows: &[&str]) -> (Vec<bool>, usize, usize) {
    let h = rows.len();
    let w = rows[0].len();
    let bits = rows.iter().flat_map(|r| r.chars().map(|c| c == '#')).collect();
    (bits, w, h)
}

fn show(bits: &[bool], w: usize) -> Vec<String> {
    bits.chunks(w).map(|r| r.iter().map(|b| if *b { '#' } else { '.' }).collect()).collect()
}

#[test]
fn dilation_is_a_square() {
    let (mut bits, w, h) = grid(&[".....", ".....", "..#..", ".....", "....."]);
    dilate(&mut bits, w, h, 1);
    assert_eq!(show(&bits, w), vec![".....", ".###.", ".###.", ".###.", "....."]);
    dilate(&mut bits, w, h, 0);
    assert_eq!(show(&bits, w), vec![".....", ".###.", ".###.", ".###.", "....."]);
    let (mut corner, w, h) = grid(&["#...", "....", "...."]);
    dilate(&mut corner, w, h, 2);
    assert_eq!(show(&corner, w), vec!["###.", "###.", "###."]);
    let (mut big, w, h) = grid(&["...", ".#.", "..."]);
    dilate(&mut big, w, h, 1000);
    assert_eq!(show(&big, w), vec!["###", "###", "###"]);
}

#[test]
fn the_flood_stays_inside_its_walls() {
    let (walls, w, h) = grid(&["..#..", "..#..", "###..", "....."]);
    let region = flood_region(&walls, w, h, 0, 0);
    assert_eq!(show(&region, w), vec!["##...", "##...", ".....", "....."]);
    let region = flood_region(&walls, w, h, 4, 0);
    assert_eq!(show(&region, w), vec!["...##", "...##", "...##", "#####"]);
}

#[test]
fn fill_masks_read_back() {
    let m = FillMask { w: 3, h: 2, bits: vec![true, false, false, false, true, true] };
    assert!(m.get(0, 0));
    assert!(!m.get(1, 0));
    assert!(m.get(2, 1));
    assert!(!m.get(-1, 0));
    assert!(!m.get(3, 0));
    assert!(!m.get(0, 2));
    assert_eq!(m.count(), 3);
}

#[test]
fn fills_refuse_with_their_cause() {
    let (ink, w, h) = grid(&["..#..", "..#..", "..#..", "..#.."]);
    let (w32, h32) = (w as u32, h as u32);
    assert!(matches!(fill_region(&ink, &None, w32, h32, (-1, 0), 0, 0, false), Err(FillRefusal::OffPaper)));
    assert!(matches!(fill_region(&ink, &None, w32, h32, (5, 0), 0, 0, false), Err(FillRefusal::OffPaper)));
    assert!(matches!(fill_region(&[].to_vec(), &None, 0, 0, (0, 0), 0, 0, false), Err(FillRefusal::OffPaper)));
    assert!(matches!(fill_region(&ink, &None, w32, h32, (2, 1), 0, 0, false), Err(FillRefusal::OnInk)));
    // The gap-closing band counts as ink.
    assert!(matches!(fill_region(&ink, &None, w32, h32, (1, 1), 2, 0, false), Err(FillRefusal::OnInk)));
    let (sel, _, _) = grid(&["##...", "##...", "##...", "##..."]);
    assert!(matches!(
        fill_region(&ink, &Some(sel.clone()), w32, h32, (4, 0), 0, 0, false),
        Err(FillRefusal::OutsideSelection)
    ));
    let (tiny, _, _) = grid(&["#....", ".....", ".....", "....."]);
    // A one-pixel selection walls the flood in to that pixel.
    let ok = fill_region(&ink, &Some(tiny), w32, h32, (0, 0), 0, 0, false).unwrap();
    assert_eq!(show(&ok.bits, w), vec!["#....", ".....", ".....", "....."]);
}

#[test]
fn fills_grow_under_the_lines() {
    let (ink, w, h) = grid(&["..#..", "..#..", "..#..", "..#.."]);
    let (w32, h32) = (w as u32, h as u32);
    let exact = fill_region(&ink, &None, w32, h32, (0, 0), 0, 0, false).unwrap();
    assert_eq!((exact.w, exact.h), (5, 4));
    assert_eq!(show(&exact.bits, w), vec!["##...", "##...", "##...", "##..."]);
    let grown = fill_region(&ink, &None, w32, h32, (0, 0), 0, 1, false).unwrap();
    assert_eq!(show(&grown.bits, w), vec!["###..", "###..", "###..", "###.."]);
    let protected = fill_region(&ink, &None, w32, h32, (0, 0), 0, 1, true).unwrap();
    assert_eq!(show(&protected.bits, w), vec!["##...", "##...", "##...", "##..."]);
    assert_eq!(protected.count(), 8);
}

#[test]
fn gaps_close_before_the_flood() {
    let (ink, w, h) = grid(&["..#....", "..#....", ".......", "..#....", "..#...."]);
    let (w32, h32) = (w as u32, h as u32);
    let leaky = fill_region(&ink, &None, w32, h32, (0, 0), 0, 0, false).unwrap();
    assert_eq!(leaky.count(), 31);
    // A 1-pixel gap closes with gap 2 (radius 1); the flood then grows back.
    let sealed = fill_region(&ink, &None, w32, h32, (0, 0), 2, 0, false).unwrap();
    assert_eq!(
        show(&sealed.bits, w),
        vec!["##.....", "##.....", "##.....", "##.....", "##....."]
    );
}

#[test]
fn the_seed_is_always_filled() {
    let (ink, w, h) = grid(&["#..", "...", "..."]);
    let (sel, _, _) = grid(&["...", ".#.", "..."]);
    for protect in [false, true] {
        let m = fill_region(&ink, &Some(sel.clone()), w as u32, h as u32, (1, 1), 0, 3, protect).unwrap();
        assert!(m.get(1, 1));
        assert_eq!(m.count(), 1);
    }
}
