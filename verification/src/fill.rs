//! Flood fill, headless: the fill region is the connected open area
//! around the seed, bounded by ink. Line-art gaps close by fattening the
//! ink before the flood, and the region grows back out (plus a little
//! more, to tuck flats under anti-aliased line edges) after it. Masks are
//! row-major `w * h` grids; reading ink out of tile texels and testing
//! selection polygons (floating point) happen before these functions.

use vstd::prelude::*;

verus! {

/// The cell at column `x`, row `y` of a row-major grid `w` wide.
pub open spec fn cell(s: Seq<bool>, w: int, x: int, y: int) -> bool {
    s[y * w + x]
}

/// Row-major index arithmetic stays inside a `w * h` grid.
proof fn lemma_index_in_grid(w: int, h: int, x: int, y: int)
    requires
        0 <= x < w,
        0 <= y < h,
    ensures
        0 <= y * w,
        y * w <= y * w + x,
        0 <= y * w + x < w * h,
        y * w + x + 1 <= w * h,
        h * w == w * h,
        y * w + x < h * w,
        y * w + w <= w * h,
{
    assert(h * w == w * h) by (nonlinear_arith);
    assert(y * w + w <= w * h) by (nonlinear_arith)
        requires
            0 <= y < h,
            0 <= w;
    assert(0 <= y * w) by (nonlinear_arith)
        requires
            0 <= y,
            0 <= w;
    assert(y * w + x < w * h) by (nonlinear_arith)
        requires
            0 <= x < w,
            0 <= y < h;
}

/// A filled region as a full-canvas bitmask (row-major, w x h).
#[derive(Debug)]
pub struct FillMask {
    pub w: u32,
    pub h: u32,
    pub bits: Vec<bool>,
}

/// How many cells of `s` are set.
pub open spec fn count_set(s: Seq<bool>) -> nat
    decreases s.len(),
{
    if s.len() == 0 {
        0
    } else {
        count_set(s.drop_last()) + if s.last() { 1nat } else { 0nat }
    }
}

proof fn lemma_count_set_le(s: Seq<bool>)
    ensures
        count_set(s) <= s.len(),
    decreases s.len(),
{
    if s.len() > 0 {
        lemma_count_set_le(s.drop_last());
    }
}

impl FillMask {
    pub open spec fn wf(&self) -> bool {
        self.bits@.len() == self.w as int * self.h as int
    }

    /// Whether the pixel at (x, y) is filled; off-canvas pixels are not.
    pub fn get(&self, x: i32, y: i32) -> (b: bool)
        requires
            self.wf(),
        ensures
            b == (0 <= x < self.w && 0 <= y < self.h && cell(self.bits@, self.w as int, x as int, y as int)),
    {
        let n = self.bits.len();
        if x >= 0 && y >= 0 && (x as u32) < self.w && (y as u32) < self.h {
            proof {
                lemma_index_in_grid(self.w as int, self.h as int, x as int, y as int);
            }
            self.bits[(y as usize) * (self.w as usize) + (x as usize)]
        } else {
            false
        }
    }

    /// How many pixels are filled.
    pub fn count(&self) -> (n: usize)
        ensures
            n == count_set(self.bits@),
    {
        let mut n: usize = 0;
        let mut i: usize = 0;
        while i < self.bits.len()
            invariant
                i <= self.bits@.len(),
                n == count_set(self.bits@.take(i as int)),
                n <= i,
            decreases self.bits@.len() - i,
        {
            proof {
                assert(self.bits@.take(i + 1).drop_last() =~= self.bits@.take(i as int));
            }
            if self.bits[i] {
                n = n + 1;
            }
            i = i + 1;
        }
        proof {
            assert(self.bits@.take(i as int) =~= self.bits@);
        }
        n
    }
}

/// Why a fill produced no region — callers word their refusals from the
/// actual cause.
#[derive(Clone, Copy, Debug, PartialEq, Eq)]
pub enum FillRefusal {
    /// Seed outside the canvas.
    OffPaper,
    /// Seed on (gap-closed) ink — fills flow into empty regions.
    OnInk,
    /// Seed outside the active selection.
    OutsideSelection,
    /// The selection excluded every filled pixel.
    ClippedOut,
}

// ---------------------------------------------------------------------------
// Dilation
// ---------------------------------------------------------------------------

/// Some cell of row `y` within `r` columns of `x` is set.
pub open spec fn row_hit(s: Seq<bool>, w: int, x: int, y: int, r: int) -> bool {
    exists|x2: int| 0 <= x2 < w && x - r <= x2 <= x + r && #[trigger] cell(s, w, x2, y)
}

/// Some cell of column `x` within `r` rows of `y` is set.
pub open spec fn col_hit(s: Seq<bool>, w: int, h: int, x: int, y: int, r: int) -> bool {
    exists|y2: int| 0 <= y2 < h && y - r <= y2 <= y + r && #[trigger] cell(s, w, x, y2)
}

/// Square (Chebyshev) dilation: some cell within `r` in both directions
/// is set.
pub open spec fn square_hit(s: Seq<bool>, w: int, h: int, x: int, y: int, r: int) -> bool {
    exists|x2: int, y2: int|
        0 <= x2 < w && 0 <= y2 < h && x - r <= x2 <= x + r && y - r <= y2 <= y + r
            && #[trigger] cell(s, w, x2, y2)
}

/// `last` is the last set column of row `y` below `n`.
pub open spec fn row_last(s: Seq<bool>, w: int, y: int, n: int, last: Option<usize>) -> bool {
    match last {
        Some(p) => p < n && cell(s, w, p as int, y) && forall|i: int| p < i < n ==> !#[trigger] cell(s, w, i, y),
        None => forall|i: int| 0 <= i < n ==> !#[trigger] cell(s, w, i, y),
    }
}

/// `last` is the last set row of column `x` below `n`.
pub open spec fn col_last(s: Seq<bool>, w: int, x: int, n: int, last: Option<usize>) -> bool {
    match last {
        Some(p) => p < n && cell(s, w, x, p as int) && forall|i: int| p < i < n ==> !#[trigger] cell(s, w, x, i),
        None => forall|i: int| 0 <= i < n ==> !#[trigger] cell(s, w, x, i),
    }
}

/// Set-or-not, read off the last set position at or before `c + r`.
fn hit_from_last(last: Option<usize>, c: usize, r: usize) -> (b: bool)
    ensures
        b == (match last {
            Some(p) => p + r >= c,
            None => false,
        }),
{
    match last {
        Some(p) => p >= c || c - p <= r,
        None => false,
    }
}

/// The row pass: each cell becomes "some cell of its row within `r`".
fn dilate_rows(src: &Vec<bool>, w: usize, h: usize, r: usize) -> (tmp: Vec<bool>)
    requires
        src@.len() == w * h,
    ensures
        tmp@.len() == w * h,
        forall|x: int, y: int| 0 <= x < w && 0 <= y < h
            ==> #[trigger] cell(tmp@, w as int, x, y) == row_hit(src@, w as int, x, y, r as int),
{
    let total = src.len();
    assert(w * h <= usize::MAX);
    let mut tmp: Vec<bool> = Vec::new();
    let mut y: usize = 0;
    while y < h
        invariant
            src@.len() == w * h,
            w * h <= usize::MAX,
            y <= h,
            tmp@.len() == y * w,
            forall|x: int, yy: int| 0 <= x < w && 0 <= yy < y
                ==> #[trigger] cell(tmp@, w as int, x, yy) == row_hit(src@, w as int, x, yy, r as int),
        decreases h - y,
    {
        proof {
            assert((y + 1) * w == y * w + w) by (nonlinear_arith);
            assert(y * w + w <= w * h) by (nonlinear_arith)
                requires
                    y < h;
            assert(0 <= y * w) by (nonlinear_arith);
        }
        let base = y * w;
        // The last set column below min(w, r).
        let mut last: Option<usize> = None;
        let mut j: usize = 0;
        while j < w && j < r
            invariant
                src@.len() == w * h,
                w * h <= usize::MAX,
                y < h,
                base == y * w,
                base + w <= w * h,
                j <= w,
                j <= r,
                row_last(src@, w as int, y as int, j as int, last),
            decreases w - j,
        {
            proof {
                assert(src@[base + j] == cell(src@, w as int, j as int, y as int));
            }
            if src[base + j] {
                last = Some(j);
            }
            j = j + 1;
        }
        let ghost row_start = tmp@;
        let mut x: usize = 0;
        while x < w
            invariant
                src@.len() == w * h,
                w * h <= usize::MAX,
                y < h,
                base == y * w,
                base + w <= w * h,
                x <= w,
                row_start.len() == y * w,
                tmp@.len() == y * w + x,
                forall|k: int| 0 <= k < y * w ==> tmp@[k] == row_start[k],
                forall|xx: int, yy: int| 0 <= xx < w && 0 <= yy < y
                    ==> #[trigger] cell(row_start, w as int, xx, yy) == row_hit(src@, w as int, xx, yy, r as int),
                forall|xx: int| 0 <= xx < x
                    ==> #[trigger] cell(tmp@, w as int, xx, y as int) == row_hit(src@, w as int, xx, y as int, r as int),
                row_last(src@, w as int, y as int, if x + r < w { (x + r) as int } else { w as int }, last),
            decreases w - x,
        {
            // Take in column x + r.
            if r < w - x {
                let c = x + r;
                proof {
                    assert(src@[base + c] == cell(src@, w as int, c as int, y as int));
                }
                if src[base + c] {
                    last = Some(c);
                }
            }
            let ghost n: int = if x + r + 1 < w { (x + r + 1) as int } else { w as int };
            assert(row_last(src@, w as int, y as int, n, last));
            let hit = hit_from_last(last, x, r);
            proof {
                if hit {
                    let p = last.unwrap();
                    assert(cell(src@, w as int, p as int, y as int));
                } else {
                    assert forall|x2: int| 0 <= x2 < w && x - r <= x2 <= x + r
                        implies !#[trigger] cell(src@, w as int, x2, y as int) by {
                        match last {
                            Some(p) => {
                                if x2 > p {
                                } else {
                                    assert(false);
                                }
                            },
                            None => {},
                        }
                    }
                }
                assert(hit == row_hit(src@, w as int, x as int, y as int, r as int));
            }
            let ghost before = tmp@;
            tmp.push(hit);
            proof {
                assert(tmp@[y * w + x] == hit);
                assert forall|xx: int| 0 <= xx < x + 1
                    implies #[trigger] cell(tmp@, w as int, xx, y as int) == row_hit(src@, w as int, xx, y as int, r as int) by {
                    if xx < x {
                        assert(cell(tmp@, w as int, xx, y as int) == cell(before, w as int, xx, y as int));
                    }
                }
            }
            x = x + 1;
        }
        proof {
            assert forall|xx: int, yy: int| 0 <= xx < w && 0 <= yy < y + 1
                implies #[trigger] cell(tmp@, w as int, xx, yy) == row_hit(src@, w as int, xx, yy, r as int) by {
                if yy < y {
                    lemma_index_in_grid(w as int, y as int, xx, yy);
                    assert(tmp@[yy * w + xx] == row_start[yy * w + xx]);
                    assert(cell(row_start, w as int, xx, yy) == row_hit(src@, w as int, xx, yy, r as int));
                }
            }
        }
        y = y + 1;
    }
    assert(tmp@.len() == w * h) by (nonlinear_arith)
        requires
            tmp@.len() == y * w,
            y == h;
    tmp
}

/// Square (Chebyshev) dilation by radius `r`, in place: a cell ends up set
/// when any cell within `r` columns and `r` rows of it was set. Two
/// passes (rows, then columns), linear in the grid whatever `r` is.
pub fn dilate(bits: &mut Vec<bool>, w: usize, h: usize, r: usize)
    requires
        old(bits)@.len() == w * h,
    ensures
        final(bits)@.len() == w * h,
        forall|x: int, y: int| 0 <= x < w && 0 <= y < h
            ==> #[trigger] cell(final(bits)@, w as int, x, y) == square_hit(old(bits)@, w as int, h as int, x, y, r as int),
{
    if r == 0 {
        proof {
            assert forall|x: int, y: int| 0 <= x < w && 0 <= y < h
                implies #[trigger] cell(bits@, w as int, x, y) == square_hit(bits@, w as int, h as int, x, y, 0) by {
                if cell(bits@, w as int, x, y) {
                    assert(cell(bits@, w as int, x, y));
                }
            }
        }
        return;
    }
    let ghost src = bits@;
    let total = bits.len();
    assert(w * h <= usize::MAX);
    let tmp = dilate_rows(bits, w, h, r);
    // Column pass, row by row: lasts[x] is the last set row of column x
    // (in the row pass's output) below min(h, y + r).
    let mut lasts: Vec<Option<usize>> = Vec::new();
    let mut x0: usize = 0;
    while x0 < w
        invariant
            x0 <= w,
            lasts@.len() == x0,
            forall|k: int| 0 <= k < x0 ==> lasts@[k] is None,
        decreases w - x0,
    {
        lasts.push(None);
        x0 = x0 + 1;
    }
    // Take in rows 0 .. min(h, r).
    let mut yy: usize = 0;
    while yy < h && yy < r
        invariant
            tmp@.len() == w * h,
            w * h <= usize::MAX,
            yy <= h,
            yy <= r,
            lasts@.len() == w,
            forall|x: int| 0 <= x < w ==> col_last(tmp@, w as int, x, yy as int, #[trigger] lasts@[x]),
        decreases h - yy,
    {
        let ghost before = lasts@;
        let mut x: usize = 0;
        while x < w
            invariant
                tmp@.len() == w * h,
                w * h <= usize::MAX,
                yy < h,
                x <= w,
                lasts@.len() == w,
                forall|k: int| 0 <= k < x ==> col_last(tmp@, w as int, k, yy + 1, #[trigger] lasts@[k]),
                forall|k: int| x <= k < w ==> lasts@[k] == before[k],
                forall|k: int| 0 <= k < w ==> col_last(tmp@, w as int, k, yy as int, #[trigger] before[k]),
            decreases w - x,
        {
            proof {
                lemma_index_in_grid(w as int, h as int, x as int, yy as int);
                assert(tmp@[yy * w + x] == cell(tmp@, w as int, x as int, yy as int));
                assert(col_last(tmp@, w as int, x as int, yy as int, before[x as int]));
            }
            if tmp[yy * w + x] {
                lasts.set(x, Some(yy));
            }
            x = x + 1;
        }
        yy = yy + 1;
    }
    let mut out: Vec<bool> = Vec::new();
    let mut y: usize = 0;
    while y < h
        invariant
            tmp@.len() == w * h,
            w * h <= usize::MAX,
            y <= h,
            lasts@.len() == w,
            out@.len() == y * w,
            forall|x: int| 0 <= x < w ==> col_last(tmp@, w as int, x,
                if y + r < h { (y + r) as int } else { h as int }, #[trigger] lasts@[x]),
            forall|x: int, yv: int| 0 <= x < w && 0 <= yv < y
                ==> #[trigger] cell(out@, w as int, x, yv) == col_hit(tmp@, w as int, h as int, x, yv, r as int),
        decreases h - y,
    {
        // Take in row y + r.
        if r < h - y {
            let yr = y + r;
            let ghost before = lasts@;
            let mut x: usize = 0;
            while x < w
                invariant
                    tmp@.len() == w * h,
                    w * h <= usize::MAX,
                    yr < h,
                    yr == y + r,
                    x <= w,
                    lasts@.len() == w,
                    forall|k: int| 0 <= k < x ==> col_last(tmp@, w as int, k, yr + 1, #[trigger] lasts@[k]),
                    forall|k: int| x <= k < w ==> lasts@[k] == before[k],
                    forall|k: int| 0 <= k < w ==> col_last(tmp@, w as int, k, yr as int, #[trigger] before[k]),
                decreases w - x,
            {
                proof {
                    lemma_index_in_grid(w as int, h as int, x as int, yr as int);
                    assert(tmp@[yr * w + x] == cell(tmp@, w as int, x as int, yr as int));
                    assert(col_last(tmp@, w as int, x as int, yr as int, before[x as int]));
                }
                if tmp[yr * w + x] {
                    lasts.set(x, Some(yr));
                }
                x = x + 1;
            }
        }
        let ghost n: int = if y + r + 1 < h { (y + r + 1) as int } else { h as int };
        assert(forall|x: int| 0 <= x < w ==> col_last(tmp@, w as int, x, n, #[trigger] lasts@[x]));
        let ghost row_start = out@;
        let mut x: usize = 0;
        while x < w
            invariant
                tmp@.len() == w * h,
                w * h <= usize::MAX,
                y < h,
                x <= w,
                lasts@.len() == w,
                n == (if y + r + 1 < h { (y + r + 1) as int } else { h as int }),
                forall|k: int| 0 <= k < w ==> col_last(tmp@, w as int, k, n, #[trigger] lasts@[k]),
                row_start.len() == y * w,
                out@.len() == y * w + x,
                forall|k: int| 0 <= k < y * w ==> out@[k] == row_start[k],
                forall|k: int| 0 <= k < x
                    ==> #[trigger] cell(out@, w as int, k, y as int) == col_hit(tmp@, w as int, h as int, k, y as int, r as int),
            decreases w - x,
        {
            let last = lasts[x];
            let hit = hit_from_last(last, y, r);
            proof {
                assert(col_last(tmp@, w as int, x as int, n, last));
                if hit {
                    let p = last.unwrap();
                    assert(cell(tmp@, w as int, x as int, p as int));
                } else {
                    assert forall|y2: int| 0 <= y2 < h && y - r <= y2 <= y + r
                        implies !#[trigger] cell(tmp@, w as int, x as int, y2) by {
                        match last {
                            Some(p) => {
                                if y2 > p {
                                } else {
                                    assert(false);
                                }
                            },
                            None => {},
                        }
                    }
                }
                assert(hit == col_hit(tmp@, w as int, h as int, x as int, y as int, r as int));
                assert((y * w + x) as int == y * w + x);
            }
            let ghost before = out@;
            out.push(hit);
            proof {
                assert(out@[y * w + x] == hit);
                assert forall|k: int| 0 <= k < x + 1
                    implies #[trigger] cell(out@, w as int, k, y as int) == col_hit(tmp@, w as int, h as int, k, y as int, r as int) by {
                    if k < x {
                        assert(cell(out@, w as int, k, y as int) == cell(before, w as int, k, y as int));
                    }
                }
            }
            x = x + 1;
        }
        proof {
            assert((y + 1) * w == y * w + w) by (nonlinear_arith);
            assert forall|xx: int, yv: int| 0 <= xx < w && 0 <= yv < y + 1
                implies #[trigger] cell(out@, w as int, xx, yv) == col_hit(tmp@, w as int, h as int, xx, yv, r as int) by {
                if yv < y {
                    lemma_index_in_grid(w as int, y as int, xx, yv);
                    assert(out@[yv * w + xx] == row_start[yv * w + xx]);
                    assert(cell(row_start, w as int, xx, yv) == col_hit(tmp@, w as int, h as int, xx, yv, r as int));
                }
            }
        }
        y = y + 1;
    }
    proof {
        assert(out@.len() == w * h) by (nonlinear_arith)
            requires
                out@.len() == y * w,
                y == h;
        assert forall|x: int, y: int| 0 <= x < w && 0 <= y < h
            implies #[trigger] cell(out@, w as int, x, y) == square_hit(src, w as int, h as int, x, y, r as int) by {
            if cell(out@, w as int, x, y) {
                let y2 = choose|y2: int| 0 <= y2 < h && y - r <= y2 <= y + r && #[trigger] cell(tmp@, w as int, x, y2);
                assert(row_hit(src, w as int, x, y2, r as int));
                let x2 = choose|x2: int| 0 <= x2 < w && x - r <= x2 <= x + r && #[trigger] cell(src, w as int, x2, y2);
                assert(cell(src, w as int, x2, y2));
            }
            if square_hit(src, w as int, h as int, x, y, r as int) {
                let (x2, y2) = choose|x2: int, y2: int|
                    0 <= x2 < w && 0 <= y2 < h && x - r <= x2 <= x + r && y - r <= y2 <= y + r
                        && #[trigger] cell(src, w as int, x2, y2);
                assert(row_hit(src, w as int, x, y2, r as int));
                assert(cell(tmp@, w as int, x, y2));
            }
        }
    }
    *bits = out;
}

// ---------------------------------------------------------------------------
// The flood
// ---------------------------------------------------------------------------

/// Cell (x, y) is on the canvas and not a wall.
pub open spec fn open_cell(c: Seq<bool>, w: int, h: int, x: int, y: int) -> bool {
    0 <= x < w && 0 <= y < h && !cell(c, w, x, y)
}

/// 4-neighbours.
pub open spec fn adjacent(a: (int, int), b: (int, int)) -> bool {
    ||| a.0 == b.0 && (a.1 == b.1 + 1 || b.1 == a.1 + 1)
    ||| a.1 == b.1 && (a.0 == b.0 + 1 || b.0 == a.0 + 1)
}

/// Step `i` of a path moves to a 4-neighbour.
pub open spec fn step_ok(p: Seq<(int, int)>, i: int) -> bool {
    adjacent(p[i], p[i + 1])
}

/// A walk through open cells, one 4-neighbour at a time.
pub open spec fn is_path(c: Seq<bool>, w: int, h: int, p: Seq<(int, int)>) -> bool {
    &&& p.len() >= 1
    &&& forall|i: int| 0 <= i < p.len() ==> open_cell(c, w, h, (#[trigger] p[i]).0, p[i].1)
    &&& forall|i: int| 0 <= i < p.len() - 1 ==> #[trigger] step_ok(p, i)
}

/// (x, y) can be reached from the seed through open cells.
pub open spec fn reachable(c: Seq<bool>, w: int, h: int, sx: int, sy: int, x: int, y: int) -> bool {
    exists|p: Seq<(int, int)>| #[trigger] is_path(c, w, h, p) && p[0] == (sx, sy) && p.last() == (x, y)
}

/// The stack holds (x, y).
pub open spec fn in_stack(st: Seq<(usize, usize)>, x: int, y: int) -> bool {
    exists|j: int| 0 <= j < st.len() && (#[trigger] st[j]).0 == x && st[j].1 == y
}

proof fn lemma_count_set_update(s: Seq<bool>, k: int)
    requires
        0 <= k < s.len(),
        !s[k],
    ensures
        count_set(s.update(k, true)) == count_set(s) + 1,
    decreases s.len(),
{
    let t = s.update(k, true);
    if k == s.len() - 1 {
        assert(t.drop_last() =~= s.drop_last());
    } else {
        assert(t.drop_last() =~= s.drop_last().update(k, true));
        lemma_count_set_update(s.drop_last(), k);
    }
}

/// Extending a path from the seed by one open neighbour.
proof fn lemma_extend_path(c: Seq<bool>, w: int, h: int, sx: int, sy: int, x: int, y: int, x2: int, y2: int)
    requires
        reachable(c, w, h, sx, sy, x, y),
        open_cell(c, w, h, x2, y2),
        adjacent((x, y), (x2, y2)),
    ensures
        reachable(c, w, h, sx, sy, x2, y2),
{
    let p = choose|p: Seq<(int, int)>| #[trigger] is_path(c, w, h, p) && p[0] == (sx, sy) && p.last() == (x, y);
    let q = p.push((x2, y2));
    assert forall|i: int| 0 <= i < q.len() implies open_cell(c, w, h, (#[trigger] q[i]).0, q[i].1) by {
        if i < p.len() {
            assert(q[i] == p[i]);
        }
    }
    assert forall|i: int| 0 <= i < q.len() - 1 implies #[trigger] step_ok(q, i) by {
        if i < p.len() - 1 {
            assert(step_ok(p, i));
            assert(q[i] == p[i] && q[i + 1] == p[i + 1]);
        } else {
            assert(q[i] == (x, y));
        }
    }
    assert(is_path(c, w, h, q));
    assert(q[0] == (sx, sy));
}

/// A set closed under open adjacency that holds the seed holds every
/// cell reachable from it.
proof fn lemma_closed_set_holds_path(
    c: Seq<bool>, bits: Seq<bool>, w: int, h: int, p: Seq<(int, int)>, k: int,
)
    requires
        is_path(c, w, h, p),
        0 <= k < p.len(),
        cell(bits, w, p[0].0, p[0].1),
        forall|x: int, y: int, x2: int, y2: int|
            0 <= x < w && 0 <= y < h && cell(bits, w, x, y) && #[trigger] adjacent((x, y), (x2, y2))
                && open_cell(c, w, h, x2, y2)
                ==> cell(bits, w, x2, y2),
    ensures
        cell(bits, w, p[k].0, p[k].1),
    decreases k,
{
    if k > 0 {
        lemma_closed_set_holds_path(c, bits, w, h, p, k - 1);
        assert(step_ok(p, k - 1));
        assert(open_cell(c, w, h, p[k - 1].0, p[k - 1].1));
        assert(open_cell(c, w, h, p[k].0, p[k].1));
        assert(adjacent((p[k - 1].0, p[k - 1].1), (p[k].0, p[k].1)));
    }
}

/// Everything pushed since `from` is an open, on-canvas neighbour of (x, y).
pub open spec fn pushed_ok(st: Seq<(usize, usize)>, from: int, c: Seq<bool>, w: int, h: int, x: int, y: int) -> bool {
    forall|j: int| from <= j < st.len() ==> {
        let e = #[trigger] st[j];
        &&& e.0 < w && e.1 < h
        &&& open_cell(c, w, h, e.0 as int, e.1 as int)
        &&& adjacent((x, y), (e.0 as int, e.1 as int))
    }
}

/// Push (x, y) when it is open and not yet filled.
fn consider(closed: &Vec<bool>, bits: &Vec<bool>, stack: &mut Vec<(usize, usize)>, w: usize, h: usize, x: usize, y: usize)
    requires
        closed@.len() == w * h,
        bits@.len() == w * h,
        x < w,
        y < h,
    ensures
        (open_cell(closed@, w as int, h as int, x as int, y as int) && !cell(bits@, w as int, x as int, y as int))
            ==> final(stack)@ == old(stack)@.push((x, y)),
        !(open_cell(closed@, w as int, h as int, x as int, y as int) && !cell(bits@, w as int, x as int, y as int))
            ==> final(stack)@ == old(stack)@,
{
    let n = closed.len();
    proof {
        lemma_index_in_grid(w as int, h as int, x as int, y as int);
    }
    let k = y * w + x;
    if !closed[k] && !bits[k] {
        stack.push((x, y));
    }
}

/// One neighbour considered: what was on the stack stays, and the
/// neighbour is there if it qualified.
proof fn lemma_consider_step(
    c: Seq<bool>, bits: Seq<bool>, prev: Seq<(usize, usize)>, cur: Seq<(usize, usize)>,
    w: int, h: int, x: int, y: int, nx: int, ny: int, from: int,
)
    requires
        0 <= from <= prev.len(),
        pushed_ok(prev, from, c, w, h, x, y),
        w <= usize::MAX,
        h <= usize::MAX,
        0 <= nx < w,
        0 <= ny < h,
        adjacent((x, y), (nx, ny)),
        (open_cell(c, w, h, nx, ny) && !cell(bits, w, nx, ny)) ==> cur == prev.push((nx as usize, ny as usize)),
        !(open_cell(c, w, h, nx, ny) && !cell(bits, w, nx, ny)) ==> cur == prev,
    ensures
        pushed_ok(cur, from, c, w, h, x, y),
        prev.len() <= cur.len(),
        forall|j: int| 0 <= j < prev.len() ==> cur[j] == prev[j],
        (open_cell(c, w, h, nx, ny) && !cell(bits, w, nx, ny)) ==> in_stack(cur, nx, ny),
        forall|a: int, b: int| in_stack(prev, a, b) ==> #[trigger] in_stack(cur, a, b),
{
    if open_cell(c, w, h, nx, ny) && !cell(bits, w, nx, ny) {
        assert(cur[prev.len() as int] == (nx as usize, ny as usize));
        assert((nx as usize) as int == nx && (ny as usize) as int == ny);
        assert(in_stack(cur, nx, ny));
        assert forall|a: int, b: int| in_stack(prev, a, b) implies #[trigger] in_stack(cur, a, b) by {
            let j = choose|j: int| 0 <= j < prev.len() && (#[trigger] prev[j]).0 == a && prev[j].1 == b;
            assert(cur[j] == prev[j]);
        }
    }
}

/// The open cells reachable from the seed (4-connected), as a mask.
pub fn flood_region(closed: &Vec<bool>, w: usize, h: usize, sx: usize, sy: usize) -> (bits: Vec<bool>)
    requires
        closed@.len() == w * h,
        sx < w,
        sy < h,
        !cell(closed@, w as int, sx as int, sy as int),
    ensures
        bits@.len() == w * h,
        forall|x: int, y: int| 0 <= x < w && 0 <= y < h
            ==> #[trigger] cell(bits@, w as int, x, y) == reachable(closed@, w as int, h as int, sx as int, sy as int, x, y),
{
    let total = closed.len();
    let mut bits: Vec<bool> = Vec::new();
    let mut i: usize = 0;
    while i < total
        invariant
            total == closed@.len(),
            i <= total,
            bits@.len() == i,
            forall|k: int| 0 <= k < i ==> !bits@[k],
        decreases total - i,
    {
        bits.push(false);
        i = i + 1;
    }
    proof {
        lemma_count_set_zero(bits@);
        // The seed walks to itself.
        let p = seq![(sx as int, sy as int)];
        assert(is_path(closed@, w as int, h as int, p));
        assert(reachable(closed@, w as int, h as int, sx as int, sy as int, sx as int, sy as int));
        assert forall|x: int, y: int| 0 <= x < w && 0 <= y < h implies !#[trigger] cell(bits@, w as int, x, y) by {
            lemma_index_in_grid(w as int, h as int, x, y);
        }
    }
    let ghost c = closed@;
    let ghost wi = w as int;
    let ghost hi = h as int;
    let mut stack: Vec<(usize, usize)> = Vec::new();
    stack.push((sx, sy));
    assert(stack@[0] == (sx, sy));
    while stack.len() > 0
        invariant
            c == closed@,
            wi == w,
            hi == h,
            closed@.len() == w * h,
            bits@.len() == w * h,
            w * h <= usize::MAX,
            count_set(bits@) <= w * h,
            forall|j: int| 0 <= j < stack@.len() ==> {
                let e = #[trigger] stack@[j];
                &&& e.0 < w && e.1 < h
                &&& open_cell(c, wi, hi, e.0 as int, e.1 as int)
                &&& reachable(c, wi, hi, sx as int, sy as int, e.0 as int, e.1 as int)
            },
            forall|x: int, y: int| 0 <= x < w && 0 <= y < h && #[trigger] cell(bits@, wi, x, y)
                ==> open_cell(c, wi, hi, x, y) && reachable(c, wi, hi, sx as int, sy as int, x, y),
            cell(bits@, wi, sx as int, sy as int) || in_stack(stack@, sx as int, sy as int),
            forall|x: int, y: int, x2: int, y2: int|
                0 <= x < w && 0 <= y < h && cell(bits@, wi, x, y) && #[trigger] adjacent((x, y), (x2, y2))
                    && open_cell(c, wi, hi, x2, y2)
                    ==> cell(bits@, wi, x2, y2) || in_stack(stack@, x2, y2),
        decreases w * h - count_set(bits@), stack@.len(),
    {
        let ghost st = stack@;
        let (x, y) = stack.pop().unwrap();
        proof {
            assert(st[st.len() - 1] == (x, y));
            assert(stack@ =~= st.drop_last());
            lemma_index_in_grid(w as int, h as int, x as int, y as int);
        }
        let k = y * w + x;
        if bits[k] {
            proof {
                assert(cell(bits@, wi, x as int, y as int));
                assert forall|j: int| 0 <= j < stack@.len() implies {
                    let e = #[trigger] stack@[j];
                    &&& e.0 < w && e.1 < h
                    &&& open_cell(c, wi, hi, e.0 as int, e.1 as int)
                    &&& reachable(c, wi, hi, sx as int, sy as int, e.0 as int, e.1 as int)
                } by {
                    assert(stack@[j] == st[j]);
                }
                if !cell(bits@, wi, sx as int, sy as int) {
                    let j = choose|j: int| 0 <= j < st.len() && (#[trigger] st[j]).0 == sx && st[j].1 == sy;
                    assert(j < st.len() - 1);
                    assert(stack@[j] == st[j]);
                }
                assert forall|x1: int, y1: int, x2: int, y2: int|
                    0 <= x1 < w && 0 <= y1 < h && cell(bits@, wi, x1, y1) && #[trigger] adjacent((x1, y1), (x2, y2))
                        && open_cell(c, wi, hi, x2, y2)
                        implies cell(bits@, wi, x2, y2) || in_stack(stack@, x2, y2) by {
                    if !cell(bits@, wi, x2, y2) {
                        let j = choose|j: int| 0 <= j < st.len() && (#[trigger] st[j]).0 == x2 && st[j].1 == y2;
                        if j == st.len() - 1 {
                            assert(false);
                        }
                        assert(stack@[j] == st[j]);
                    }
                }
            }
            continue;
        }
        let ghost before = bits@;
        proof {
            assert(open_cell(c, wi, hi, x as int, y as int));
            assert(!before[k as int]);
            lemma_count_set_update(before, k as int);
            lemma_count_set_le(before.update(k as int, true));
        }
        bits.set(k, true);
        let ghost xi = x as int;
        let ghost yi = y as int;
        proof {
            assert(bits@ == before.update(k as int, true));
            assert forall|x1: int, y1: int| 0 <= x1 < w && 0 <= y1 < h implies
                #[trigger] cell(bits@, wi, x1, y1) == (cell(before, wi, x1, y1) || (x1 == xi && y1 == yi)) by {
                lemma_index_in_grid(wi, hi, x1, y1);
                if x1 != xi || y1 != yi {
                    lemma_index_unique(wi, x1, y1, xi, yi);
                }
            }
        }
        let ghost popped = stack@;
        let ghost from = popped.len() as int;
        let ghost s0 = stack@;
        if x > 0 {
            consider(closed, &bits, &mut stack, w, h, x - 1, y);
            proof { lemma_consider_step(c, bits@, s0, stack@, wi, hi, xi, yi, xi - 1, yi, from); }
        }
        let ghost s1 = stack@;
        if x + 1 < w {
            consider(closed, &bits, &mut stack, w, h, x + 1, y);
            proof { lemma_consider_step(c, bits@, s1, stack@, wi, hi, xi, yi, xi + 1, yi, from); }
        }
        let ghost s2 = stack@;
        if y > 0 {
            consider(closed, &bits, &mut stack, w, h, x, y - 1);
            proof { lemma_consider_step(c, bits@, s2, stack@, wi, hi, xi, yi, xi, yi - 1, from); }
        }
        let ghost s3 = stack@;
        if y + 1 < h {
            consider(closed, &bits, &mut stack, w, h, x, y + 1);
            proof { lemma_consider_step(c, bits@, s3, stack@, wi, hi, xi, yi, xi, yi + 1, from); }
        }
        proof {
            let s4 = stack@;
            // Each neighbour that qualified is on the final stack.
            assert((x > 0 && open_cell(c, wi, hi, xi - 1, yi) && !cell(bits@, wi, xi - 1, yi)) ==> in_stack(s4, xi - 1, yi));
            assert((x + 1 < w && open_cell(c, wi, hi, xi + 1, yi) && !cell(bits@, wi, xi + 1, yi)) ==> in_stack(s4, xi + 1, yi));
            assert((y > 0 && open_cell(c, wi, hi, xi, yi - 1) && !cell(bits@, wi, xi, yi - 1)) ==> in_stack(s4, xi, yi - 1));
            assert(forall|j: int| 0 <= j < popped.len() ==> s4[j] == popped[j]);
            assert forall|j: int| 0 <= j < s4.len() implies {
                let e = #[trigger] s4[j];
                &&& e.0 < w && e.1 < h
                &&& open_cell(c, wi, hi, e.0 as int, e.1 as int)
                &&& reachable(c, wi, hi, sx as int, sy as int, e.0 as int, e.1 as int)
            } by {
                if j < popped.len() {
                    assert(s4[j] == st[j]);
                } else {
                    let e = s4[j];
                    assert(pushed_ok(s4, from, c, wi, hi, xi, yi));
                    lemma_extend_path(c, wi, hi, sx as int, sy as int, xi, yi, e.0 as int, e.1 as int);
                }
            }
            assert forall|x1: int, y1: int| 0 <= x1 < w && 0 <= y1 < h && #[trigger] cell(bits@, wi, x1, y1)
                implies open_cell(c, wi, hi, x1, y1) && reachable(c, wi, hi, sx as int, sy as int, x1, y1) by {
                if !(x1 == xi && y1 == yi) {
                    assert(cell(before, wi, x1, y1));
                }
            }
            if !cell(bits@, wi, sx as int, sy as int) {
                let j = choose|j: int| 0 <= j < st.len() && (#[trigger] st[j]).0 == sx && st[j].1 == sy;
                assert(j < st.len() - 1);
                assert(s4[j] == st[j]);
            }
            assert forall|x1: int, y1: int, x2: int, y2: int|
                0 <= x1 < w && 0 <= y1 < h && cell(bits@, wi, x1, y1) && #[trigger] adjacent((x1, y1), (x2, y2))
                    && open_cell(c, wi, hi, x2, y2)
                    implies cell(bits@, wi, x2, y2) || in_stack(s4, x2, y2) by {
                if !cell(bits@, wi, x2, y2) {
                    assert(!cell(before, wi, x2, y2));
                    if x1 == xi && y1 == yi {
                    } else {
                        assert(cell(before, wi, x1, y1));
                        let j = choose|j: int| 0 <= j < st.len() && (#[trigger] st[j]).0 == x2 && st[j].1 == y2;
                        if j == st.len() - 1 {
                            assert(false);
                        }
                        assert(s4[j] == st[j]);
                    }
                }
            }
        }
    }
    proof {
        assert forall|x: int, y: int| 0 <= x < w && 0 <= y < h
            implies #[trigger] cell(bits@, w as int, x, y) == reachable(c, wi, hi, sx as int, sy as int, x, y) by {
            if reachable(c, wi, hi, sx as int, sy as int, x, y) {
                let p = choose|p: Seq<(int, int)>| #[trigger] is_path(c, wi, hi, p) && p[0] == (sx as int, sy as int)
                    && p.last() == (x, y);
                lemma_closed_set_holds_path(c, bits@, wi, hi, p, p.len() - 1);
            }
        }
    }
    bits
}

proof fn lemma_count_set_zero(s: Seq<bool>)
    requires
        forall|k: int| 0 <= k < s.len() ==> !s[k],
    ensures
        count_set(s) == 0,
    decreases s.len(),
{
    if s.len() > 0 {
        lemma_count_set_zero(s.drop_last());
    }
}

/// Distinct cells have distinct row-major indices.
proof fn lemma_index_unique(w: int, x1: int, y1: int, x2: int, y2: int)
    requires
        0 <= x1 < w,
        0 <= x2 < w,
        0 <= y1,
        0 <= y2,
        x1 != x2 || y1 != y2,
    ensures
        y1 * w + x1 != y2 * w + x2,
{
    if y1 * w + x1 == y2 * w + x2 {
        vstd::arithmetic::div_mod::lemma_fundamental_div_mod_converse(y1 * w + x1, w, y1, x1);
        vstd::arithmetic::div_mod::lemma_fundamental_div_mod_converse(y2 * w + x2, w, y2, x2);
    }
}

// ---------------------------------------------------------------------------
// The fill region
// ---------------------------------------------------------------------------

/// The radius that closes line-art gaps up to `gap_px` wide: ceil(gap / 2).
pub open spec fn close_radius(gap_px: u32) -> int {
    (gap_px as int + 1) / 2
}

/// A wall for the flood: ink fattened by the closing radius, or (with a
/// selection) a pixel outside the selection.
pub open spec fn wall_at(boundary: Seq<bool>, inside: Option<Seq<bool>>, w: int, h: int, r: int, x: int, y: int) -> bool {
    square_hit(boundary, w, h, x, y, r) || (inside matches Some(ins) && !cell(ins, w, x, y))
}

/// The walls as a row-major grid.
pub open spec fn wall_grid(boundary: Seq<bool>, inside: Option<Seq<bool>>, w: int, h: int, r: int) -> Seq<bool> {
    Seq::new((w * h) as nat, |k: int| wall_at(boundary, inside, w, h, r, k % w, k / w))
}

/// The flooded region as a row-major grid.
pub open spec fn region_grid(walls: Seq<bool>, w: int, h: int, sx: int, sy: int) -> Seq<bool> {
    Seq::new((w * h) as nat, |k: int| reachable(walls, w, h, sx, sy, k % w, k / w))
}

/// Whether a pixel ends up filled: the region grown back out by the
/// closing radius plus `grow_px`, minus the reference's own ink when ink
/// is protected, clipped to the selection.
pub open spec fn filled_at(
    boundary: Seq<bool>, inside: Option<Seq<bool>>, w: int, h: int, sx: int, sy: int,
    gap_px: u32, grow_px: u32, protect_ink: bool, x: int, y: int,
) -> bool {
    let r = close_radius(gap_px);
    let region = region_grid(wall_grid(boundary, inside, w, h, r), w, h, sx, sy);
    &&& square_hit(region, w, h, x, y, r + grow_px)
    &&& !(protect_ink && cell(boundary, w, x, y))
    &&& (inside matches Some(ins) ==> cell(ins, w, x, y))
}

/// A wall pixel is never reached by the flood, from any seed.
proof fn lemma_wall_unreached(boundary: Seq<bool>, inside: Option<Seq<bool>>, w: int, h: int, r: int, sx: int, sy: int, x: int, y: int)
    requires
        0 <= x < w,
        0 <= y < h,
        wall_at(boundary, inside, w, h, r, x, y),
    ensures
        !reachable(wall_grid(boundary, inside, w, h, r), w, h, sx, sy, x, y),
{
    let walls = wall_grid(boundary, inside, w, h, r);
    lemma_index_in_grid(w, h, x, y);
    lemma_cell_of_index(w, x, y);
    assert(cell(walls, w, x, y));
    if reachable(walls, w, h, sx, sy, x, y) {
        let p = choose|p: Seq<(int, int)>| #[trigger] is_path(walls, w, h, p) && p[0] == (sx, sy) && p.last() == (x, y);
        assert(open_cell(walls, w, h, p[p.len() - 1].0, p[p.len() - 1].1));
    }
}

/// Gap closing down a column: where a column of ink is broken by at most
/// `gap_px` empty pixels, every pixel of the break is a wall, and no
/// flood, from any seed, gets through it.
pub proof fn law_gap_in_a_column_is_closed(
    boundary: Seq<bool>, inside: Option<Seq<bool>>, w: int, h: int, gap_px: u32,
    x: int, y0: int, y1: int, y: int, sx: int, sy: int,
)
    requires
        0 <= x < w,
        0 <= y0 < y < y1 < h,
        cell(boundary, w, x, y0),
        cell(boundary, w, x, y1),
        y1 - y0 - 1 <= gap_px,
    ensures
        wall_at(boundary, inside, w, h, close_radius(gap_px), x, y),
        !reachable(wall_grid(boundary, inside, w, h, close_radius(gap_px)), w, h, sx, sy, x, y),
{
    let r = close_radius(gap_px);
    if y - y0 <= r {
        assert(square_hit(boundary, w, h, x, y, r));
    } else {
        assert(y1 - y <= r);
        assert(square_hit(boundary, w, h, x, y, r));
    }
    lemma_wall_unreached(boundary, inside, w, h, r, sx, sy, x, y);
}

/// Gap closing along a row: where a row of ink is broken by at most
/// `gap_px` empty pixels, every pixel of the break is a wall, and no
/// flood, from any seed, gets through it.
pub proof fn law_gap_in_a_row_is_closed(
    boundary: Seq<bool>, inside: Option<Seq<bool>>, w: int, h: int, gap_px: u32,
    y: int, x0: int, x1: int, x: int, sx: int, sy: int,
)
    requires
        0 <= y < h,
        0 <= x0 < x < x1 < w,
        cell(boundary, w, x0, y),
        cell(boundary, w, x1, y),
        x1 - x0 - 1 <= gap_px,
    ensures
        wall_at(boundary, inside, w, h, close_radius(gap_px), x, y),
        !reachable(wall_grid(boundary, inside, w, h, close_radius(gap_px)), w, h, sx, sy, x, y),
{
    let r = close_radius(gap_px);
    if x - x0 <= r {
        assert(square_hit(boundary, w, h, x, y, r));
    } else {
        assert(x1 - x <= r);
        assert(square_hit(boundary, w, h, x, y, r));
    }
    lemma_wall_unreached(boundary, inside, w, h, r, sx, sy, x, y);
}

proof fn lemma_path_crosses_column(c: Seq<bool>, w: int, h: int, p: Seq<(int, int)>, x: int, n: int)
    requires
        is_path(c, w, h, p),
        0 <= n < p.len(),
        p[0].0 < x <= p[n].0,
    ensures
        exists|i: int| 0 <= i <= n && (#[trigger] p[i]).0 == x,
    decreases n,
{
    if p[n].0 != x {
        assert(n > 0);
        assert(step_ok(p, n - 1));
        lemma_path_crosses_column(c, w, h, p, x, n - 1);
    }
}

/// A line with small breaks still splits the canvas: when every empty
/// pixel of column `x` lies in a break of at most `gap_px` pixels between
/// ink, a flood seeded left of the column reaches nothing on or right of it.
pub proof fn law_broken_line_still_separates(
    boundary: Seq<bool>, inside: Option<Seq<bool>>, w: int, h: int, gap_px: u32,
    x: int, sx: int, sy: int, tx: int, ty: int,
)
    requires
        0 <= sx < x <= tx < w,
        forall|y: int| 0 <= y < h && !#[trigger] cell(boundary, w, x, y) ==> exists|y0: int, y1: int|
            0 <= y0 < y < y1 < h && cell(boundary, w, x, y0) && cell(boundary, w, x, y1) && y1 - y0 - 1 <= gap_px,
    ensures
        !reachable(wall_grid(boundary, inside, w, h, close_radius(gap_px)), w, h, sx, sy, tx, ty),
{
    let r = close_radius(gap_px);
    let walls = wall_grid(boundary, inside, w, h, r);
    if reachable(walls, w, h, sx, sy, tx, ty) {
        let p = choose|p: Seq<(int, int)>| #[trigger] is_path(walls, w, h, p) && p[0] == (sx, sy) && p.last() == (tx, ty);
        lemma_path_crosses_column(walls, w, h, p, x, p.len() - 1);
        let i = choose|i: int| 0 <= i <= p.len() - 1 && (#[trigger] p[i]).0 == x;
        assert(open_cell(walls, w, h, p[i].0, p[i].1));
        let y = p[i].1;
        if cell(boundary, w, x, y) {
            assert(square_hit(boundary, w, h, x, y, r));
        } else {
            let (y0, y1) = choose|y0: int, y1: int|
                0 <= y0 < y < y1 < h && cell(boundary, w, x, y0) && cell(boundary, w, x, y1) && y1 - y0 - 1 <= gap_px;
            law_gap_in_a_column_is_closed(boundary, inside, w, h, gap_px, x, y0, y1, y, sx, sy);
        }
        assert(wall_at(boundary, inside, w, h, r, x, y));
        lemma_index_in_grid(w, h, x, y);
        lemma_cell_of_index(w, x, y);
        assert(cell(walls, w, x, y));
    }
}

/// How far gap closing reaches, without a selection: a pixel is a wall
/// exactly when some ink lies within half the gap width (rounded up) of
/// it, horizontally and vertically.
pub proof fn law_walls_are_ink_within_half_the_gap(boundary: Seq<bool>, w: int, h: int, gap_px: u32, x: int, y: int)
    ensures
        wall_at(boundary, None, w, h, close_radius(gap_px), x, y) <==> exists|x2: int, y2: int|
            0 <= x2 < w && 0 <= y2 < h && #[trigger] cell(boundary, w, x2, y2)
                && 2 * (x2 - x) <= gap_px + 1 && 2 * (x - x2) <= gap_px + 1
                && 2 * (y2 - y) <= gap_px + 1 && 2 * (y - y2) <= gap_px + 1,
{
    let r = close_radius(gap_px);
    if wall_at(boundary, None, w, h, r, x, y) {
        let (x2, y2) = choose|x2: int, y2: int|
            0 <= x2 < w && 0 <= y2 < h && x - r <= x2 <= x + r && y - r <= y2 <= y + r && #[trigger] cell(boundary, w, x2, y2);
        assert(cell(boundary, w, x2, y2));
    }
    if exists|x2: int, y2: int|
        0 <= x2 < w && 0 <= y2 < h && #[trigger] cell(boundary, w, x2, y2)
            && 2 * (x2 - x) <= gap_px + 1 && 2 * (x - x2) <= gap_px + 1
            && 2 * (y2 - y) <= gap_px + 1 && 2 * (y - y2) <= gap_px + 1 {
        let (x2, y2) = choose|x2: int, y2: int|
            0 <= x2 < w && 0 <= y2 < h && #[trigger] cell(boundary, w, x2, y2)
                && 2 * (x2 - x) <= gap_px + 1 && 2 * (x - x2) <= gap_px + 1
                && 2 * (y2 - y) <= gap_px + 1 && 2 * (y - y2) <= gap_px + 1;
        assert(square_hit(boundary, w, h, x, y, r));
    }
}

/// The cells of an optional mask.
pub open spec fn inside_view(inside: Option<Vec<bool>>) -> Option<Seq<bool>> {
    match inside {
        Some(v) => Some(v@),
        None => None,
    }
}

/// A seed that is on the canvas, inside the selection and not on a wall
/// is filled.
proof fn lemma_seed_filled(
    boundary: Seq<bool>, inside: Option<Seq<bool>>, w: int, h: int, sx: int, sy: int,
    gap_px: u32, grow_px: u32, protect_ink: bool,
)
    requires
        0 <= sx < w,
        0 <= sy < h,
        boundary.len() == w * h,
        !wall_at(boundary, inside, w, h, close_radius(gap_px), sx, sy),
    ensures
        filled_at(boundary, inside, w, h, sx, sy, gap_px, grow_px, protect_ink, sx, sy),
{
    let r = close_radius(gap_px);
    let walls = wall_grid(boundary, inside, w, h, r);
    let region = region_grid(walls, w, h, sx, sy);
    lemma_index_in_grid(w, h, sx, sy);
    lemma_cell_of_index(w, sx, sy);
    assert(cell(walls, w, sx, sy) == wall_at(boundary, inside, w, h, r, sx, sy));
    let p = seq![(sx, sy)];
    assert(is_path(walls, w, h, p));
    assert(reachable(walls, w, h, sx, sy, sx, sy));
    assert(cell(region, w, sx, sy));
    assert(square_hit(region, w, h, sx, sy, r + grow_px));
    if cell(boundary, w, sx, sy) {
        assert(square_hit(boundary, w, h, sx, sy, r));
    }
}

/// The seed is off the canvas.
pub open spec fn off_paper(width: u32, height: u32, seed: (i32, i32)) -> bool {
    width == 0 || height == 0 || seed.0 < 0 || seed.1 < 0 || seed.0 >= (width as i32) || seed.1 >= (height as i32)
}

/// The row-major cell of index `k`.
proof fn lemma_grid_index(w: int, k: int)
    requires
        w > 0,
        0 <= k,
    ensures
        k == (k / w) * w + k % w,
        0 <= k % w < w,
        0 <= k / w,
{
    vstd::arithmetic::div_mod::lemma_fundamental_div_mod(k, w);
    assert((k / w) * w == w * (k / w)) by (nonlinear_arith);
    vstd::arithmetic::div_mod::lemma_mod_bound(k, w);
    vstd::arithmetic::div_mod::lemma_div_pos_is_pos(k, w);
}

/// A grid given cell by cell is the grid defined by index.
proof fn lemma_cell_of_index(w: int, x: int, y: int)
    requires
        0 <= x < w,
        0 <= y,
    ensures
        (y * w + x) % w == x,
        (y * w + x) / w == y,
{
    vstd::arithmetic::div_mod::lemma_fundamental_div_mod_converse(y * w + x, w, y, x);
}

/// The fill region for a click at `seed`. `boundary` marks the reference's
/// inked pixels; `inside`, when a selection is active, marks the pixels
/// inside it (the selection border is a wall for the flood, an outside
/// seed is refused, and the result is clipped to it).
pub fn fill_region(
    boundary: &Vec<bool>,
    inside: &Option<Vec<bool>>,
    width: u32,
    height: u32,
    seed: (i32, i32),
    gap_px: u32,
    grow_px: u32,
    protect_ink: bool,
) -> (r: Result<FillMask, FillRefusal>)
    requires
        boundary@.len() == width as int * height as int,
        inside matches Some(ins) ==> ins@.len() == width as int * height as int,
        close_radius(gap_px) + grow_px <= usize::MAX,
    ensures
        r matches Err(FillRefusal::OffPaper) <==> off_paper(width, height, seed),
        r matches Err(FillRefusal::OutsideSelection) <==> !off_paper(width, height, seed)
            && (inside_view(*inside) matches Some(v) && !cell(v, width as int, seed.0 as int, seed.1 as int)),
        r matches Err(FillRefusal::OnInk) <==> !off_paper(width, height, seed)
            && !(inside_view(*inside) matches Some(v) && !cell(v, width as int, seed.0 as int, seed.1 as int))
            && wall_at(boundary@, inside_view(*inside), width as int, height as int, close_radius(gap_px),
                seed.0 as int, seed.1 as int),
        // A fill that gets past the seed checks always fills the seed itself.
        !(r matches Err(FillRefusal::ClippedOut)),
        r matches Ok(m) ==> cell(m.bits@, width as int, seed.0 as int, seed.1 as int),
        r matches Err(FillRefusal::ClippedOut) ==> inside.is_some() && forall|x: int, y: int|
            0 <= x < width && 0 <= y < height ==> !#[trigger] filled_at(boundary@, inside_view(*inside),
                width as int, height as int, seed.0 as int, seed.1 as int, gap_px, grow_px, protect_ink, x, y),
        r matches Ok(m) ==> m.w == width && m.h == height && m.wf()
            && (forall|x: int, y: int| 0 <= x < width && 0 <= y < height
                ==> #[trigger] cell(m.bits@, width as int, x, y) == filled_at(boundary@, inside_view(*inside),
                    width as int, height as int, seed.0 as int, seed.1 as int, gap_px, grow_px, protect_ink, x, y))
            && (inside.is_some() ==> exists|x: int, y: int| 0 <= x < width && 0 <= y < height
                && #[trigger] filled_at(boundary@, inside_view(*inside), width as int, height as int,
                    seed.0 as int, seed.1 as int, gap_px, grow_px, protect_ink, x, y)),
{
    let ghost ins = inside_view(*inside);
    let total = boundary.len();
    let w = width as usize;
    let h = height as usize;
    if width == 0 || height == 0 || seed.0 < 0 || seed.1 < 0 || seed.0 >= width as i32 || seed.1 >= height as i32 {
        return Err(FillRefusal::OffPaper);
    }
    let sx = seed.0 as usize;
    let sy = seed.1 as usize;
    proof {
        assert(w as int == width as int && h as int == height as int);
        assert(sx as int == seed.0 as int && sy as int == seed.1 as int);
        assert(sx < w && sy < h);
        lemma_index_in_grid(w as int, h as int, sx as int, sy as int);
    }
    match inside {
        Some(v) => {
            if !v[sy * w + sx] {
                return Err(FillRefusal::OutsideSelection);
            }
        },
        None => {},
    }
    let r_close = (gap_px / 2 + gap_px % 2) as usize;
    assert(r_close == close_radius(gap_px));
    let mut closed = boundary.clone();
    assert(closed@ =~= boundary@);
    dilate(&mut closed, w, h, r_close);
    // The selection border is a wall too.
    let ghost dil = closed@;
    match inside {
        Some(v) => {
            let mut k: usize = 0;
            while k < total
                invariant
                    total == w * h,
                    w > 0,
                    closed@.len() == total,
                    v@.len() == total,
                    dil.len() == total,
                    k <= total,
                    forall|j: int| 0 <= j < k ==> closed@[j] == (dil[j] || !v@[j]),
                    forall|j: int| k <= j < total ==> closed@[j] == dil[j],
                decreases total - k,
            {
                let ghost pre = closed@;
                assert(forall|j: int| 0 <= j < k ==> pre[j] == (dil[j] || !v@[j]));
                if !closed[k] && !v[k] {
                    closed.set(k, true);
                }
                proof {
                    assert(closed@[k as int] == (dil[k as int] || !v@[k as int]));
                    assert forall|j: int| 0 <= j < total && j != k implies closed@[j] == pre[j] by {}
                    assert forall|j: int| 0 <= j < k + 1 implies closed@[j] == (dil[j] || !v@[j]) by {
                        if j < k {
                            assert(pre[j] == (dil[j] || !v@[j]));
                        }
                    }
                }
                k = k + 1;
            }
        },
        None => {},
    }
    proof {
        assert forall|j: int| 0 <= j < total implies closed@[j]
            == (dil[j] || (ins matches Some(iv) && !iv[j])) by {
            match inside {
                Some(v) => {
                    assert(ins == Some(v@));
                },
                None => {},
            }
        }
    }
    let ghost walls = wall_grid(boundary@, ins, w as int, h as int, r_close as int);
    proof {
        assert forall|x: int, y: int| 0 <= x < w && 0 <= y < h
            implies #[trigger] cell(closed@, w as int, x, y) == wall_at(boundary@, ins, w as int, h as int, r_close as int, x, y) by {
            lemma_index_in_grid(w as int, h as int, x, y);
            assert(cell(dil, w as int, x, y) == square_hit(boundary@, w as int, h as int, x, y, r_close as int));
            assert(closed@[y * w + x] == (dil[y * w + x] || (ins matches Some(iv) && !iv[y * w + x])));
        }
        assert forall|k: int| 0 <= k < w * h implies closed@[k] == walls[k] by {
            lemma_grid_index(w as int, k);
            let (x, y) = (k % (w as int), k / (w as int));
            assert(y < h) by (nonlinear_arith)
                requires
                    k == y * w + x,
                    0 <= x,
                    k < w * h,
                    0 <= y;
            assert(cell(closed@, w as int, x, y) == wall_at(boundary@, ins, w as int, h as int, r_close as int, x, y));
        }
        assert(closed@ =~= walls);
    }
    proof {
        assert(closed@[sy * w + sx] == cell(closed@, w as int, sx as int, sy as int));
        assert(cell(closed@, w as int, sx as int, sy as int)
            == wall_at(boundary@, ins, w as int, h as int, r_close as int, sx as int, sy as int));
    }
    if closed[sy * w + sx] {
        return Err(FillRefusal::OnInk);
    }
    let mut bits = flood_region(&closed, w, h, sx, sy);
    let ghost region = region_grid(walls, w as int, h as int, sx as int, sy as int);
    proof {
        assert forall|k: int| 0 <= k < w * h implies bits@[k] == region[k] by {
            lemma_grid_index(w as int, k);
            let (x, y) = (k % (w as int), k / (w as int));
            assert(y < h) by (nonlinear_arith)
                requires
                    k == y * w + x,
                    0 <= x,
                    k < w * h,
                    0 <= y;
            assert(cell(bits@, w as int, x, y) == reachable(closed@, w as int, h as int, sx as int, sy as int, x, y));
        }
        assert(bits@ =~= region);
    }
    let grow = r_close + grow_px as usize;
    dilate(&mut bits, w, h, grow);
    let ghost grown = bits@;
    if protect_ink {
        let mut k: usize = 0;
        while k < total
            invariant
                total == w * h,
                bits@.len() == total,
                boundary@.len() == total,
                grown.len() == total,
                k <= total,
                forall|j: int| 0 <= j < k ==> bits@[j] == (grown[j] && !boundary@[j]),
                forall|j: int| k <= j < total ==> bits@[j] == grown[j],
            decreases total - k,
        {
            let ghost pre = bits@;
            assert(forall|j: int| 0 <= j < k ==> pre[j] == (grown[j] && !boundary@[j]));
            if bits[k] && boundary[k] {
                bits.set(k, false);
            }
            proof {
                assert(bits@[k as int] == (grown[k as int] && !boundary@[k as int]));
                assert forall|j: int| 0 <= j < total && j != k implies bits@[j] == pre[j] by {}
                assert forall|j: int| 0 <= j < k + 1 implies bits@[j] == (grown[j] && !boundary@[j]) by {
                    if j < k {
                        assert(pre[j] == (grown[j] && !boundary@[j]));
                    }
                }
            }
            k = k + 1;
        }
    }
    let ghost protected = bits@;
    let mut any = false;
    match inside {
        Some(v) => {
            let mut k: usize = 0;
            while k < total
                invariant
                    total == w * h,
                    bits@.len() == total,
                    v@.len() == total,
                    protected.len() == total,
                    k <= total,
                    forall|j: int| 0 <= j < k ==> bits@[j] == (protected[j] && v@[j]),
                    forall|j: int| k <= j < total ==> bits@[j] == protected[j],
                    any == exists|j: int| 0 <= j < k && bits@[j],
                decreases total - k,
            {
                let ghost pre = bits@;
                assert(forall|j: int| 0 <= j < k ==> pre[j] == (protected[j] && v@[j]));
                if bits[k] && !v[k] {
                    bits.set(k, false);
                }
                proof {
                    assert(bits@[k as int] == (protected[k as int] && v@[k as int]));
                    assert forall|j: int| 0 <= j < total && j != k implies bits@[j] == pre[j] by {}
                    assert forall|j: int| 0 <= j < k + 1 implies bits@[j] == (protected[j] && v@[j]) by {
                        if j < k {
                            assert(pre[j] == (protected[j] && v@[j]));
                        }
                    }
                }
                if bits[k] {
                    any = true;
                }
                k = k + 1;
            }
        },
        None => {},
    }
    proof {
        assert forall|x: int, y: int| 0 <= x < w && 0 <= y < h
            implies #[trigger] cell(bits@, w as int, x, y)
                == filled_at(boundary@, ins, w as int, h as int, sx as int, sy as int, gap_px, grow_px, protect_ink, x, y) by {
            lemma_index_in_grid(w as int, h as int, x, y);
            assert(cell(grown, w as int, x, y) == square_hit(region, w as int, h as int, x, y, grow as int));
        }
    }
    proof {
        lemma_seed_filled(boundary@, ins, w as int, h as int, sx as int, sy as int, gap_px, grow_px, protect_ink);
        assert(cell(bits@, w as int, sx as int, sy as int));
    }
    match inside {
        Some(_) => {
            if !any {
                proof {
                    assert forall|x: int, y: int| 0 <= x < w && 0 <= y < h
                        implies !#[trigger] filled_at(boundary@, ins, w as int, h as int, sx as int, sy as int, gap_px, grow_px, protect_ink, x, y) by {
                        lemma_index_in_grid(w as int, h as int, x, y);
                        assert(!bits@[y * w + x]);
                        assert(cell(bits@, w as int, x, y) == filled_at(boundary@, ins, w as int, h as int, sx as int, sy as int, gap_px, grow_px, protect_ink, x, y));
                    }
                }
                return Err(FillRefusal::ClippedOut);
            }
            proof {
                let j = choose|j: int| 0 <= j < total && bits@[j];
                lemma_grid_index(w as int, j);
                let (x, y) = (j % (w as int), j / (w as int));
                assert(y < h) by (nonlinear_arith)
                    requires
                        j == y * w + x,
                        0 <= x,
                        j < w * h,
                        0 <= y;
                assert(cell(bits@, w as int, x, y));
                assert(filled_at(boundary@, ins, width as int, height as int, seed.0 as int, seed.1 as int, gap_px, grow_px, protect_ink, x, y));
                assert(exists|x: int, y: int| 0 <= x < width && 0 <= y < height
                    && #[trigger] filled_at(boundary@, ins, width as int, height as int, seed.0 as int, seed.1 as int, gap_px, grow_px, protect_ink, x, y));
            }
        },
        None => {},
    }
    let m = FillMask { w: width, h: height, bits };
    proof {
        assert(m.wf());
        assert(!wall_at(boundary@, ins, width as int, height as int, close_radius(gap_px), seed.0 as int, seed.1 as int));
        assert(forall|x: int, y: int| 0 <= x < width && 0 <= y < height
            ==> #[trigger] cell(m.bits@, width as int, x, y)
                == filled_at(boundary@, ins, width as int, height as int, seed.0 as int, seed.1 as int, gap_px, grow_px, protect_ink, x, y));
    }
    Ok(m)
}

/// Radius 0 dilates nothing.
proof fn lemma_square_hit_zero(s: Seq<bool>, w: int, h: int, x: int, y: int)
    requires
        0 <= x < w,
        0 <= y < h,
    ensures
        square_hit(s, w, h, x, y, 0) == cell(s, w, x, y),
{
    if cell(s, w, x, y) {
        assert(square_hit(s, w, h, x, y, 0));
    }
}

/// With no gap closing, no growth, no ink protection and no selection, a
/// fill is exactly the flood: the pixels reachable from the seed through
/// the reference's un-inked pixels.
pub proof fn lemma_exact_flood(boundary: Seq<bool>, w: int, h: int, sx: int, sy: int, x: int, y: int)
    requires
        w > 0,
        h > 0,
        boundary.len() == w * h,
        0 <= x < w,
        0 <= y < h,
    ensures
        filled_at(boundary, None, w, h, sx, sy, 0, 0, false, x, y) == reachable(boundary, w, h, sx, sy, x, y),
{
    let walls = wall_grid(boundary, None, w, h, 0);
    assert forall|k: int| 0 <= k < w * h implies walls[k] == boundary[k] by {
        lemma_grid_index(w, k);
        let (kx, ky) = (k % w, k / w);
        assert(ky < h) by (nonlinear_arith)
            requires
                k == ky * w + kx,
                0 <= kx,
                k < w * h,
                0 <= ky,
                w > 0;
        lemma_square_hit_zero(boundary, w, h, kx, ky);
    }
    assert(walls =~= boundary);
    let region = region_grid(walls, w, h, sx, sy);
    lemma_square_hit_zero(region, w, h, x, y);
    lemma_index_in_grid(w, h, x, y);
    lemma_cell_of_index(w, x, y);
}

} // verus!
