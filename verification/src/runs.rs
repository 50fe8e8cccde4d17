//! A column's exposure as intervals: every drawing key opens a run that
//! lasts until the next key of any kind (or the sheet's end), and explicit
//! empty keys are marked on their own. This is the sheet's native shape —
//! timing is sparse keys with hold semantics.
//!
//! Also the rule weights of the sheet's horizontal lines (second, half,
//! beat), from the frame rate.

use vstd::prelude::*;
use crate::ids::DrawingId;
use crate::xsheet::Exposure;

verus! {

/// One exposed interval: `drawing` shows from `start` through `end`
/// inclusive, in sheet frames.
#[derive(Debug, Clone, Copy, PartialEq, Eq)]
pub struct Run {
    pub start: u32,
    pub end: u32,
    pub drawing: DrawingId,
}

/// Everything the sheet paints for one column.
#[derive(Debug)]
pub struct ColumnMarks {
    pub runs: Vec<Run>,
    /// Frames carrying an explicit Empty key (the hold terminators).
    pub empties: Vec<u32>,
}

/// Frame `f` carries a key of any kind.
pub open spec fn is_key(ks: Seq<Option<Exposure>>, f: int) -> bool {
    0 <= f < ks.len() && ks[f] is Some
}

/// Frame `f` carries a key exposing drawing `d`.
pub open spec fn is_drawing_key(ks: Seq<Option<Exposure>>, f: int, d: DrawingId) -> bool {
    0 <= f < ks.len() && ks[f] == Some(Exposure::Drawing(d))
}

/// Frame `f` carries an explicit Empty key.
pub open spec fn is_empty_key(ks: Seq<Option<Exposure>>, f: int) -> bool {
    0 <= f < ks.len() && ks[f] == Some(Exposure::Empty)
}

/// No key in the frames `lo < h < hi`.
pub open spec fn no_key_between(ks: Seq<Option<Exposure>>, lo: int, hi: int) -> bool {
    forall|h: int| lo < h < hi ==> !is_key(ks, h)
}

/// `r` is the run opened by the drawing key at `r.start`: it holds until
/// the frame before the next key, or through the last frame.
pub open spec fn is_run_of(ks: Seq<Option<Exposure>>, r: Run) -> bool {
    &&& is_drawing_key(ks, r.start as int, r.drawing)
    &&& r.start <= r.end < ks.len()
    &&& no_key_between(ks, r.start as int, r.end + 1)
    &&& (r.end + 1 == ks.len() || is_key(ks, r.end + 1))
}

/// The marks of a column whose key at each frame is `ks[frame]`: the runs
/// are exactly those opened by its drawing keys, in frame order, and the
/// empties exactly its Empty-key frames, in frame order.
pub open spec fn marks_of(ks: Seq<Option<Exposure>>, runs: Seq<Run>, empties: Seq<u32>) -> bool {
    &&& forall|i: int, j: int| 0 <= i < j < runs.len() ==> runs[i].start < runs[j].start
    &&& forall|i: int| 0 <= i < runs.len() ==> is_run_of(ks, #[trigger] runs[i])
    &&& forall|f: int, d: DrawingId| #[trigger] is_drawing_key(ks, f, d)
        ==> exists|i: int| 0 <= i < runs.len() && (#[trigger] runs[i]).start == f
    &&& forall|i: int, j: int| 0 <= i < j < empties.len() ==> empties[i] < empties[j]
    &&& forall|i: int| 0 <= i < empties.len() ==> is_empty_key(ks, #[trigger] empties[i] as int)
    &&& forall|f: int| #[trigger] is_empty_key(ks, f) ==> empties.contains(f as u32)
}

/// Build a column's marks by asking `key_at` for the key at every frame
/// `0..count` (a closure, so this names no concrete column type). Whatever
/// the answers were, the result is the marks of exactly those answers.
pub fn column_marks(count: u32, key_at: impl Fn(u32) -> Option<Exposure>) -> (m: ColumnMarks)
    requires
        forall|f: u32| f < count ==> key_at.requires((f,)),
    ensures
        exists|ks: Seq<Option<Exposure>>|
            {
                &&& ks.len() == count
                &&& forall|f: int| 0 <= f < count ==> key_at.ensures((f as u32,), #[trigger] ks[f])
                &&& marks_of(ks, m.runs@, m.empties@)
            },
{
    let mut runs: Vec<Run> = Vec::new();
    let mut empties: Vec<u32> = Vec::new();
    let mut open: Option<(DrawingId, u32)> = None;
    let ghost mut ks: Seq<Option<Exposure>> = Seq::empty();
    let mut f: u32 = 0;
    while f < count
        invariant
            f <= count,
            forall|g: u32| g < count ==> key_at.requires((g,)),
            ks.len() == f,
            forall|g: int| 0 <= g < f ==> key_at.ensures((g as u32,), #[trigger] ks[g]),
            // closed runs
            forall|i: int, j: int| 0 <= i < j < runs@.len() ==> runs@[i].start < runs@[j].start,
            forall|i: int| 0 <= i < runs@.len() ==> is_run_of(ks, #[trigger] runs@[i]),
            forall|i: int| 0 <= i < runs@.len() ==> (#[trigger] runs@[i]).end + 1 < f,
            // the open run, if any
            match open {
                Some((d, s)) => {
                    &&& is_drawing_key(ks, s as int, d)
                    &&& no_key_between(ks, s as int, f as int)
                    &&& forall|i: int| 0 <= i < runs@.len() ==> (#[trigger] runs@[i]).start < s
                    &&& forall|g: int, e: DrawingId| #[trigger] is_drawing_key(ks, g, e) && g != s
                        ==> exists|i: int| 0 <= i < runs@.len() && (#[trigger] runs@[i]).start == g
                },
                None => forall|g: int, e: DrawingId| #[trigger] is_drawing_key(ks, g, e)
                    ==> exists|i: int| 0 <= i < runs@.len() && (#[trigger] runs@[i]).start == g,
            },
            // empties
            forall|i: int, j: int| 0 <= i < j < empties@.len() ==> empties@[i] < empties@[j],
            forall|i: int| 0 <= i < empties@.len() ==> is_empty_key(ks, #[trigger] empties@[i] as int),
            forall|i: int| 0 <= i < empties@.len() ==> #[trigger] empties@[i] < f,
            forall|g: int| #[trigger] is_empty_key(ks, g) ==> empties@.contains(g as u32),
        decreases count - f,
    {
        let key = key_at(f);
        let ghost ks0 = ks;
        proof {
            ks = ks.push(key);
            assert forall|g: int| 0 <= g < ks0.len() implies ks[g] == ks0[g] by {}
            assert forall|g: int| 0 <= g < ks0.len() && #[trigger] is_key(ks, g) implies is_key(ks0, g) by {}
        }
        match key {
            Some(Exposure::Drawing(d)) => {
                let ghost runs0 = runs@;
                if let Some((pd, start)) = open {
                    let r = Run { start, end: f - 1, drawing: pd };
                    runs.push(r);
                    proof {
                        assert(is_run_of(ks, r));
                        assert(runs@[runs@.len() - 1] == r);
                    }
                }
                proof {
                    assert forall|i: int| 0 <= i < runs@.len() implies is_run_of(ks, #[trigger] runs@[i]) by {
                        if i < runs0.len() {
                            assert(runs@[i] == runs0[i]);
                            assert(is_run_of(ks0, runs0[i]));
                        }
                    }
                    assert forall|g: int, e: DrawingId| #[trigger] is_drawing_key(ks, g, e) && g != f
                        implies exists|i: int| 0 <= i < runs@.len() && (#[trigger] runs@[i]).start == g by {
                        assert(is_drawing_key(ks0, g, e));
                        match open {
                            Some((pd, s)) => {
                                if g == s {
                                    assert(runs@[runs@.len() - 1].start == g);
                                } else {
                                    let i = choose|i: int| 0 <= i < runs0.len() && (#[trigger] runs0[i]).start == g;
                                    assert(runs@[i] == runs0[i]);
                                }
                            },
                            None => {
                                let i = choose|i: int| 0 <= i < runs0.len() && (#[trigger] runs0[i]).start == g;
                                assert(runs@[i] == runs0[i]);
                            },
                        }
                    }
                    assert forall|i: int| 0 <= i < empties@.len() implies is_empty_key(ks, #[trigger] empties@[i] as int) by {
                        assert(is_empty_key(ks0, empties@[i] as int));
                    }
                    assert forall|g: int| #[trigger] is_empty_key(ks, g) implies empties@.contains(g as u32) by {
                        assert(is_empty_key(ks0, g));
                    }
                }
                open = Some((d, f));
            },
            Some(Exposure::Empty) => {
                let ghost runs0 = runs@;
                let ghost empties0 = empties@;
                if let Some((pd, start)) = open {
                    let r = Run { start, end: f - 1, drawing: pd };
                    runs.push(r);
                    proof {
                        assert(is_run_of(ks, r));
                        assert(runs@[runs@.len() - 1] == r);
                    }
                }
                empties.push(f);
                proof {
                    assert forall|i: int| 0 <= i < runs@.len() implies is_run_of(ks, #[trigger] runs@[i]) by {
                        if i < runs0.len() {
                            assert(runs@[i] == runs0[i]);
                            assert(is_run_of(ks0, runs0[i]));
                        }
                    }
                    assert forall|g: int, e: DrawingId| #[trigger] is_drawing_key(ks, g, e)
                        implies exists|i: int| 0 <= i < runs@.len() && (#[trigger] runs@[i]).start == g by {
                        assert(is_drawing_key(ks0, g, e));
                        match open {
                            Some((pd, s)) => {
                                if g == s {
                                    assert(runs@[runs@.len() - 1].start == g);
                                } else {
                                    let i = choose|i: int| 0 <= i < runs0.len() && (#[trigger] runs0[i]).start == g;
                                    assert(runs@[i] == runs0[i]);
                                }
                            },
                            None => {
                                let i = choose|i: int| 0 <= i < runs0.len() && (#[trigger] runs0[i]).start == g;
                                assert(runs@[i] == runs0[i]);
                            },
                        }
                    }
                    assert forall|i: int| 0 <= i < empties@.len() implies is_empty_key(ks, #[trigger] empties@[i] as int) by {
                        if i < empties0.len() {
                            assert(empties@[i] == empties0[i]);
                            assert(is_empty_key(ks0, empties0[i] as int));
                        }
                    }
                    assert forall|g: int| #[trigger] is_empty_key(ks, g) implies empties@.contains(g as u32) by {
                        if g == f {
                            assert(empties@[empties@.len() - 1] == f);
                        } else {
                            assert(is_empty_key(ks0, g));
                            let i = choose|i: int| 0 <= i < empties0.len() && empties0[i] == g as u32;
                            assert(empties@[i] == empties0[i]);
                        }
                    }
                }
                open = None;
            },
            None => {
                proof {
                    assert forall|i: int| 0 <= i < runs@.len() implies is_run_of(ks, #[trigger] runs@[i]) by {
                        assert(is_run_of(ks0, runs@[i]));
                    }
                    assert forall|i: int| 0 <= i < empties@.len() implies is_empty_key(ks, #[trigger] empties@[i] as int) by {
                        assert(is_empty_key(ks0, empties@[i] as int));
                    }
                    assert forall|g: int| #[trigger] is_empty_key(ks, g) implies empties@.contains(g as u32) by {
                        assert(is_empty_key(ks0, g));
                    }
                    match open {
                        Some((d, s)) => {
                            assert forall|g: int, e: DrawingId| #[trigger] is_drawing_key(ks, g, e) && g != s
                                implies exists|i: int| 0 <= i < runs@.len() && (#[trigger] runs@[i]).start == g by {
                                assert(is_drawing_key(ks0, g, e));
                            }
                            assert(is_drawing_key(ks0, s as int, d));
                        },
                        None => {
                            assert forall|g: int, e: DrawingId| #[trigger] is_drawing_key(ks, g, e)
                                implies exists|i: int| 0 <= i < runs@.len() && (#[trigger] runs@[i]).start == g by {
                                assert(is_drawing_key(ks0, g, e));
                            }
                        },
                    }
                }
            },
        }
        f = f + 1;
    }
    let ghost runs0 = runs@;
    if let Some((pd, start)) = open {
        let r = Run { start, end: count - 1, drawing: pd };
        runs.push(r);
        proof {
            assert(is_run_of(ks, r));
            assert(runs@[runs@.len() - 1] == r);
        }
    }
    proof {
        assert forall|i: int| 0 <= i < runs@.len() implies is_run_of(ks, #[trigger] runs@[i]) by {
            if i < runs0.len() {
                assert(runs@[i] == runs0[i]);
            }
        }
        assert forall|g: int, e: DrawingId| #[trigger] is_drawing_key(ks, g, e)
            implies exists|i: int| 0 <= i < runs@.len() && (#[trigger] runs@[i]).start == g by {
            match open {
                Some((pd, s)) => {
                    if g == s {
                        assert(runs@[runs@.len() - 1].start == g);
                    } else {
                        let i = choose|i: int| 0 <= i < runs0.len() && (#[trigger] runs0[i]).start == g;
                        assert(runs@[i] == runs0[i]);
                    }
                },
                None => {},
            }
        }
    }
    ColumnMarks { runs, empties }
}

/// The rule tier of the boundary above frame `f`: 2 on every second, 1 on
/// every half second, 0 on every beat (quarter second), none elsewhere.
/// Half and beat divisors round down and are at least 1; a frame rate
/// below 2 (or 4) has no halves (or beats); a zero frame rate has no rules.
pub open spec fn rule_tier_spec(f: u32, fps: u32) -> Option<u8> {
    if fps == 0 {
        None
    } else if f % fps == 0 {
        Some(2u8)
    } else if fps >= 2 && f % (fps / 2) == 0 {
        Some(1u8)
    } else if fps >= 4 && f % (fps / 4) == 0 {
        Some(0u8)
    } else {
        None
    }
}

/// The rule weight for the boundary above frame `f`, if any.
pub fn rule_tier(f: u32, fps: u32) -> (t: Option<u8>)
    ensures
        t == rule_tier_spec(f, fps),
{
    if fps == 0 {
        return None;
    }
    if f % fps == 0 {
        Some(2)
    } else if fps >= 2 && f % (fps / 2) == 0 {
        Some(1)
    } else if fps >= 4 && f % (fps / 4) == 0 {
        Some(0)
    } else {
        None
    }
}

} // verus!
