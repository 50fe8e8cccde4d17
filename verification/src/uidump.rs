//! The on-demand dump of what the application is showing: a request for
//! the presented frame, and the numbering that lets dumps accumulate
//! across restarts. Writing the files is the application's.

use vstd::prelude::*;
use crate::net::{parse_u32, parse_u32_spec};
use crate::text::chars_of;

verus! {

pub struct UiDump {
    /// When the pending frame request was made, if one is in flight.
    pub awaiting: Option<std::time::Instant>,
    /// The next dump's number.
    pub seq: u32,
    /// One-shot latch for the automatic dump.
    pub auto_done: bool,
    /// Last thing that happened, for the status bar.
    pub last: Option<String>,
}

impl UiDump {
    /// A dump recorder numbering from `seq` (see `max_frame_index`).
    pub fn new(seq: u32) -> (d: Self)
        ensures
            d.awaiting is None,
            d.seq == seq,
            !d.auto_done,
            d.last is None,
    {
        UiDump { awaiting: None, seq, auto_done: false, last: None }
    }
}

/// The dump number a file name carries: "frame_<n>.png" with `n` a `u32`.
pub open spec fn frame_index_spec(name: Seq<char>) -> Option<u32> {
    let pre = "frame_"@;
    let suf = ".png"@;
    if name.len() >= pre.len() + suf.len() && name.take(pre.len() as int) == pre
        && name.skip(name.len() - suf.len()) == suf {
        parse_u32_spec(name.subrange(pre.len() as int, name.len() - suf.len()))
    } else {
        None
    }
}

fn frame_index(name: &str) -> (r: Option<u32>)
    ensures
        r == frame_index_spec(name@),
{
    let cs = chars_of(name);
    let n = cs.len();
    proof {
        reveal_strlit("frame_");
        reveal_strlit(".png");
    }
    if n < 10 {
        return None;
    }
    if !(cs[0] == 'f' && cs[1] == 'r' && cs[2] == 'a' && cs[3] == 'm' && cs[4] == 'e' && cs[5] == '_') {
        proof {
            assert(cs@.take(6) != "frame_"@) by {
                let k: int = if cs@[0] != 'f' { 0 } else if cs@[1] != 'r' { 1 } else if cs@[2] != 'a' { 2 }
                    else if cs@[3] != 'm' { 3 } else if cs@[4] != 'e' { 4 } else { 5 };
                assert(cs@.take(6)[k] != "frame_"@[k]);
            }
        }
        return None;
    }
    if !(cs[n - 4] == '.' && cs[n - 3] == 'p' && cs[n - 2] == 'n' && cs[n - 1] == 'g') {
        proof {
            let t = cs@.skip(n - 4);
            assert(t != ".png"@) by {
                let k: int = if cs@[n - 4] != '.' { 0 } else if cs@[n - 3] != 'p' { 1 }
                    else if cs@[n - 2] != 'n' { 2 } else { 3 };
                assert(t[k] != ".png"@[k]);
            }
        }
        return None;
    }
    proof {
        assert(cs@.take(6) =~= "frame_"@);
        assert(cs@.skip(n - 4) =~= ".png"@);
    }
    let mut mid: Vec<char> = Vec::new();
    let mut i: usize = 6;
    while i < n - 4
        invariant
            n == cs@.len(),
            n >= 10,
            6 <= i <= n - 4,
            mid@ == cs@.subrange(6, i as int),
        decreases n - 4 - i,
    {
        mid.push(cs[i]);
        i = i + 1;
        assert(mid@ =~= cs@.subrange(6, i as int));
    }
    parse_u32(&mid)
}

/// The largest dump number among `names`, if any names a dump.
pub open spec fn is_max_frame_index(names: Seq<Seq<char>>, m: Option<u32>) -> bool {
    match m {
        None => forall|i: int| 0 <= i < names.len() ==> frame_index_spec(#[trigger] names[i]) is None,
        Some(v) => {
            &&& exists|i: int| 0 <= i < names.len() && frame_index_spec(#[trigger] names[i]) == Some(v)
            &&& forall|i: int| 0 <= i < names.len() ==> match frame_index_spec(#[trigger] names[i]) {
                Some(w) => w <= v,
                None => true,
            }
        },
    }
}

/// The highest dump number already in a directory listing; the next dump
/// takes the number after it, or 0 when there is none.
pub fn max_frame_index(names: &Vec<String>) -> (m: Option<u32>)
    ensures
        is_max_frame_index(names@.map_values(|s: String| s@), m),
{
    let ghost ns = names@.map_values(|s: String| s@);
    let mut best: Option<u32> = None;
    let mut i: usize = 0;
    while i < names.len()
        invariant
            i <= names@.len(),
            ns == names@.map_values(|s: String| s@),
            is_max_frame_index(ns.take(i as int), best),
        decreases names@.len() - i,
    {
        let r = frame_index(names[i].as_str());
        let ghost pre = ns.take(i as int);
        let ghost cur = ns.take(i + 1);
        proof {
            assert(ns[i as int] == names@[i as int]@);
            assert forall|k: int| 0 <= k < i implies cur[k] == pre[k] by {}
            assert(cur[i as int] == ns[i as int]);
        }
        match r {
            Some(v) => {
                match best {
                    None => {
                        best = Some(v);
                        proof {
                            assert(frame_index_spec(cur[i as int]) == Some(v));
                        }
                    },
                    Some(b) => {
                        if v > b {
                            best = Some(v);
                            proof {
                                assert(frame_index_spec(cur[i as int]) == Some(v));
                            }
                        } else {
                            proof {
                                let k = choose|k: int| 0 <= k < pre.len() && frame_index_spec(#[trigger] pre[k]) == Some(b);
                                assert(frame_index_spec(cur[k]) == Some(b));
                            }
                        }
                    },
                }
            },
            None => {
                proof {
                    match best {
                        Some(b) => {
                            let k = choose|k: int| 0 <= k < pre.len() && frame_index_spec(#[trigger] pre[k]) == Some(b);
                            assert(frame_index_spec(cur[k]) == Some(b));
                        },
                        None => {},
                    }
                }
            },
        }
        i = i + 1;
    }
    proof {
        assert(ns.take(i as int) =~= ns);
    }
    best
}

} // verus!
