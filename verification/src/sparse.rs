//! Sparse frame-keyed storage: the shape every sheet column shares. Keys
//! are kept in ascending frame order, so "the nearest key at or before a
//! frame" — the hold law — is one ordered query.

use vstd::prelude::*;

verus! {

/// Strictly ascending frames: the ordered map's shape.
pub open spec fn frames_ascending<V>(s: Seq<(u32, V)>) -> bool {
    forall|i: int, j: int| 0 <= i < j < s.len() ==> #[trigger] s[i].0 < #[trigger] s[j].0
}

/// Some entry sits at `frame`.
pub open spec fn seq_has_frame<V>(s: Seq<(u32, V)>, frame: u32) -> bool {
    exists|i: int| 0 <= i < s.len() && #[trigger] s[i].0 == frame
}

/// The entries as a map from frame to value.
pub open spec fn seq_to_map<V>(s: Seq<(u32, V)>) -> Map<u32, V> {
    Map::new(
        |f: u32| seq_has_frame(s, f),
        |f: u32| s[choose|i: int| 0 <= i < s.len() && #[trigger] s[i].0 == f].1,
    )
}

/// With ascending frames, the entry at index `i` is what the map holds for its frame.
pub proof fn lemma_entry_in_map<V>(s: Seq<(u32, V)>, i: int)
    requires
        frames_ascending(s),
        0 <= i < s.len(),
    ensures
        seq_to_map(s).contains_key(s[i].0),
        seq_to_map(s)[s[i].0] == s[i].1,
{
    let f = s[i].0;
    assert(seq_has_frame(s, f));
    let j = choose|j: int| 0 <= j < s.len() && #[trigger] s[j].0 == f;
    if j < i {
        assert(s[j].0 < s[i].0);
    } else if i < j {
        assert(s[i].0 < s[j].0);
    }
}

/// `f` is the greatest key of `m` at or before `frame`.
pub open spec fn is_floor_key<V>(m: Map<u32, V>, frame: u32, f: u32) -> bool {
    &&& m.contains_key(f)
    &&& f <= frame
    &&& forall|g: u32| #[trigger] m.contains_key(g) && g <= frame ==> g <= f
}

/// `f` is the least key of `m` strictly after `frame`.
pub open spec fn is_next_key<V>(m: Map<u32, V>, frame: u32, f: u32) -> bool {
    &&& m.contains_key(f)
    &&& f > frame
    &&& forall|g: u32| #[trigger] m.contains_key(g) && g > frame ==> f <= g
}

/// `f` is the least key of `m`.
pub open spec fn is_first_key<V>(m: Map<u32, V>, f: u32) -> bool {
    &&& m.contains_key(f)
    &&& forall|g: u32| #[trigger] m.contains_key(g) ==> f <= g
}

/// A frame-keyed sparse map, ascending by frame.
#[derive(Debug)]
pub struct FrameKeys<V> {
    entries: Vec<(u32, V)>,
}

impl<V: Copy> FrameKeys<V> {
    /// Ascending frames, no duplicates.
    pub closed spec fn wf(&self) -> bool {
        frames_ascending(self.entries@)
    }

    /// The keys as a map from frame to value.
    pub closed spec fn view(&self) -> Map<u32, V> {
        seq_to_map(self.entries@)
    }

    /// The entries in ascending frame order.
    pub closed spec fn listing(&self) -> Seq<(u32, V)> {
        self.entries@
    }

    /// The listing is ascending and lists exactly the map.
    pub proof fn lemma_listing(&self)
        requires
            self.wf(),
        ensures
            frames_ascending(self.listing()),
            forall|i: int|
                0 <= i < self.listing().len() ==> #[trigger] self.view().contains_key(
                    self.listing()[i].0,
                ) && self.view()[self.listing()[i].0] == self.listing()[i].1,
            forall|f: u32|
                #[trigger] self.view().contains_key(f) ==> exists|i: int|
                    0 <= i < self.listing().len() && #[trigger] self.listing()[i].0 == f,
    {
        assert forall|i: int| 0 <= i < self.listing().len() implies #[trigger] self.view().contains_key(
            self.listing()[i].0,
        ) && self.view()[self.listing()[i].0] == self.listing()[i].1 by {
            lemma_entry_in_map(self.entries@, i);
        }
    }

    /// Finitely many keys.
    pub proof fn lemma_finite(&self)
        ensures
            self@.dom().finite(),
    {
        let frames = self.entries@.map_values(|e: (u32, V)| e.0);
        assert forall|f: u32| #[trigger] self@.dom().contains(f) <==> frames.to_set().contains(f) by {
            if self@.dom().contains(f) {
                let i = choose|i: int| 0 <= i < self.entries@.len() && #[trigger] self.entries@[i].0 == f;
                assert(frames[i] == f);
            }
            if frames.contains(f) {
                let i = choose|i: int| 0 <= i < frames.len() && frames[i] == f;
                assert(self.entries@[i].0 == f);
            }
        }
        assert(self@.dom() =~= frames.to_set());
        vstd::seq_lib::seq_to_set_is_finite(frames);
    }

    /// The map is what its listing lists.
    pub proof fn lemma_view_listing(&self)
        ensures
            self@ == seq_to_map(self.listing()),
    {
    }

    /// Keys from a listing; `None` unless the frames strictly ascend.
    pub fn from_listing(entries: Vec<(u32, V)>) -> (r: Option<Self>)
        ensures
            r is Some <==> frames_ascending(entries@),
            r matches Some(k) ==> k.wf() && k.listing() == entries@,
    {
        let mut i: usize = 1;
        while i < entries.len()
            invariant
                1 <= i,
                forall|a: int, b: int| 0 <= a < b < i && b < entries@.len() ==> #[trigger] entries@[a].0 < #[trigger] entries@[b].0,
            decreases entries@.len() - i,
        {
            if entries[i - 1].0 >= entries[i].0 {
                return None;
            }
            proof {
                assert forall|a: int, b: int| 0 <= a < b < i + 1 && b < entries@.len() implies #[trigger] entries@[a].0
                    < #[trigger] entries@[b].0 by {
                    if b == i && a < i - 1 {
                        assert(entries@[a].0 < entries@[i - 1].0);
                    }
                }
            }
            i = i + 1;
        }
        Some(FrameKeys { entries })
    }

    pub fn new() -> (r: Self)
        ensures
            r.wf(),
            r@ == Map::<u32, V>::empty(),
    {
        let r = FrameKeys { entries: Vec::new() };
        assert(r@ =~= Map::<u32, V>::empty());
        r
    }

    /// Number of keys.
    pub fn len(&self) -> (n: usize)
        requires
            self.wf(),
        ensures
            n == self.listing().len(),
    {
        self.entries.len()
    }

    /// The entries, ascending by frame.
    pub fn entries(&self) -> (r: Vec<(u32, V)>)
        requires
            self.wf(),
        ensures
            r@ == self.listing(),
    {
        let mut r: Vec<(u32, V)> = Vec::new();
        let mut i: usize = 0;
        while i < self.entries.len()
            invariant
                i <= self.entries@.len(),
                r@ == self.entries@.take(i as int),
            decreases self.entries@.len() - i,
        {
            r.push(self.entries[i]);
            i = i + 1;
            assert(r@ =~= self.entries@.take(i as int));
        }
        assert(self.entries@.take(i as int) =~= self.entries@);
        r
    }

    /// Index of the first entry whose frame is >= `frame`.
    fn lower_bound(&self, frame: u32) -> (idx: usize)
        requires
            self.wf(),
        ensures
            idx <= self.entries@.len(),
            forall|i: int| 0 <= i < idx ==> #[trigger] self.entries@[i].0 < frame,
            forall|i: int| idx <= i < self.entries@.len() ==> #[trigger] self.entries@[i].0 >= frame,
    {
        let mut lo: usize = 0;
        let mut hi: usize = self.entries.len();
        while lo < hi
            invariant
                lo <= hi <= self.entries@.len(),
                frames_ascending(self.entries@),
                forall|i: int| 0 <= i < lo ==> #[trigger] self.entries@[i].0 < frame,
                forall|i: int| hi <= i < self.entries@.len() ==> #[trigger] self.entries@[i].0 >= frame,
            decreases hi - lo,
        {
            let mid = lo + (hi - lo) / 2;
            if self.entries[mid].0 < frame {
                lo = mid + 1;
            } else {
                hi = mid;
            }
        }
        lo
    }

    /// The value keyed at exactly `frame`.
    pub fn get(&self, frame: u32) -> (r: Option<V>)
        requires
            self.wf(),
        ensures
            r == (if self@.contains_key(frame) { Some(self@[frame]) } else { None::<V> }),
    {
        let idx = self.lower_bound(frame);
        if idx < self.entries.len() && self.entries[idx].0 == frame {
            proof {
                lemma_entry_in_map(self.entries@, idx as int);
            }
            Some(self.entries[idx].1)
        } else {
            proof {
                if seq_has_frame(self.entries@, frame) {
                    let j = choose|j: int| 0 <= j < self.entries@.len() && #[trigger] self.entries@[j].0 == frame;
                    if j < idx as int {
                    } else if j > idx as int {
                        assert(self.entries@[idx as int].0 < self.entries@[j].0);
                    }
                }
            }
            None
        }
    }

    /// Set the value at `frame`; returns what was keyed there before.
    pub fn insert(&mut self, frame: u32, value: V) -> (prev: Option<V>)
        requires
            old(self).wf(),
        ensures
            final(self).wf(),
            final(self)@ == old(self)@.insert(frame, value),
            prev == (if old(self)@.contains_key(frame) { Some(old(self)@[frame]) } else { None::<V> }),
    {
        let prev = self.get(frame);
        let idx = self.lower_bound(frame);
        let ghost old_s = self.entries@;
        if idx < self.entries.len() && self.entries[idx].0 == frame {
            self.entries.set(idx, (frame, value));
            proof {
                let s = self.entries@;
                assert(s =~= old_s.update(idx as int, (frame, value)));
                assert(frames_ascending(s)) by {
                    assert forall|i: int, j: int| 0 <= i < j < s.len() implies #[trigger] s[i].0 < #[trigger] s[j].0 by {
                        assert(old_s[i].0 < old_s[j].0);
                    }
                }
                assert forall|f: u32| #[trigger] seq_has_frame(s, f) == seq_has_frame(old_s, f) by {
                    if seq_has_frame(s, f) {
                        let i = choose|i: int| 0 <= i < s.len() && #[trigger] s[i].0 == f;
                        assert(old_s[i].0 == f);
                    }
                    if seq_has_frame(old_s, f) {
                        let i = choose|i: int| 0 <= i < old_s.len() && #[trigger] old_s[i].0 == f;
                        assert(s[i].0 == f);
                    }
                }
                assert forall|f: u32| seq_to_map(s).contains_key(f) implies seq_to_map(s)[f]
                    == old(self)@.insert(frame, value)[f] by {
                    let i = choose|i: int| 0 <= i < s.len() && #[trigger] s[i].0 == f;
                    lemma_entry_in_map(s, i);
                    if i != idx as int {
                        lemma_entry_in_map(old_s, i);
                    }
                }
                assert(seq_to_map(s) =~= old(self)@.insert(frame, value));
            }
        } else {
            self.entries.insert(idx, (frame, value));
            proof {
                let s = self.entries@;
                assert(s =~= old_s.insert(idx as int, (frame, value)));
                assert(frames_ascending(s)) by {
                    assert forall|i: int, j: int| 0 <= i < j < s.len() implies #[trigger] s[i].0 < #[trigger] s[j].0 by {
                        if j < idx {
                            assert(old_s[i].0 < old_s[j].0);
                        } else if j == idx {
                        } else if i < idx {
                            assert(s[j] == old_s[j - 1]);
                        } else if i == idx {
                            assert(s[j] == old_s[j - 1]);
                        } else {
                            assert(old_s[i - 1].0 < old_s[j - 1].0);
                        }
                    }
                }
                assert forall|f: u32| seq_has_frame(s, f) <==> (seq_has_frame(old_s, f) || f == frame) by {
                    if seq_has_frame(s, f) {
                        let i = choose|i: int| 0 <= i < s.len() && #[trigger] s[i].0 == f;
                        if i < idx {
                            assert(old_s[i].0 == f);
                        } else if i > idx {
                            assert(old_s[i - 1].0 == f);
                        }
                    }
                    if seq_has_frame(old_s, f) {
                        let i = choose|i: int| 0 <= i < old_s.len() && #[trigger] old_s[i].0 == f;
                        if i < idx {
                            assert(s[i].0 == f);
                        } else {
                            assert(s[i + 1].0 == f);
                        }
                    }
                    if f == frame {
                        assert(s[idx as int].0 == f);
                    }
                }
                assert forall|f: u32| seq_to_map(s).contains_key(f) implies seq_to_map(s)[f]
                    == old(self)@.insert(frame, value)[f] by {
                    let i = choose|i: int| 0 <= i < s.len() && #[trigger] s[i].0 == f;
                    lemma_entry_in_map(s, i);
                    if i < idx {
                        lemma_entry_in_map(old_s, i);
                    } else if i > idx {
                        lemma_entry_in_map(old_s, i - 1);
                    }
                }
                assert(seq_to_map(s) =~= old(self)@.insert(frame, value));
            }
        }
        prev
    }

    /// The greatest key at or before `frame`, with its value.
    pub fn floor(&self, frame: u32) -> (r: Option<(u32, V)>)
        requires
            self.wf(),
        ensures
            match r {
                Some((f, v)) => is_floor_key(self@, frame, f) && self@[f] == v,
                None => forall|g: u32| #[trigger] self@.contains_key(g) ==> g > frame,
            },
    {
        let idx = self.lower_bound(frame);
        proof { self.lemma_listing(); }
        if idx < self.entries.len() && self.entries[idx].0 == frame {
            proof {
                lemma_entry_in_map(self.entries@, idx as int);
            }
            Some(self.entries[idx])
        } else if idx > 0 {
            proof {
                let s = self.entries@;
                lemma_entry_in_map(s, idx - 1);
                assert forall|g: u32| #[trigger] self@.contains_key(g) && g <= frame implies g <= s[idx - 1].0 by {
                    let j = choose|j: int| 0 <= j < s.len() && #[trigger] s[j].0 == g;
                    if j >= idx as int {
                        if j > idx as int {
                            assert(s[idx as int].0 < s[j].0);
                        }
                    } else if j < idx - 1 {
                        assert(s[j].0 < s[idx - 1].0);
                    }
                }
            }
            Some(self.entries[idx - 1])
        } else {
            proof {
                let s = self.entries@;
                assert forall|g: u32| #[trigger] self@.contains_key(g) implies g > frame by {
                    let j = choose|j: int| 0 <= j < s.len() && #[trigger] s[j].0 == g;
                    if j > 0 && s.len() > 0 {
                        assert(s[0].0 < s[j].0);
                    }
                    if s[0].0 == frame {
                    }
                }
            }
            None
        }
    }

    /// The least key strictly after `frame`, with its value.
    pub fn next_after(&self, frame: u32) -> (r: Option<(u32, V)>)
        requires
            self.wf(),
        ensures
            match r {
                Some((f, v)) => is_next_key(self@, frame, f) && self@[f] == v,
                None => forall|g: u32| #[trigger] self@.contains_key(g) ==> g <= frame,
            },
    {
        let idx = self.lower_bound(frame);
        let ghost s = self.entries@;
        let k = if idx < self.entries.len() && self.entries[idx].0 == frame { idx + 1 } else { idx };
        proof {
            assert forall|i: int| 0 <= i < k implies #[trigger] s[i].0 <= frame by {}
            assert forall|i: int| k <= i < s.len() implies #[trigger] s[i].0 > frame by {
                if k == idx + 1 && i > idx {
                    assert(s[idx as int].0 < s[i].0);
                }
            }
        }
        if k < self.entries.len() {
            proof {
                lemma_entry_in_map(s, k as int);
                assert forall|g: u32| #[trigger] self@.contains_key(g) && g > frame implies s[k as int].0 <= g by {
                    let j = choose|j: int| 0 <= j < s.len() && #[trigger] s[j].0 == g;
                    if j > k {
                        assert(s[k as int].0 < s[j].0);
                    }
                }
            }
            Some(self.entries[k])
        } else {
            proof {
                assert forall|g: u32| #[trigger] self@.contains_key(g) implies g <= frame by {
                    let j = choose|j: int| 0 <= j < s.len() && #[trigger] s[j].0 == g;
                }
            }
            None
        }
    }

    /// The least key, with its value.
    pub fn first(&self) -> (r: Option<(u32, V)>)
        requires
            self.wf(),
        ensures
            match r {
                Some((f, v)) => is_first_key(self@, f) && self@[f] == v,
                None => self@ == Map::<u32, V>::empty(),
            },
    {
        let ghost s = self.entries@;
        if self.entries.len() > 0 {
            proof {
                lemma_entry_in_map(s, 0);
                assert forall|g: u32| #[trigger] self@.contains_key(g) implies s[0].0 <= g by {
                    let j = choose|j: int| 0 <= j < s.len() && #[trigger] s[j].0 == g;
                    if j > 0 {
                        assert(s[0].0 < s[j].0);
                    }
                }
            }
            Some(self.entries[0])
        } else {
            proof {
                assert(self@ =~= Map::<u32, V>::empty());
            }
            None
        }
    }

    /// Remove the key at `frame`; returns the removed value.
    pub fn remove(&mut self, frame: u32) -> (prev: Option<V>)
        requires
            old(self).wf(),
        ensures
            final(self).wf(),
            final(self)@ == old(self)@.remove(frame),
            prev == (if old(self)@.contains_key(frame) { Some(old(self)@[frame]) } else { None::<V> }),
    {
        let prev = self.get(frame);
        let idx = self.lower_bound(frame);
        let ghost old_s = self.entries@;
        if idx < self.entries.len() && self.entries[idx].0 == frame {
            self.entries.remove(idx);
            proof {
                let s = self.entries@;
                assert(s =~= old_s.remove(idx as int));
                assert(frames_ascending(s)) by {
                    assert forall|i: int, j: int| 0 <= i < j < s.len() implies #[trigger] s[i].0 < #[trigger] s[j].0 by {
                        if j < idx {
                            assert(old_s[i].0 < old_s[j].0);
                        } else if i < idx {
                            assert(s[j] == old_s[j + 1]);
                            assert(old_s[i].0 < old_s[j + 1].0);
                        } else {
                            assert(old_s[i + 1].0 < old_s[j + 1].0);
                        }
                    }
                }
                assert forall|f: u32| seq_has_frame(s, f) <==> (seq_has_frame(old_s, f) && f != frame) by {
                    if seq_has_frame(s, f) {
                        let i = choose|i: int| 0 <= i < s.len() && #[trigger] s[i].0 == f;
                        if i < idx {
                            assert(old_s[i].0 == f);
                            assert(old_s[i].0 < old_s[idx as int].0);
                        } else {
                            assert(old_s[i + 1].0 == f);
                            assert(old_s[idx as int].0 < old_s[i + 1].0);
                        }
                    }
                    if seq_has_frame(old_s, f) && f != frame {
                        let i = choose|i: int| 0 <= i < old_s.len() && #[trigger] old_s[i].0 == f;
                        if i < idx {
                            assert(s[i].0 == f);
                        } else {
                            assert(i != idx);
                            assert(s[i - 1].0 == f);
                        }
                    }
                }
                assert forall|f: u32| seq_to_map(s).contains_key(f) implies seq_to_map(s)[f]
                    == old(self)@.remove(frame)[f] by {
                    let i = choose|i: int| 0 <= i < s.len() && #[trigger] s[i].0 == f;
                    lemma_entry_in_map(s, i);
                    if i < idx {
                        lemma_entry_in_map(old_s, i);
                    } else {
                        lemma_entry_in_map(old_s, i + 1);
                    }
                }
                assert(seq_to_map(s) =~= old(self)@.remove(frame));
            }
        } else {
            proof {
                assert(!seq_has_frame(old_s, frame)) by {
                    if seq_has_frame(old_s, frame) {
                        let j = choose|j: int| 0 <= j < old_s.len() && #[trigger] old_s[j].0 == frame;
                        if j > idx as int {
                            assert(old_s[idx as int].0 < old_s[j].0);
                        }
                    }
                }
                assert(old(self)@.remove(frame) =~= old(self)@);
            }
        }
        prev
    }
}

} // verus!
