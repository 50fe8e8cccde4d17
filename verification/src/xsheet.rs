//! The exposure sheet (X-sheet) — the master timing artifact.
//!
//! Drawings and timing are SEPARATE. A column holds sparse timing *keys*; a
//! key exposes a drawing (or explicit emptiness) and HOLDS until the next
//! key. Retiming never duplicates or touches artwork.

use vstd::prelude::*;
use crate::ids::{ColumnId, DrawingId, ParamId};
use crate::sparse::{FrameKeys, frames_ascending, is_first_key, is_floor_key, is_next_key};

verus! {

/// An explicit key on the sheet: either "show this drawing from here" or
/// "explicitly nothing from here" (ends the previous hold).
#[derive(Debug, Clone, Copy, PartialEq, Eq, Structural)]
pub enum Exposure {
    Drawing(DrawingId),
    Empty,
}

/// Hold semantics: the drawing visible at `frame` is the one exposed by the
/// nearest key at-or-before `frame`; before the first key, nothing.
pub open spec fn hold_at(keys: Map<u32, Exposure>, frame: u32) -> Option<DrawingId> {
    if exists|f: u32| is_floor_key(keys, frame, f) {
        let f = choose|f: u32| is_floor_key(keys, frame, f);
        match keys[f] {
            Exposure::Drawing(d) => Some(d),
            Exposure::Empty => None,
        }
    } else {
        None
    }
}

/// Two floor keys of the same frame are the same key.
pub proof fn lemma_floor_unique<V>(m: Map<u32, V>, frame: u32, f: u32, g: u32)
    requires
        is_floor_key(m, frame, f),
        is_floor_key(m, frame, g),
    ensures
        f == g,
{
    assert(f <= g);
    assert(g <= f);
}

/// Abstract state of a drawing column.
pub struct ColumnView {
    pub id: u64,
    pub name: Seq<char>,
    pub keys: Map<u32, Exposure>,
}

#[derive(Debug)]
pub struct Column {
    pub id: ColumnId,
    pub name: String,
    /// frame -> key. Sparse: frames between keys resolve via hold semantics.
    pub keys: FrameKeys<Exposure>,
}

impl Column {
    pub open spec fn wf(&self) -> bool {
        self.keys.wf()
    }

    pub open spec fn key_map(&self) -> Map<u32, Exposure> {
        self.keys@
    }

    pub open spec fn view(&self) -> ColumnView {
        ColumnView { id: self.id.0, name: self.name@, keys: self.key_map() }
    }

    pub fn new(id: ColumnId, name: String) -> (c: Self)
        ensures
            c.wf(),
            c.id == id,
            c.name@ == name@,
            c.key_map() == Map::<u32, Exposure>::empty(),
    {
        Column { id, name, keys: FrameKeys::new() }
    }

    /// Set a key at `frame`. Returns the previous key at that exact frame.
    pub fn set_key(&mut self, frame: u32, exposure: Exposure) -> (prev: Option<Exposure>)
        requires
            old(self).wf(),
        ensures
            final(self).wf(),
            final(self).id == old(self).id,
            final(self).name == old(self).name,
            final(self).key_map() == old(self).key_map().insert(frame, exposure),
            prev == (if old(self).key_map().contains_key(frame) {
                Some(old(self).key_map()[frame])
            } else {
                None::<Exposure>
            }),
    {
        self.keys.insert(frame, exposure)
    }

    /// Remove the key at `frame` (the previous key's hold then extends over
    /// it). Returns the removed key.
    pub fn clear_key(&mut self, frame: u32) -> (prev: Option<Exposure>)
        requires
            old(self).wf(),
        ensures
            final(self).wf(),
            final(self).id == old(self).id,
            final(self).name == old(self).name,
            final(self).key_map() == old(self).key_map().remove(frame),
            prev == (if old(self).key_map().contains_key(frame) {
                Some(old(self).key_map()[frame])
            } else {
                None::<Exposure>
            }),
    {
        self.keys.remove(frame)
    }

    /// The key at this exact frame, if any.
    pub fn key_at(&self, frame: u32) -> (r: Option<Exposure>)
        requires
            self.wf(),
        ensures
            r == (if self.key_map().contains_key(frame) {
                Some(self.key_map()[frame])
            } else {
                None::<Exposure>
            }),
    {
        self.keys.get(frame)
    }

    /// Hold-aware resolution: the drawing visible at `frame`.
    pub fn resolve(&self, frame: u32) -> (r: Option<DrawingId>)
        requires
            self.wf(),
        ensures
            r == hold_at(self.key_map(), frame),
    {
        match self.keys.floor(frame) {
            Some((f, e)) => {
                proof {
                    let g = choose|g: u32| is_floor_key(self.key_map(), frame, g);
                    lemma_floor_unique(self.key_map(), frame, f, g);
                }
                match e {
                    Exposure::Drawing(d) => Some(d),
                    Exposure::Empty => None,
                }
            },
            None => None,
        }
    }

    /// The keys, ascending by frame.
    pub fn keys(&self) -> (r: Vec<(u32, Exposure)>)
        requires
            self.wf(),
        ensures
            frames_ascending(r@),
            forall|i: int|
                0 <= i < r@.len() ==> #[trigger] self.key_map().contains_key(r@[i].0)
                    && self.key_map()[r@[i].0] == r@[i].1,
            forall|f: u32|
                #[trigger] self.key_map().contains_key(f) ==> exists|i: int|
                    0 <= i < r@.len() && #[trigger] r@[i].0 == f,
    {
        proof {
            self.keys.lemma_listing();
        }
        self.keys.entries()
    }

    /// All frames that have keys referencing the given drawing, ascending.
    pub fn keys_referencing(&self, drawing: DrawingId) -> (r: Vec<u32>)
        requires
            self.wf(),
        ensures
            forall|i: int, j: int| 0 <= i < j < r@.len() ==> #[trigger] r@[i] < #[trigger] r@[j],
            forall|f: u32|
                #[trigger] r@.contains(f) <==> (self.key_map().contains_key(f)
                    && self.key_map()[f] == Exposure::Drawing(drawing)),
    {
        let all = self.keys();
        let mut r: Vec<u32> = Vec::new();
        let ghost mut ix: Seq<int> = Seq::empty();
        let mut i: usize = 0;
        while i < all.len()
            invariant
                i <= all@.len(),
                frames_ascending(all@),
                ix.len() == r@.len(),
                forall|k: int| #![trigger ix[k]] 0 <= k < ix.len() ==> 0 <= ix[k] < i && all@[ix[k]].0 == r@[k] && all@[ix[k]].1 == Exposure::Drawing(drawing),
                forall|a: int, b: int| 0 <= a < b < ix.len() ==> #[trigger] ix[a] < #[trigger] ix[b],
                forall|m: int| 0 <= m < i && #[trigger] all@[m].1 == Exposure::Drawing(drawing) ==> exists|k: int| 0 <= k < ix.len() && ix[k] == m,
            decreases all@.len() - i,
        {
            let (f, e) = all[i];
            if e == Exposure::Drawing(drawing) {
                r.push(f);
                proof {
                    let old_ix = ix;
                    ix = ix.push(i as int);
                    assert forall|m: int| 0 <= m < i + 1 && #[trigger] all@[m].1 == Exposure::Drawing(drawing) implies exists|k: int| 0 <= k < ix.len() && ix[k] == m by {
                        if m == i {
                            assert(ix[ix.len() - 1] == m);
                        } else {
                            let k = choose|k: int| 0 <= k < old_ix.len() && old_ix[k] == m;
                            assert(ix[k] == m);
                        }
                    }
                }
            }
            i = i + 1;
        }
        proof {
            assert forall|a: int, b: int| 0 <= a < b < r@.len() implies #[trigger] r@[a] < #[trigger] r@[b] by {
                assert(ix[a] < ix[b]);
                assert(all@[ix[a]].0 < all@[ix[b]].0);
            }
            assert forall|f: u32| #[trigger] r@.contains(f) <==> (self.key_map().contains_key(f)
                && self.key_map()[f] == Exposure::Drawing(drawing)) by {
                if r@.contains(f) {
                    let k = choose|k: int| 0 <= k < r@.len() && r@[k] == f;
                    assert(all@[ix[k]].0 == f);
                }
                if self.key_map().contains_key(f) && self.key_map()[f] == Exposure::Drawing(drawing) {
                    let m = choose|m: int| 0 <= m < all@.len() && #[trigger] all@[m].0 == f;
                    assert(all@[m].1 == Exposure::Drawing(drawing));
                    let k = choose|k: int| 0 <= k < ix.len() && ix[k] == m;
                    assert(r@[k] == f);
                }
            }
        }
        r
    }
}

// ---- Parameter columns ------------------------------------------------------
// Camera moves — and every future animated parameter — live on the same
// sheet as the drawings: a parameter column maps frame -> number.

/// How the value travels FROM a key TO the next key.
#[derive(Debug, Clone, Copy, PartialEq, Eq, Structural)]
pub enum ParamInterp {
    /// Step: hold this value until the next key (the sheet's native law).
    Hold,
    /// Straight line to the next key's value.
    Linear,
    /// Smoothstep ease-in-out to the next key's value.
    Ease,
}

/// One parameter key. `value` is the IEEE-754 single-precision bit pattern
/// of the number (the arithmetic on it happens where floats live).
#[derive(Debug, Clone, Copy, PartialEq, Eq, Structural)]
pub struct ParamKey {
    pub value: u32,
    pub interp: ParamInterp,
}

/// What a parameter column says about one frame, before any arithmetic:
/// no keys at all, one settled value, or a span to interpolate across.
#[derive(Debug, Clone, Copy, PartialEq, Eq, Structural)]
pub enum ParamSpan {
    NoKeys,
    /// The value (f32 bits) at this frame.
    Settled(u32),
    /// `frame` lies strictly inside (from_frame, to_frame) or on from_frame;
    /// interpolate per `from.interp` (never Hold).
    Between { from_frame: u32, from: ParamKey, to_frame: u32, to: ParamKey, frame: u32 },
}

/// Abstract state of a parameter column.
pub struct ParamColumnView {
    pub id: ParamId,
    pub name: Seq<char>,
    pub keys: Map<u32, ParamKey>,
}

#[derive(Debug)]
pub struct ParamColumn {
    pub id: ParamId,
    pub name: String,
    /// frame -> key. Sparse, like a drawing column.
    pub keys: FrameKeys<ParamKey>,
}

impl ParamColumn {
    pub open spec fn wf(&self) -> bool {
        self.keys.wf()
    }

    pub open spec fn key_map(&self) -> Map<u32, ParamKey> {
        self.keys@
    }

    pub open spec fn view(&self) -> ParamColumnView {
        ParamColumnView { id: self.id, name: self.name@, keys: self.key_map() }
    }

    pub fn new(id: ParamId, name: String) -> (c: Self)
        ensures
            c.wf(),
            c.id == id,
            c.name@ == name@,
            c.key_map() == Map::<u32, ParamKey>::empty(),
    {
        ParamColumn { id, name, keys: FrameKeys::new() }
    }

    /// Set a key at `frame`. Returns the previous key at that exact frame.
    pub fn set_key(&mut self, frame: u32, key: ParamKey) -> (prev: Option<ParamKey>)
        requires
            old(self).wf(),
        ensures
            final(self).wf(),
            final(self).id == old(self).id,
            final(self).key_map() == old(self).key_map().insert(frame, key),
            prev == (if old(self).key_map().contains_key(frame) {
                Some(old(self).key_map()[frame])
            } else {
                None::<ParamKey>
            }),
    {
        self.keys.insert(frame, key)
    }

    /// Remove the key at `frame`. Returns the removed key.
    pub fn clear_key(&mut self, frame: u32) -> (prev: Option<ParamKey>)
        requires
            old(self).wf(),
        ensures
            final(self).wf(),
            final(self).id == old(self).id,
            final(self).key_map() == old(self).key_map().remove(frame),
            prev == (if old(self).key_map().contains_key(frame) {
                Some(old(self).key_map()[frame])
            } else {
                None::<ParamKey>
            }),
    {
        self.keys.remove(frame)
    }

    /// The key at this exact frame, if any.
    pub fn key_at(&self, frame: u32) -> (r: Option<ParamKey>)
        requires
            self.wf(),
        ensures
            r == (if self.key_map().contains_key(frame) {
                Some(self.key_map()[frame])
            } else {
                None::<ParamKey>
            }),
    {
        self.keys.get(frame)
    }

    /// The keys, ascending by frame.
    pub fn keys(&self) -> (r: Vec<(u32, ParamKey)>)
        requires
            self.wf(),
        ensures
            frames_ascending(r@),
            forall|i: int|
                0 <= i < r@.len() ==> #[trigger] self.key_map().contains_key(r@[i].0)
                    && self.key_map()[r@[i].0] == r@[i].1,
            forall|f: u32|
                #[trigger] self.key_map().contains_key(f) ==> exists|i: int|
                    0 <= i < r@.len() && #[trigger] r@[i].0 == f,
    {
        proof {
            self.keys.lemma_listing();
        }
        self.keys.entries()
    }

    /// Which keys govern `frame`:
    /// - no keys at all -> NoKeys (a bound node falls back to its static value);
    /// - at or before the first key -> the first key's value;
    /// - at/after the last key -> the last key's value;
    /// - between two keys -> the earlier key's value if it holds, else the
    ///   span to interpolate per the EARLIER key's `interp`.
    pub fn span(&self, frame: u32) -> (r: ParamSpan)
        requires
            self.wf(),
        ensures
            self.key_map() == Map::<u32, ParamKey>::empty() <==> r == ParamSpan::NoKeys,
            forall|f: u32|
                is_first_key(self.key_map(), f) && frame <= f ==> r == ParamSpan::Settled(
                    self.key_map()[f].value,
                ),
            forall|fa: u32|
                is_floor_key(self.key_map(), frame, fa) && (exists|f0: u32| is_first_key(self.key_map(), f0) && f0 < frame) ==> {
                    if forall|g: u32| #[trigger] self.key_map().contains_key(g) ==> g <= frame {
                        r == ParamSpan::Settled(self.key_map()[fa].value)
                    } else if self.key_map()[fa].interp == ParamInterp::Hold {
                        r == ParamSpan::Settled(self.key_map()[fa].value)
                    } else {
                        exists|fb: u32| #[trigger] is_next_key(self.key_map(), frame, fb) && r == (ParamSpan::Between {
                            from_frame: fa,
                            from: self.key_map()[fa],
                            to_frame: fb,
                            to: self.key_map()[fb],
                            frame,
                        })
                    }
                },
    {
        let first = match self.keys.first() {
            Some(p) => p,
            None => { return ParamSpan::NoKeys; },
        };
        if frame <= first.0 {
            proof {
                assert forall|f: u32| is_first_key(self.key_map(), f) implies f == first.0 by {
                    assert(f <= first.0);
                    assert(first.0 <= f);
                }
            }
            return ParamSpan::Settled(first.1.value);
        }
        let (fa, ka) = match self.keys.floor(frame) {
            Some(p) => p,
            None => {
                assert(self.key_map().contains_key(first.0));
                return ParamSpan::NoKeys;
            },
        };
        proof {
            assert forall|f: u32| is_first_key(self.key_map(), f) implies f == first.0 by {
                assert(f <= first.0);
                assert(first.0 <= f);
            }
            assert forall|g: u32| is_floor_key(self.key_map(), frame, g) implies g == fa by {
                lemma_floor_unique(self.key_map(), frame, fa, g);
            }
        }
        match self.keys.next_after(frame) {
            None => ParamSpan::Settled(ka.value),
            Some((fb, kb)) => {
                match ka.interp {
                    ParamInterp::Hold => ParamSpan::Settled(ka.value),
                    _ => ParamSpan::Between { from_frame: fa, from: ka, to_frame: fb, to: kb, frame },
                }
            },
        }
    }
}

#[derive(Debug)]
pub struct XSheet {
    pub columns: Vec<Column>,
    /// Parameter columns (camera etc.), rendered after the drawing columns.
    pub params: Vec<ParamColumn>,
}

impl XSheet {
    pub open spec fn wf(&self) -> bool {
        &&& forall|i: int| 0 <= i < self.columns@.len() ==> #[trigger] self.columns@[i].wf()
        &&& forall|i: int| 0 <= i < self.params@.len() ==> #[trigger] self.params@[i].wf()
    }

    pub fn new() -> (x: Self)
        ensures
            x.wf(),
            x.columns@.len() == 0,
            x.params@.len() == 0,
    {
        XSheet { columns: Vec::new(), params: Vec::new() }
    }

    /// Index of the first column with this id.
    pub fn column_index(&self, id: ColumnId) -> (r: Option<usize>)
        ensures
            match r {
                Some(i) => i < self.columns@.len() && self.columns@[i as int].id == id && forall|j: int|
                    0 <= j < i ==> #[trigger] self.columns@[j].id != id,
                None => forall|j: int| 0 <= j < self.columns@.len() ==> #[trigger] self.columns@[j].id != id,
            },
    {
        let mut i: usize = 0;
        while i < self.columns.len()
            invariant
                i <= self.columns@.len(),
                forall|j: int| 0 <= j < i ==> #[trigger] self.columns@[j].id != id,
            decreases self.columns@.len() - i,
        {
            if self.columns[i].id == id {
                return Some(i);
            }
            i = i + 1;
        }
        None
    }

    pub fn column(&self, id: ColumnId) -> (r: Option<&Column>)
        ensures
            match r {
                Some(c) => exists|i: int| 0 <= i < self.columns@.len() && self.columns@[i] == *c && c.id == id && forall|j: int|
                    0 <= j < i ==> #[trigger] self.columns@[j].id != id,
                None => forall|j: int| 0 <= j < self.columns@.len() ==> #[trigger] self.columns@[j].id != id,
            },
    {
        match self.column_index(id) {
            Some(i) => Some(&self.columns[i]),
            None => None,
        }
    }

    /// Index of the first parameter column with this id.
    pub fn param_index(&self, id: ParamId) -> (r: Option<usize>)
        ensures
            match r {
                Some(i) => i < self.params@.len() && self.params@[i as int].id == id && forall|j: int|
                    0 <= j < i ==> #[trigger] self.params@[j].id != id,
                None => forall|j: int| 0 <= j < self.params@.len() ==> #[trigger] self.params@[j].id != id,
            },
    {
        let mut i: usize = 0;
        while i < self.params.len()
            invariant
                i <= self.params@.len(),
                forall|j: int| 0 <= j < i ==> #[trigger] self.params@[j].id != id,
            decreases self.params@.len() - i,
        {
            if self.params[i].id == id {
                return Some(i);
            }
            i = i + 1;
        }
        None
    }

    /// The first column with this id, to edit in place.
    pub fn column_mut(&mut self, id: ColumnId) -> (r: Option<&mut Column>)
        ensures
            match r {
                Some(c) => exists|i: int|
                    0 <= i < old(self).columns@.len() && old(self).columns@[i].id == id
                        && (forall|j: int| 0 <= j < i ==> #[trigger] old(self).columns@[j].id != id)
                        && *c == old(self).columns@[i]
                        && final(self).columns@ == old(self).columns@.update(i, *final(c))
                        && final(self).params == old(self).params,
                None => (forall|j: int| 0 <= j < old(self).columns@.len() ==> #[trigger] old(self).columns@[j].id != id)
                    && *final(self) == *old(self),
            },
    {
        match self.column_index(id) {
            Some(i) => Some(&mut self.columns[i]),
            None => None,
        }
    }

    pub fn param(&self, id: ParamId) -> (r: Option<&ParamColumn>)
        ensures
            match r {
                Some(c) => exists|i: int| 0 <= i < self.params@.len() && self.params@[i] == *c && c.id == id && forall|j: int|
                    0 <= j < i ==> #[trigger] self.params@[j].id != id,
                None => forall|j: int| 0 <= j < self.params@.len() ==> #[trigger] self.params@[j].id != id,
            },
    {
        match self.param_index(id) {
            Some(i) => Some(&self.params[i]),
            None => None,
        }
    }

    /// The first parameter column with this id, to edit in place.
    pub fn param_mut(&mut self, id: ParamId) -> (r: Option<&mut ParamColumn>)
        ensures
            match r {
                Some(c) => exists|i: int|
                    0 <= i < old(self).params@.len() && old(self).params@[i].id == id
                        && (forall|j: int| 0 <= j < i ==> #[trigger] old(self).params@[j].id != id)
                        && *c == old(self).params@[i]
                        && final(self).params@ == old(self).params@.update(i, *final(c))
                        && final(self).columns == old(self).columns,
                None => (forall|j: int| 0 <= j < old(self).params@.len() ==> #[trigger] old(self).params@[j].id != id)
                    && *final(self) == *old(self),
            },
    {
        match self.param_index(id) {
            Some(i) => Some(&mut self.params[i]),
            None => None,
        }
    }
}

} // verus!
