//! Tile-based raster storage — the CPU-side pixel authority.
//!
//! Pixels live here as plain integers, never GPU types. Tiles are 64×64
//! premultiplied RGBA16F, content-hashed so identical content dedupes and
//! the evaluator's cache survives save/load.
//!
//! ENCODING LAW: each u16 is an IEEE-754 HALF-FLOAT BIT PATTERN — NOT a
//! 0..=65535 normalized integer.

use vstd::prelude::*;
use crate::bytes::{lemma_u16s_le_len, push_i32_le, push_u64_le, u16s_from_le, u16s_le, u16s_to_le, i32_le, u64_le};
use crate::value::{fnv1a, fnv1a_spec};

verus! {

/// Tile edge length in pixels.
pub const TILE: usize = 64;
/// u16 count per tile: 64×64 pixels × 4 channels (RGBA16).
pub const TILE_LEN: usize = 16384;

/// Tile grid coordinate (tile-space, not pixels). Tile `(tx, ty)` covers
/// pixels `[tx*64 .. tx*64+64) × [ty*64 .. ty*64+64)`.
pub type TileCoord = (i32, i32);

/// Abstract state of a tile: its texels and its recorded hash.
pub struct TileView {
    pub rgba: Seq<u16>,
    pub hash: u64,
}

/// One 64×64 premultiplied-RGBA16F tile plus its content hash.
#[derive(Debug)]
pub struct TileData {
    /// Row-major RGBA16F bit patterns, length TILE_LEN, premultiplied alpha.
    pub rgba: Vec<u16>,
    /// fnv1a over the little-endian bytes — the content-address of this tile.
    pub hash: u64,
}

/// Every pixel's alpha is ±0 (f16 0x0000 / 0x8000).
pub open spec fn all_transparent(rgba: Seq<u16>) -> bool {
    forall|p: int| 0 <= p < rgba.len() / 4 ==> (#[trigger] rgba[4 * p + 3]) & 0x7fff == 0
}

impl TileData {
    pub open spec fn view(&self) -> TileView {
        TileView { rgba: self.rgba@, hash: self.hash }
    }

    /// The tile's hash is the FNV-1a of its texels' little-endian bytes.
    pub open spec fn hash_ok(&self) -> bool {
        self.hash == fnv1a_spec(u16s_le(self.rgba@))
    }

    /// A tile from exactly TILE_LEN texels; its hash is computed here.
    pub fn new(rgba: Vec<u16>) -> (t: Self)
        requires
            rgba@.len() == TILE_LEN,
        ensures
            t.rgba@ == rgba@,
            t.hash_ok(),
    {
        let bytes = u16s_to_le(rgba.as_slice());
        let hash = fnv1a(bytes.as_slice());
        TileData { rgba, hash }
    }

    pub fn from_vec(v: Vec<u16>) -> (t: Self)
        requires
            v@.len() == TILE_LEN,
        ensures
            t.rgba@ == v@,
            t.hash_ok(),
    {
        Self::new(v)
    }

    /// The raw little-endian bytes (for BLOB persistence).
    pub fn as_bytes(&self) -> (b: Vec<u8>)
        ensures
            b@ == u16s_le(self.rgba@),
    {
        u16s_to_le(self.rgba.as_slice())
    }

    /// Rebuild from persisted little-endian bytes; `None` unless there are
    /// exactly TILE_LEN * 2 of them.
    pub fn from_bytes(bytes: &[u8]) -> (r: Option<Self>)
        ensures
            r is None <==> bytes@.len() != TILE_LEN * 2,
            r matches Some(t) ==> u16s_le(t.rgba@) == bytes@ && t.rgba@.len() == TILE_LEN && t.hash_ok(),
    {
        if bytes.len() != TILE_LEN * 2 {
            return None;
        }
        let rgba = u16s_from_le(bytes);
        Some(Self::from_vec(rgba))
    }

    /// True if every pixel is fully transparent — such tiles need not be
    /// stored (a missing tile means "empty there").
    pub fn is_empty(&self) -> (r: bool)
        ensures
            r == all_transparent(self.rgba@),
    {
        let n = self.rgba.len() / 4;
        let mut p: usize = 0;
        while p < n
            invariant
                n == self.rgba@.len() / 4,
                4 * n <= self.rgba@.len() <= usize::MAX,
                p <= n,
                forall|q: int| 0 <= q < p ==> (#[trigger] self.rgba@[4 * q + 3]) & 0x7fff == 0,
            decreases n - p,
        {
            if self.rgba[4 * p + 3] & 0x7fff != 0 {
                return false;
            }
            p = p + 1;
        }
        true
    }

    /// A copy with the same texels and hash.
    pub fn duplicate(&self) -> (t: Self)
        ensures
            t.view() == self.view(),
    {
        let mut rgba: Vec<u16> = Vec::new();
        let mut i: usize = 0;
        while i < self.rgba.len()
            invariant
                i <= self.rgba@.len(),
                rgba@ == self.rgba@.take(i as int),
            decreases self.rgba@.len() - i,
        {
            rgba.push(self.rgba[i]);
            i = i + 1;
            assert(rgba@ =~= self.rgba@.take(i as int));
        }
        assert(self.rgba@.take(i as int) =~= self.rgba@);
        TileData { rgba, hash: self.hash }
    }
}

// ---- Ordered tile maps --------------------------------------------------------

/// Lexicographic order on tile coordinates (row of tiles, then column).
pub open spec fn coord_lt(a: TileCoord, b: TileCoord) -> bool {
    a.0 < b.0 || (a.0 == b.0 && a.1 < b.1)
}

pub fn coord_less(a: TileCoord, b: TileCoord) -> (r: bool)
    ensures
        r == coord_lt(a, b),
{
    a.0 < b.0 || (a.0 == b.0 && a.1 < b.1)
}

pub fn coord_eq(a: TileCoord, b: TileCoord) -> (r: bool)
    ensures
        r == (a == b),
{
    a.0 == b.0 && a.1 == b.1
}

pub open spec fn coords_ascending(s: Seq<(TileCoord, TileView)>) -> bool {
    forall|i: int, j: int| 0 <= i < j < s.len() ==> coord_lt(#[trigger] s[i].0, #[trigger] s[j].0)
}

pub open spec fn seq_has_coord(s: Seq<(TileCoord, TileView)>, c: TileCoord) -> bool {
    exists|i: int| 0 <= i < s.len() && #[trigger] s[i].0 == c
}

pub open spec fn coord_seq_to_map(s: Seq<(TileCoord, TileView)>) -> Map<TileCoord, TileView> {
    Map::new(
        |c: TileCoord| seq_has_coord(s, c),
        |c: TileCoord| s[choose|i: int| 0 <= i < s.len() && #[trigger] s[i].0 == c].1,
    )
}

pub proof fn lemma_coord_entry_in_map(s: Seq<(TileCoord, TileView)>, i: int)
    requires
        coords_ascending(s),
        0 <= i < s.len(),
    ensures
        coord_seq_to_map(s).contains_key(s[i].0),
        coord_seq_to_map(s)[s[i].0] == s[i].1,
{
    let c = s[i].0;
    assert(seq_has_coord(s, c));
    let j = choose|j: int| 0 <= j < s.len() && #[trigger] s[j].0 == c;
    if j < i {
        assert(coord_lt(s[j].0, s[i].0));
    } else if i < j {
        assert(coord_lt(s[i].0, s[j].0));
    }
}

/// Dropping the greatest coordinate drops exactly that key from the map.
pub proof fn lemma_coord_drop_last(s: Seq<(TileCoord, TileView)>)
    requires
        coords_ascending(s),
        s.len() > 0,
    ensures
        coord_seq_to_map(s.drop_last()) == coord_seq_to_map(s).remove(s.last().0),
{
    let d = s.drop_last();
    let last = s.last().0;
    assert(coords_ascending(d));
    assert forall|k: TileCoord| #[trigger] seq_has_coord(d, k) <==> (seq_has_coord(s, k) && k != last) by {
        if seq_has_coord(d, k) {
            let i = choose|i: int| 0 <= i < d.len() && #[trigger] d[i].0 == k;
            assert(s[i].0 == k);
            assert(coord_lt(s[i].0, s[s.len() - 1].0));
        }
        if seq_has_coord(s, k) && k != last {
            let i = choose|i: int| 0 <= i < s.len() && #[trigger] s[i].0 == k;
            assert(i != s.len() - 1);
            assert(d[i].0 == k);
        }
    }
    assert forall|k: TileCoord| #[trigger] coord_seq_to_map(d).contains_key(k) implies coord_seq_to_map(d)[k]
        == coord_seq_to_map(s).remove(last)[k] by {
        let i = choose|i: int| 0 <= i < d.len() && #[trigger] d[i].0 == k;
        lemma_coord_entry_in_map(d, i);
        lemma_coord_entry_in_map(s, i);
    }
    assert(coord_seq_to_map(d) =~= coord_seq_to_map(s).remove(last));
}

/// An ascending listing is determined by the map it lists.
pub proof fn lemma_coords_canonical(s1: Seq<(TileCoord, TileView)>, s2: Seq<(TileCoord, TileView)>)
    requires
        coords_ascending(s1),
        coords_ascending(s2),
        coord_seq_to_map(s1) == coord_seq_to_map(s2),
    ensures
        s1 == s2,
    decreases s1.len(),
{
    if s1.len() == 0 || s2.len() == 0 {
        if s1.len() > 0 {
            lemma_coord_entry_in_map(s1, 0);
            assert(!seq_has_coord(s2, s1[0].0));
        }
        if s2.len() > 0 {
            lemma_coord_entry_in_map(s2, 0);
            assert(!seq_has_coord(s1, s2[0].0));
        }
        assert(s1 =~= s2);
    } else {
        let n1 = s1.len() - 1;
        let n2 = s2.len() - 1;
        lemma_coord_entry_in_map(s1, n1);
        lemma_coord_entry_in_map(s2, n2);
        let a = s1[n1].0;
        let b = s2[n2].0;
        let j = choose|j: int| 0 <= j < s2.len() && #[trigger] s2[j].0 == a;
        let k = choose|k: int| 0 <= k < s1.len() && #[trigger] s1[k].0 == b;
        if j < n2 {
            assert(coord_lt(s2[j].0, s2[n2].0));
        }
        if k < n1 {
            assert(coord_lt(s1[k].0, s1[n1].0));
        }
        assert(a == b);
        lemma_coord_drop_last(s1);
        lemma_coord_drop_last(s2);
        lemma_coords_canonical(s1.drop_last(), s2.drop_last());
        assert(s1 =~= s1.drop_last().push(s1.last()));
        assert(s2 =~= s2.drop_last().push(s2.last()));
    }
}

/// The ascending listing of a tile map.
pub open spec fn tile_listing(m: Map<TileCoord, TileView>) -> Seq<(TileCoord, TileView)> {
    choose|s: Seq<(TileCoord, TileView)>| coords_ascending(s) && coord_seq_to_map(s) == m
}

/// The content hash of a tile grid: FNV-1a over (coordinate, tile hash)
/// in ascending coordinate order.
pub open spec fn raster_hash(m: Map<TileCoord, TileView>) -> u64 {
    fnv1a_spec(tiles_hash_bytes(tile_listing(m)))
}

pub open spec fn tile_pairs(s: Seq<(TileCoord, TileData)>) -> Seq<(TileCoord, TileView)> {
    s.map_values(|e: (TileCoord, TileData)| (e.0, e.1.view()))
}

/// A sparse grid of tiles, ascending by coordinate.
#[derive(Debug)]
pub struct TileMap {
    pub entries: Vec<(TileCoord, TileData)>,
}

impl TileMap {
    pub open spec fn pairs(&self) -> Seq<(TileCoord, TileView)> {
        tile_pairs(self.entries@)
    }

    /// A well-formed map's entries are the ascending listing of its view.
    pub proof fn lemma_pairs_listing(&self)
        requires
            self.wf(),
        ensures
            tile_listing(self@) == self.pairs(),
    {
        let s = tile_listing(self@);
        assert(coords_ascending(self.pairs()) && coord_seq_to_map(self.pairs()) == self@);
        lemma_coords_canonical(s, self.pairs());
    }

    /// A copy with the same tiles.
    pub fn duplicate(&self) -> (m: Self)
        ensures
            m.pairs() == self.pairs(),
    {
        let mut entries: Vec<(TileCoord, TileData)> = Vec::new();
        let mut i: usize = 0;
        while i < self.entries.len()
            invariant
                i <= self.entries@.len(),
                tile_pairs(entries@) == tile_pairs(self.entries@).take(i as int),
            decreases self.entries@.len() - i,
        {
            let c = self.entries[i].0;
            let t = self.entries[i].1.duplicate();
            let ghost pre = entries@;
            entries.push((c, t));
            i = i + 1;
            proof {
                assert(tile_pairs(entries@) =~= tile_pairs(pre).push((c, t.view())));
                assert(tile_pairs(entries@) =~= tile_pairs(self.entries@).take(i as int));
            }
        }
        proof {
            assert(tile_pairs(self.entries@).take(i as int) =~= tile_pairs(self.entries@));
        }
        TileMap { entries }
    }

    pub open spec fn wf(&self) -> bool {
        coords_ascending(self.pairs())
    }

    pub open spec fn view(&self) -> Map<TileCoord, TileView> {
        coord_seq_to_map(self.pairs())
    }

    pub fn new() -> (m: Self)
        ensures
            m.wf(),
            m@ == Map::<TileCoord, TileView>::empty(),
            m.pairs().len() == 0,
    {
        let m = TileMap { entries: Vec::new() };
        assert(m@ =~= Map::<TileCoord, TileView>::empty());
        m
    }

    fn lower_bound(&self, c: TileCoord) -> (idx: usize)
        requires
            self.wf(),
        ensures
            idx <= self.pairs().len(),
            forall|i: int| 0 <= i < idx ==> coord_lt(#[trigger] self.pairs()[i].0, c),
            forall|i: int| idx <= i < self.pairs().len() ==> !coord_lt(#[trigger] self.pairs()[i].0, c),
    {
        let mut lo: usize = 0;
        let mut hi: usize = self.entries.len();
        while lo < hi
            invariant
                lo <= hi <= self.pairs().len(),
                coords_ascending(self.pairs()),
                forall|i: int| 0 <= i < lo ==> coord_lt(#[trigger] self.pairs()[i].0, c),
                forall|i: int| hi <= i < self.pairs().len() ==> !coord_lt(#[trigger] self.pairs()[i].0, c),
            decreases hi - lo,
        {
            let mid = lo + (hi - lo) / 2;
            let ghost s = self.pairs();
            assert(s[mid as int].0 == self.entries@[mid as int].0);
            if coord_less(self.entries[mid].0, c) {
                proof {
                    assert forall|i: int| 0 <= i <= mid implies coord_lt(#[trigger] s[i].0, c) by {
                        if i < mid {
                            assert(coord_lt(s[i].0, s[mid as int].0));
                        }
                    }
                }
                lo = mid + 1;
            } else {
                proof {
                    assert forall|i: int| mid <= i < s.len() implies !coord_lt(#[trigger] s[i].0, c) by {
                        if i > mid {
                            assert(coord_lt(s[mid as int].0, s[i].0));
                        }
                    }
                }
                hi = mid;
            }
        }
        lo
    }

    fn find(&self, c: TileCoord) -> (r: Option<usize>)
        requires
            self.wf(),
        ensures
            match r {
                Some(i) => i < self.pairs().len() && self.pairs()[i as int].0 == c,
                None => !self@.contains_key(c),
            },
    {
        let idx = self.lower_bound(c);
        if idx < self.entries.len() && coord_eq(self.entries[idx].0, c) {
            Some(idx)
        } else {
            proof {
                if seq_has_coord(self.pairs(), c) {
                    let j = choose|j: int| 0 <= j < self.pairs().len() && #[trigger] self.pairs()[j].0 == c;
                    if j > idx as int {
                        assert(coord_lt(self.pairs()[idx as int].0, self.pairs()[j].0));
                    }
                }
            }
            None
        }
    }

    /// The tile at `c`, if any.
    pub fn get(&self, c: TileCoord) -> (r: Option<&TileData>)
        requires
            self.wf(),
        ensures
            match r {
                Some(t) => self@.contains_key(c) && self@[c] == t.view(),
                None => !self@.contains_key(c),
            },
    {
        match self.find(c) {
            Some(i) => {
                proof {
                    lemma_coord_entry_in_map(self.pairs(), i as int);
                }
                Some(&self.entries[i].1)
            },
            None => None,
        }
    }

    /// Place `tile` at `c`; returns the tile that was there.
    pub fn insert(&mut self, c: TileCoord, tile: TileData) -> (prev: Option<TileData>)
        requires
            old(self).wf(),
        ensures
            final(self).wf(),
            final(self)@ == old(self)@.insert(c, tile.view()),
            match prev {
                Some(t) => old(self)@.contains_key(c) && old(self)@[c] == t.view(),
                None => !old(self)@.contains_key(c),
            },
    {
        let ghost tv = tile.view();
        let ghost old_s = self.pairs();
        let idx = self.lower_bound(c);
        if idx < self.entries.len() && coord_eq(self.entries[idx].0, c) {
            proof {
                lemma_coord_entry_in_map(old_s, idx as int);
            }
            let old_entry = self.entries.remove(idx);
            self.entries.insert(idx, (c, tile));
            proof {
                let s = self.pairs();
                assert(s =~= old_s.update(idx as int, (c, tv)));
                assert(coords_ascending(s)) by {
                    assert forall|i: int, j: int| 0 <= i < j < s.len() implies coord_lt(#[trigger] s[i].0, #[trigger] s[j].0) by {
                        assert(coord_lt(old_s[i].0, old_s[j].0));
                    }
                }
                assert forall|k: TileCoord| #[trigger] seq_has_coord(s, k) == seq_has_coord(old_s, k) by {
                    if seq_has_coord(s, k) {
                        let i = choose|i: int| 0 <= i < s.len() && #[trigger] s[i].0 == k;
                        assert(old_s[i].0 == k);
                    }
                    if seq_has_coord(old_s, k) {
                        let i = choose|i: int| 0 <= i < old_s.len() && #[trigger] old_s[i].0 == k;
                        assert(s[i].0 == k);
                    }
                }
                assert forall|k: TileCoord| coord_seq_to_map(s).contains_key(k) implies coord_seq_to_map(s)[k]
                    == old(self)@.insert(c, tv)[k] by {
                    let i = choose|i: int| 0 <= i < s.len() && #[trigger] s[i].0 == k;
                    lemma_coord_entry_in_map(s, i);
                    if i != idx as int {
                        lemma_coord_entry_in_map(old_s, i);
                    }
                }
                assert(coord_seq_to_map(s) =~= old(self)@.insert(c, tv));
            }
            Some(old_entry.1)
        } else {
            self.entries.insert(idx, (c, tile));
            proof {
                let s = self.pairs();
                assert(s =~= old_s.insert(idx as int, (c, tv)));
                assert(coords_ascending(s)) by {
                    assert forall|i: int, j: int| 0 <= i < j < s.len() implies coord_lt(#[trigger] s[i].0, #[trigger] s[j].0) by {
                        if j < idx {
                            assert(coord_lt(old_s[i].0, old_s[j].0));
                        } else if j == idx {
                        } else if i < idx {
                            assert(s[j] == old_s[j - 1]);
                            if idx < old_s.len() && j - 1 > idx {
                                assert(coord_lt(old_s[idx as int].0, old_s[j - 1].0));
                            }
                        } else if i == idx {
                            assert(s[j] == old_s[j - 1]);
                            if j - 1 > idx {
                                assert(coord_lt(old_s[idx as int].0, old_s[j - 1].0));
                            }
                        } else {
                            assert(coord_lt(old_s[i - 1].0, old_s[j - 1].0));
                        }
                    }
                }
                assert forall|k: TileCoord| seq_has_coord(s, k) <==> (seq_has_coord(old_s, k) || k == c) by {
                    if seq_has_coord(s, k) {
                        let i = choose|i: int| 0 <= i < s.len() && #[trigger] s[i].0 == k;
                        if i < idx {
                            assert(old_s[i].0 == k);
                        } else if i > idx {
                            assert(old_s[i - 1].0 == k);
                        }
                    }
                    if seq_has_coord(old_s, k) {
                        let i = choose|i: int| 0 <= i < old_s.len() && #[trigger] old_s[i].0 == k;
                        if i < idx {
                            assert(s[i].0 == k);
                        } else {
                            assert(s[i + 1].0 == k);
                        }
                    }
                    if k == c {
                        assert(s[idx as int].0 == k);
                    }
                }
                assert forall|k: TileCoord| coord_seq_to_map(s).contains_key(k) implies coord_seq_to_map(s)[k]
                    == old(self)@.insert(c, tv)[k] by {
                    let i = choose|i: int| 0 <= i < s.len() && #[trigger] s[i].0 == k;
                    lemma_coord_entry_in_map(s, i);
                    if i < idx {
                        assert(coord_lt(s[i].0, s[idx as int].0));
                        lemma_coord_entry_in_map(old_s, i);
                    } else if i > idx {
                        assert(coord_lt(s[idx as int].0, s[i].0));
                        lemma_coord_entry_in_map(old_s, i - 1);
                    }
                }
                assert(coord_seq_to_map(s) =~= old(self)@.insert(c, tv));
                assert(!old(self)@.contains_key(c)) by {
                    if seq_has_coord(old_s, c) {
                        let j = choose|j: int| 0 <= j < old_s.len() && #[trigger] old_s[j].0 == c;
                        if j > idx as int {
                            assert(coord_lt(old_s[idx as int].0, old_s[j].0));
                        }
                    }
                }
            }
            None
        }
    }

    /// Remove the tile at `c`; returns it.
    pub fn remove(&mut self, c: TileCoord) -> (prev: Option<TileData>)
        requires
            old(self).wf(),
        ensures
            final(self).wf(),
            final(self)@ == old(self)@.remove(c),
            match prev {
                Some(t) => old(self)@.contains_key(c) && old(self)@[c] == t.view(),
                None => !old(self)@.contains_key(c),
            },
    {
        let ghost old_s = self.pairs();
        match self.find(c) {
            None => {
                proof {
                    assert(old(self)@.remove(c) =~= old(self)@);
                }
                None
            },
            Some(idx) => {
                proof {
                    lemma_coord_entry_in_map(old_s, idx as int);
                }
                let e = self.entries.remove(idx);
                proof {
                    let s = self.pairs();
                    assert(s =~= old_s.remove(idx as int));
                    assert(coords_ascending(s)) by {
                        assert forall|i: int, j: int| 0 <= i < j < s.len() implies coord_lt(#[trigger] s[i].0, #[trigger] s[j].0) by {
                            if j < idx {
                                assert(coord_lt(old_s[i].0, old_s[j].0));
                            } else if i < idx {
                                assert(coord_lt(old_s[i].0, old_s[j + 1].0));
                            } else {
                                assert(coord_lt(old_s[i + 1].0, old_s[j + 1].0));
                            }
                        }
                    }
                    assert forall|k: TileCoord| seq_has_coord(s, k) <==> (seq_has_coord(old_s, k) && k != c) by {
                        if seq_has_coord(s, k) {
                            let i = choose|i: int| 0 <= i < s.len() && #[trigger] s[i].0 == k;
                            if i < idx {
                                assert(old_s[i].0 == k);
                                assert(coord_lt(old_s[i].0, old_s[idx as int].0));
                            } else {
                                assert(old_s[i + 1].0 == k);
                                assert(coord_lt(old_s[idx as int].0, old_s[i + 1].0));
                            }
                        }
                        if seq_has_coord(old_s, k) && k != c {
                            let i = choose|i: int| 0 <= i < old_s.len() && #[trigger] old_s[i].0 == k;
                            if i < idx {
                                assert(s[i].0 == k);
                            } else {
                                assert(i != idx);
                                assert(s[i - 1].0 == k);
                            }
                        }
                    }
                    assert forall|k: TileCoord| coord_seq_to_map(s).contains_key(k) implies coord_seq_to_map(s)[k]
                        == old(self)@.remove(c)[k] by {
                        let i = choose|i: int| 0 <= i < s.len() && #[trigger] s[i].0 == k;
                        lemma_coord_entry_in_map(s, i);
                        if i < idx {
                            lemma_coord_entry_in_map(old_s, i);
                        } else {
                            lemma_coord_entry_in_map(old_s, i + 1);
                        }
                    }
                    assert(coord_seq_to_map(s) =~= old(self)@.remove(c));
                }
                Some(e.1)
            },
        }
    }

    pub fn len(&self) -> (n: usize)
        ensures
            n == self.pairs().len(),
    {
        self.entries.len()
    }
}

// ---- Raster layers --------------------------------------------------------------

/// The bytes folded into a raster layer's content hash: per tile, its
/// coordinate and its hash, ascending coordinate order.
pub open spec fn tiles_hash_bytes(s: Seq<(TileCoord, TileView)>) -> Seq<u8>
    decreases s.len(),
{
    if s.len() == 0 {
        Seq::empty()
    } else {
        let e = s.last();
        tiles_hash_bytes(s.drop_last()) + i32_le(e.0.0) + i32_le(e.0.1) + u64_le(e.1.hash)
    }
}

/// One raster surface: a sparse grid of tiles. A missing tile is fully
/// transparent, so a blank layer costs nothing.
#[derive(Debug)]
pub struct RasterLayer {
    pub tiles: TileMap,
}

impl RasterLayer {
    pub open spec fn wf(&self) -> bool {
        self.tiles.wf()
    }

    /// A copy with the same tiles.
    pub fn duplicate(&self) -> (r: Self)
        ensures
            r.tiles.pairs() == self.tiles.pairs(),
    {
        RasterLayer { tiles: self.tiles.duplicate() }
    }

    pub fn empty() -> (r: Self)
        ensures
            r.wf(),
            r.tiles@ == Map::<TileCoord, TileView>::empty(),
            r.tiles.pairs().len() == 0,
    {
        RasterLayer { tiles: TileMap::new() }
    }

    /// Content-addressable hash: folds `(coord, tile.hash)` in ascending
    /// coordinate order — no pixel bytes, just per-tile hashes.
    pub fn content_hash(&self) -> (h: u64)
        requires
            self.wf(),
        ensures
            h == fnv1a_spec(tiles_hash_bytes(self.tiles.pairs())),
            h == raster_hash(self.tiles@),
    {
        proof {
            self.tiles.lemma_pairs_listing();
        }
        let mut bytes: Vec<u8> = Vec::new();
        let mut i: usize = 0;
        let ghost ps = self.tiles.pairs();
        while i < self.tiles.entries.len()
            invariant
                ps == self.tiles.pairs(),
                i <= ps.len(),
                bytes@ == tiles_hash_bytes(ps.take(i as int)),
            decreases ps.len() - i,
        {
            proof {
                assert(ps.take(i as int + 1).drop_last() =~= ps.take(i as int));
            }
            let (c, ref t) = self.tiles.entries[i];
            push_i32_le(&mut bytes, c.0);
            push_i32_le(&mut bytes, c.1);
            push_u64_le(&mut bytes, t.hash);
            i = i + 1;
        }
        proof {
            assert(ps.take(i as int) =~= ps);
        }
        fnv1a(bytes.as_slice())
    }
}

} // verus!
