//! Document model: Project -> Scenes -> Cuts.
//!
//! The Cut is the atomic production unit: it owns a drawing library, an
//! X-sheet, and a node graph. The X-sheet references drawings by id; the
//! graph references X-sheet columns by id.
//!
//! Real-valued quantities (pen coordinates, widths, opacities, dpi) are kept
//! as their IEEE-754 single-precision bit patterns: the document stores and
//! hashes them, the shell does the arithmetic.

use vstd::prelude::*;
use crate::bytes::{push_u32_le, push_u64_le, u32_le, u64_le};
use crate::graph::{Graph, GraphView, Rgba8, pins_match};
use crate::ids::{CutId, DrawingId, ImageId, LayerId, ParamId, SceneId};
use crate::raster::{RasterLayer, TileCoord, TileMap, TileView, raster_hash};
use crate::value::{fnv1a, fnv1a_spec};
use crate::xsheet::{ColumnView, ParamColumnView, ParamSpan, XSheet};

verus! {

/// 1.0 as an f32 bit pattern.
pub const F32_ONE: u32 = 0x3f80_0000;

/// One sampled pen point in paper coordinates. `tilt_x`/`tilt_y` are the
/// pen's tilt from vertical (radians); a vertical pen, and mouse input, is
/// (0, 0). Tilt is not part of the content hash.
#[derive(Debug, Clone, Copy, PartialEq, Eq, Structural)]
pub struct StrokePoint {
    pub x: u32,
    pub y: u32,
    /// 0..1 tablet pressure (0.5 for mouse input).
    pub pressure: u32,
    pub tilt_x: u32,
    pub tilt_y: u32,
}

pub struct StrokeView {
    pub points: Seq<StrokePoint>,
    pub base_width: u32,
    pub color: Rgba8,
}

/// A single pen stroke. Rendered width = base_width * point pressure.
#[derive(Debug)]
pub struct Stroke {
    pub points: Vec<StrokePoint>,
    pub base_width: u32,
    pub color: Rgba8,
}

pub open spec fn strokes_view(s: Seq<Stroke>) -> Seq<StrokeView> {
    s.map_values(|x: Stroke| x.view())
}

impl Stroke {
    pub open spec fn view(&self) -> StrokeView {
        StrokeView { points: self.points@, base_width: self.base_width, color: self.color }
    }

    /// A copy with the same points, width and colour.
    pub fn duplicate(&self) -> (s: Self)
        ensures
            s.view() == self.view(),
    {
        let mut points: Vec<StrokePoint> = Vec::new();
        let mut i: usize = 0;
        while i < self.points.len()
            invariant
                i <= self.points@.len(),
                points@ == self.points@.take(i as int),
            decreases self.points@.len() - i,
        {
            points.push(self.points[i]);
            i = i + 1;
            assert(points@ =~= self.points@.take(i as int));
        }
        assert(self.points@.take(i as int) =~= self.points@);
        Stroke { points, base_width: self.base_width, color: self.color }
    }
}

/// A copy of a stroke list.
pub fn copy_strokes(v: &Vec<Stroke>) -> (r: Vec<Stroke>)
    ensures
        strokes_view(r@) == strokes_view(v@),
{
    let mut r: Vec<Stroke> = Vec::new();
    let mut i: usize = 0;
    while i < v.len()
        invariant
            i <= v@.len(),
            strokes_view(r@) == strokes_view(v@).take(i as int),
        decreases v@.len() - i,
    {
        let s = v[i].duplicate();
        let ghost pre = r@;
        r.push(s);
        i = i + 1;
        proof {
            assert(strokes_view(r@) =~= strokes_view(pre).push(s.view()));
            assert(strokes_view(r@) =~= strokes_view(v@).take(i as int));
        }
    }
    assert(strokes_view(v@).take(i as int) =~= strokes_view(v@));
    r
}

pub struct LayerPropsView {
    pub name: Seq<char>,
    pub visible: bool,
    pub opacity: u32,
}

/// Per-layer compositing properties, kept as one struct so an edit replaces
/// it wholesale.
#[derive(Debug)]
pub struct LayerProps {
    /// Free text: "line", "color", "shadow", "correction", ...
    pub name: String,
    pub visible: bool,
    /// 0..=1 (f32 bits), applied when compositing this layer into the cel.
    pub opacity: u32,
}

impl LayerProps {
    pub open spec fn view(&self) -> LayerPropsView {
        LayerPropsView { name: self.name@, visible: self.visible, opacity: self.opacity }
    }

    pub fn duplicate(&self) -> (p: Self)
        ensures
            p.view() == self.view(),
    {
        LayerProps { name: self.name.clone(), visible: self.visible, opacity: self.opacity }
    }
}

impl Default for LayerProps {
    /// A visible, fully opaque layer named "paint".
    fn default() -> (p: Self)
        ensures
            p.name@ == "paint"@,
            p.visible,
            p.opacity == F32_ONE,
    {
        LayerProps { name: "paint".to_owned(), visible: true, opacity: F32_ONE }
    }
}

pub struct CelLayerView {
    pub id: LayerId,
    pub props: LayerPropsView,
    pub tiles: Map<TileCoord, TileView>,
}

/// One paint layer inside a cel (line art, colour, shadow, correction...).
/// Id-addressed so commands stay exact under any undo/reorder interleaving.
#[derive(Debug)]
pub struct CelLayer {
    pub id: LayerId,
    pub props: LayerProps,
    pub raster: RasterLayer,
}

pub open spec fn layers_view(s: Seq<CelLayer>) -> Seq<CelLayerView> {
    s.map_values(|l: CelLayer| l.view())
}

pub open spec fn layers_wf(s: Seq<CelLayer>) -> bool {
    forall|i: int| 0 <= i < s.len() ==> (#[trigger] s[i]).raster.wf()
}

/// The bytes a cel layer's content hash folds: visibility, opacity bits,
/// and the raster's own content hash. The name is left out.
pub open spec fn layer_hash_bytes(l: CelLayerView) -> Seq<u8> {
    seq![if l.props.visible { 1u8 } else { 0u8 }] + u32_le(l.props.opacity) + u64_le(raster_hash(l.tiles))
}

pub open spec fn layer_hash(l: CelLayerView) -> u64 {
    fnv1a_spec(layer_hash_bytes(l))
}

impl CelLayer {
    pub open spec fn view(&self) -> CelLayerView {
        CelLayerView { id: self.id, props: self.props.view(), tiles: self.raster.tiles@ }
    }

    /// An empty layer with default properties and the given name.
    pub fn new(id: LayerId, name: String) -> (l: Self)
        ensures
            l.raster.wf(),
            l.id == id,
            l.props.name@ == name@,
            l.props.visible,
            l.props.opacity == F32_ONE,
            l.raster.tiles@ == Map::<TileCoord, TileView>::empty(),
    {
        CelLayer {
            id,
            props: LayerProps { name, visible: true, opacity: F32_ONE },
            raster: RasterLayer::empty(),
        }
    }

    /// Folds what affects the composited pixels — visibility, opacity and
    /// the raster content. Renaming a layer never changes it.
    pub fn content_hash(&self) -> (h: u64)
        requires
            self.raster.wf(),
        ensures
            h == layer_hash(self.view()),
    {
        let mut bytes: Vec<u8> = Vec::new();
        bytes.push(if self.props.visible { 1u8 } else { 0u8 });
        push_u32_le(&mut bytes, self.props.opacity);
        let rh = self.raster.content_hash();
        push_u64_le(&mut bytes, rh);
        fnv1a(bytes.as_slice())
    }

    pub fn duplicate(&self) -> (l: Self)
        ensures
            l.view() == self.view(),
            l.raster.tiles.pairs() == self.raster.tiles.pairs(),
    {
        CelLayer { id: self.id, props: self.props.duplicate(), raster: self.raster.duplicate() }
    }
}

/// A copy of a layer stack.
pub fn copy_layers(v: &Vec<CelLayer>) -> (r: Vec<CelLayer>)
    ensures
        layers_view(r@) == layers_view(v@),
        layers_wf(v@) ==> layers_wf(r@),
{
    let mut r: Vec<CelLayer> = Vec::new();
    let mut i: usize = 0;
    while i < v.len()
        invariant
            i <= v@.len(),
            layers_view(r@) == layers_view(v@).take(i as int),
            r@.len() == i,
            forall|k: int| 0 <= k < i ==> (#[trigger] r@[k]).raster.tiles.pairs() == v@[k].raster.tiles.pairs(),
        decreases v@.len() - i,
    {
        let l = v[i].duplicate();
        let ghost pre = r@;
        r.push(l);
        i = i + 1;
        proof {
            assert(layers_view(r@) =~= layers_view(pre).push(l.view()));
            assert(layers_view(r@) =~= layers_view(v@).take(i as int));
        }
    }
    assert(layers_view(v@).take(i as int) =~= layers_view(v@));
    proof {
        if layers_wf(v@) {
            assert forall|k: int| 0 <= k < r@.len() implies (#[trigger] r@[k]).raster.wf() by {
                assert(v@[k].raster.wf());
            }
        }
    }
    r
}

// ---- Drawings -------------------------------------------------------------------

pub struct DrawingView {
    pub name: Seq<char>,
    pub strokes: Seq<StrokeView>,
    pub layers: Seq<CelLayerView>,
}

/// A cel: vector strokes under an ordered stack of raster paint layers.
/// `layers[0]` is the bottom of the stack; an empty stack is a vector-only
/// cel.
#[derive(Debug)]
pub struct Drawing {
    pub id: DrawingId,
    pub name: String,
    pub strokes: Vec<Stroke>,
    pub layers: Vec<CelLayer>,
}

pub open spec fn point_bytes(p: StrokePoint) -> Seq<u8> {
    u32_le(p.x) + u32_le(p.y) + u32_le(p.pressure)
}

pub open spec fn points_bytes(s: Seq<StrokePoint>) -> Seq<u8>
    decreases s.len(),
{
    if s.len() == 0 {
        Seq::empty()
    } else {
        points_bytes(s.drop_last()) + point_bytes(s.last())
    }
}

pub open spec fn stroke_bytes(s: StrokeView) -> Seq<u8> {
    u32_le(s.base_width) + seq![s.color.r, s.color.g, s.color.b, s.color.a] + points_bytes(s.points)
}

pub open spec fn strokes_bytes(s: Seq<StrokeView>) -> Seq<u8>
    decreases s.len(),
{
    if s.len() == 0 {
        Seq::empty()
    } else {
        strokes_bytes(s.drop_last()) + stroke_bytes(s.last())
    }
}

pub open spec fn layers_hash_bytes(s: Seq<CelLayerView>) -> Seq<u8>
    decreases s.len(),
{
    if s.len() == 0 {
        Seq::empty()
    } else {
        layers_hash_bytes(s.drop_last()) + u64_le(layer_hash(s.last()))
    }
}

/// The ASCII bytes of the word "layers".
pub open spec fn layers_tag() -> Seq<u8> {
    seq![108u8, 97u8, 121u8, 101u8, 114u8, 115u8]
}

/// The bytes a drawing's content hash folds: every stroke (width bits,
/// colour, then x/y/pressure bits of each point), then — when the stack is
/// non-empty — the tag "layers" and each layer's hash in stack order.
pub open spec fn drawing_hash_bytes(d: DrawingView) -> Seq<u8> {
    strokes_bytes(d.strokes) + if d.layers.len() == 0 {
        Seq::<u8>::empty()
    } else {
        layers_tag() + layers_hash_bytes(d.layers)
    }
}

pub open spec fn drawing_hash(d: DrawingView) -> u64 {
    fnv1a_spec(drawing_hash_bytes(d))
}

/// Index of the first layer with this id.
pub open spec fn layer_pos(layers: Seq<CelLayerView>, id: LayerId) -> Option<int> {
    if exists|i: int| 0 <= i < layers.len() && #[trigger] layers[i].id == id {
        Some(choose|i: int| 0 <= i < layers.len() && layers[i].id == id && forall|j: int| 0 <= j < i ==> #[trigger] layers[j].id != id)
    } else {
        None
    }
}

impl Drawing {
    pub open spec fn view(&self) -> DrawingView {
        DrawingView { name: self.name@, strokes: strokes_view(self.strokes@), layers: layers_view(self.layers@) }
    }

    pub open spec fn wf(&self) -> bool {
        layers_wf(self.layers@)
    }

    pub fn new(id: DrawingId, name: String) -> (d: Self)
        ensures
            d.wf(),
            d.id == id,
            d.name@ == name@,
            d.strokes@.len() == 0,
            d.layers@.len() == 0,
    {
        Drawing { id, name, strokes: Vec::new(), layers: Vec::new() }
    }

    /// Index of the first layer with this id.
    pub fn layer_index(&self, id: LayerId) -> (r: Option<usize>)
        ensures
            match r {
                Some(i) => i < self.layers@.len() && self.layers@[i as int].id == id && forall|j: int|
                    0 <= j < i ==> #[trigger] self.layers@[j].id != id,
                None => forall|j: int| 0 <= j < self.layers@.len() ==> #[trigger] self.layers@[j].id != id,
            },
            r matches Some(i) ==> layer_pos(self.view().layers, id) == Some(i as int),
            r is None ==> layer_pos(self.view().layers, id) is None,
    {
        let mut i: usize = 0;
        while i < self.layers.len()
            invariant
                i <= self.layers@.len(),
                forall|j: int| 0 <= j < i ==> #[trigger] self.layers@[j].id != id,
            decreases self.layers@.len() - i,
        {
            if self.layers[i].id == id {
                proof {
                    let ls = self.view().layers;
                    assert(ls[i as int].id == id);
                    let k = choose|k: int| 0 <= k < ls.len() && ls[k].id == id && forall|j: int| 0 <= j < k ==> #[trigger] ls[j].id != id;
                    if k < i {
                        assert(self.layers@[k].id != id);
                    }
                    if k > i {
                        assert(ls[i as int].id != id);
                    }
                }
                return Some(i);
            }
            i = i + 1;
        }
        proof {
            let ls = self.view().layers;
            if exists|j: int| 0 <= j < ls.len() && #[trigger] ls[j].id == id {
                let j = choose|j: int| 0 <= j < ls.len() && #[trigger] ls[j].id == id;
                assert(self.layers@[j].id != id);
            }
        }
        None
    }

    /// The first layer with this id.
    /// The first layer with this id, to edit in place.
    pub fn layer_mut(&mut self, id: LayerId) -> (r: Option<&mut CelLayer>)
        ensures
            match r {
                Some(l) => exists|i: int|
                    layer_pos(old(self).view().layers, id) == Some(i) && 0 <= i < old(self).layers@.len()
                        && *l == old(self).layers@[i]
                        && *final(self) == (Drawing { layers: final(self).layers, ..*old(self) })
                        && final(self).layers@ == old(self).layers@.update(i, *final(l)),
                None => layer_pos(old(self).view().layers, id) is None && *final(self) == *old(self),
            },
    {
        match self.layer_index(id) {
            Some(i) => Some(&mut self.layers[i]),
            None => None,
        }
    }

    pub fn layer(&self, id: LayerId) -> (r: Option<&CelLayer>)
        ensures
            match r {
                Some(l) => exists|i: int| 0 <= i < self.layers@.len() && self.layers@[i] == *l && l.id == id
                    && layer_pos(self.view().layers, id) == Some(i),
                None => layer_pos(self.view().layers, id) is None,
            },
    {
        match self.layer_index(id) {
            Some(i) => Some(&self.layers[i]),
            None => None,
        }
    }

    /// Stable content hash, folded into evaluation recipes so editing
    /// artwork (vector or raster) invalidates cached values naturally.
    pub fn content_hash(&self) -> (h: u64)
        requires
            self.wf(),
        ensures
            h == drawing_hash(self.view()),
    {
        let mut bytes: Vec<u8> = Vec::new();
        let ghost sv = strokes_view(self.strokes@);
        let mut i: usize = 0;
        while i < self.strokes.len()
            invariant
                sv == strokes_view(self.strokes@),
                i <= sv.len(),
                bytes@ == strokes_bytes(sv.take(i as int)),
            decreases sv.len() - i,
        {
            let s = &self.strokes[i];
            let ghost before = bytes@;
            push_u32_le(&mut bytes, s.base_width);
            bytes.push(s.color.r);
            bytes.push(s.color.g);
            bytes.push(s.color.b);
            bytes.push(s.color.a);
            let ghost head = bytes@;
            let mut k: usize = 0;
            while k < s.points.len()
                invariant
                    k <= s.points@.len(),
                    bytes@ == head + points_bytes(s.points@.take(k as int)),
                decreases s.points@.len() - k,
            {
                proof {
                    assert(s.points@.take(k as int + 1).drop_last() =~= s.points@.take(k as int));
                }
                let p = s.points[k];
                push_u32_le(&mut bytes, p.x);
                push_u32_le(&mut bytes, p.y);
                push_u32_le(&mut bytes, p.pressure);
                k = k + 1;
                proof {
                    assert(bytes@ =~= head + points_bytes(s.points@.take(k as int)));
                }
            }
            proof {
                assert(s.points@.take(k as int) =~= s.points@);
                assert(sv.take(i as int + 1).drop_last() =~= sv.take(i as int));
                assert(sv[i as int] == s.view());
                assert(bytes@ =~= strokes_bytes(sv.take(i as int)) + stroke_bytes(sv[i as int]));
            }
            i = i + 1;
        }
        proof {
            assert(sv.take(i as int) =~= sv);
        }
        if self.layers.len() > 0 {
            bytes.push(108u8);
            bytes.push(97u8);
            bytes.push(121u8);
            bytes.push(101u8);
            bytes.push(114u8);
            bytes.push(115u8);
            let ghost head = bytes@;
            let ghost lv = layers_view(self.layers@);
            let mut j: usize = 0;
            while j < self.layers.len()
                invariant
                    lv == layers_view(self.layers@),
                    layers_wf(self.layers@),
                    j <= lv.len(),
                    bytes@ == head + layers_hash_bytes(lv.take(j as int)),
                decreases lv.len() - j,
            {
                proof {
                    assert(lv.take(j as int + 1).drop_last() =~= lv.take(j as int));
                    assert(self.layers@[j as int].raster.wf());
                }
                let lh = self.layers[j].content_hash();
                push_u64_le(&mut bytes, lh);
                j = j + 1;
                proof {
                    assert(bytes@ =~= head + layers_hash_bytes(lv.take(j as int)));
                }
            }
            proof {
                assert(lv.take(j as int) =~= lv);
                assert(bytes@ =~= drawing_hash_bytes(self.view()));
            }
        } else {
            proof {
                assert(bytes@ =~= drawing_hash_bytes(self.view()));
            }
        }
        fnv1a(bytes.as_slice())
    }
}

// ---- Image assets ------------------------------------------------------------

pub struct ImageView {
    pub id: ImageId,
    pub name: Seq<char>,
    pub width: u32,
    pub height: u32,
    pub bytes: Seq<u8>,
    pub tiles: Map<TileCoord, TileView>,
    pub content_hash: u64,
}

/// Per-side dimension cap for imported images.
pub const MAX_IMAGE_DIM: u32 = 16384;
/// Total pixel cap (~64 Mpx, an 8k×8k plate).
pub const MAX_IMAGE_PIXELS: u64 = 67108864;

/// An image asset owned by a cut (background plate, reference, scanned
/// pencil art). The original encoded bytes are the persisted truth;
/// premultiplied-f16 tiles are decoded once so every render path speaks the
/// same currency as cel layers.
#[derive(Debug)]
pub struct ImageAsset {
    pub id: ImageId,
    pub name: String,
    pub width: u32,
    pub height: u32,
    /// Encoded source bytes (PNG), persisted verbatim.
    pub bytes: Vec<u8>,
    /// Decoded premultiplied-f16 tiles anchored at (0,0).
    pub tiles: TileMap,
    /// fnv1a of the encoded bytes — the content address eval recipes fold.
    pub content_hash: u64,
}

impl ImageAsset {
    pub open spec fn view(&self) -> ImageView {
        ImageView {
            id: self.id,
            name: self.name@,
            width: self.width,
            height: self.height,
            bytes: self.bytes@,
            tiles: self.tiles@,
            content_hash: self.content_hash,
        }
    }
}

pub open spec fn images_view(s: Seq<ImageAsset>) -> Seq<ImageView> {
    s.map_values(|i: ImageAsset| i.view())
}

// ---- Cuts ----------------------------------------------------------------------

/// Abstract state of a cut. The drawing library is keyed by drawing id;
/// `order` lists the library's ids in the order the drawings stand.
pub struct CutView {
    pub id: CutId,
    pub name: Seq<char>,
    pub frame_count: u32,
    pub drawings: Map<DrawingId, DrawingView>,
    pub order: Seq<DrawingId>,
    pub columns: Seq<ColumnView>,
    pub params: Seq<ParamColumnView>,
    pub graph: GraphView,
    pub images: Seq<ImageView>,
}

pub open spec fn has_drawing(s: Seq<Drawing>, id: DrawingId) -> bool {
    exists|i: int| 0 <= i < s.len() && #[trigger] s[i].id == id
}

/// The drawing library as a map from id to drawing.
pub open spec fn drawing_map(s: Seq<Drawing>) -> Map<DrawingId, DrawingView> {
    Map::new(
        |d: DrawingId| has_drawing(s, d),
        |d: DrawingId| s[choose|i: int| 0 <= i < s.len() && #[trigger] s[i].id == d].view(),
    )
}

pub open spec fn drawing_ids(s: Seq<Drawing>) -> Seq<DrawingId> {
    s.map_values(|d: Drawing| d.id)
}

/// Index of the first occurrence of an id.
pub open spec fn drawing_pos(s: Seq<DrawingId>, id: DrawingId) -> int {
    choose|i: int| 0 <= i < s.len() && s[i] == id && forall|j: int| 0 <= j < i ==> #[trigger] s[j] != id
}

/// The first occurrence of `id` is where it stands when nothing before it
/// is `id`.
pub proof fn lemma_drawing_pos(s: Seq<DrawingId>, id: DrawingId, i: int)
    requires
        0 <= i < s.len(),
        s[i] == id,
        forall|j: int| 0 <= j < i ==> #[trigger] s[j] != id,
    ensures
        drawing_pos(s, id) == i,
{
    let p = drawing_pos(s, id);
    assert(0 <= p < s.len() && s[p] == id && forall|j: int| 0 <= j < p ==> #[trigger] s[j] != id);
    if p < i {
        assert(s[p] != id);
    }
    if p > i {
        assert(s[i] != id);
    }
}

pub open spec fn drawing_ids_unique(s: Seq<Drawing>) -> bool {
    forall|i: int, j: int| 0 <= i < j < s.len() ==> #[trigger] s[i].id != #[trigger] s[j].id
}

pub open spec fn drawings_wf(s: Seq<Drawing>) -> bool {
    forall|i: int| 0 <= i < s.len() ==> (#[trigger] s[i]).wf()
}

/// Every drawing a sheet key exposes is in the library.
pub open spec fn keys_resolve(cols: Seq<ColumnView>, drawings: Map<DrawingId, DrawingView>) -> bool {
    forall|k: int, f: u32|
        0 <= k < cols.len() && #[trigger] cols[k].keys.contains_key(f) && cols[k].keys[f] is Drawing
            ==> drawings.contains_key(cols[k].keys[f]->Drawing_0)
}

pub open spec fn column_ids_unique(s: Seq<ColumnView>) -> bool {
    forall|i: int, j: int| 0 <= i < j < s.len() ==> #[trigger] s[i].id != #[trigger] s[j].id
}

pub proof fn lemma_drawing_at(s: Seq<Drawing>, i: int)
    requires
        drawing_ids_unique(s),
        0 <= i < s.len(),
    ensures
        drawing_map(s).contains_key(s[i].id),
        drawing_map(s)[s[i].id] == s[i].view(),
{
    let d = s[i].id;
    assert(has_drawing(s, d));
    let j = choose|j: int| 0 <= j < s.len() && #[trigger] s[j].id == d;
    if j < i {
        assert(s[j].id != s[i].id);
    } else if i < j {
        assert(s[i].id != s[j].id);
    }
}

/// Appending a drawing with a fresh id adds it to the library.
pub proof fn lemma_drawing_push(s: Seq<Drawing>, d: Drawing)
    requires
        drawing_ids_unique(s),
        !has_drawing(s, d.id),
    ensures
        drawing_ids_unique(s.push(d)),
        drawing_map(s.push(d)) == drawing_map(s).insert(d.id, d.view()),
{
    let t = s.push(d);
    assert forall|i: int, j: int| 0 <= i < j < t.len() implies #[trigger] t[i].id != #[trigger] t[j].id by {
        if j == s.len() {
            assert(s[i].id != d.id);
        } else {
            assert(s[i].id != s[j].id);
        }
    }
    assert forall|k: DrawingId| #[trigger] has_drawing(t, k) <==> (has_drawing(s, k) || k == d.id) by {
        if has_drawing(t, k) {
            let i = choose|i: int| 0 <= i < t.len() && #[trigger] t[i].id == k;
            if i < s.len() {
                assert(s[i].id == k);
            }
        }
        if has_drawing(s, k) {
            let i = choose|i: int| 0 <= i < s.len() && #[trigger] s[i].id == k;
            assert(t[i].id == k);
        }
        if k == d.id {
            assert(t[s.len() as int].id == k);
        }
    }
    assert forall|k: DrawingId| #[trigger] drawing_map(t).contains_key(k) implies drawing_map(t)[k]
        == drawing_map(s).insert(d.id, d.view())[k] by {
        let i = choose|i: int| 0 <= i < t.len() && #[trigger] t[i].id == k;
        lemma_drawing_at(t, i);
        if i < s.len() {
            lemma_drawing_at(s, i);
        }
    }
    assert(drawing_map(t) =~= drawing_map(s).insert(d.id, d.view()));
}

/// Inserting a drawing with a fresh id at `k` adds it to the library.
pub proof fn lemma_drawing_insert(s: Seq<Drawing>, k: int, d: Drawing)
    requires
        drawing_ids_unique(s),
        !has_drawing(s, d.id),
        0 <= k <= s.len(),
    ensures
        drawing_ids_unique(s.insert(k, d)),
        drawing_map(s.insert(k, d)) == drawing_map(s).insert(d.id, d.view()),
{
    let t = s.insert(k, d);
    assert forall|a: int, b: int| 0 <= a < b < t.len() implies #[trigger] t[a].id != #[trigger] t[b].id by {
        if a == k {
            assert(s[b - 1].id != d.id);
        } else if b == k {
            assert(s[a].id != d.id);
        } else {
            let a2 = if a < k { a } else { a - 1 };
            let b2 = if b < k { b } else { b - 1 };
            assert(s[a2].id != s[b2].id);
        }
    }
    assert forall|x: DrawingId| #[trigger] has_drawing(t, x) <==> (has_drawing(s, x) || x == d.id) by {
        if has_drawing(t, x) {
            let i = choose|i: int| 0 <= i < t.len() && #[trigger] t[i].id == x;
            if i < k {
                assert(s[i].id == x);
            } else if i > k {
                assert(s[i - 1].id == x);
            }
        }
        if has_drawing(s, x) {
            let i = choose|i: int| 0 <= i < s.len() && #[trigger] s[i].id == x;
            if i < k {
                assert(t[i].id == x);
            } else {
                assert(t[i + 1].id == x);
            }
        }
        if x == d.id {
            assert(t[k].id == x);
        }
    }
    assert forall|x: DrawingId| #[trigger] drawing_map(t).contains_key(x) implies drawing_map(t)[x]
        == drawing_map(s).insert(d.id, d.view())[x] by {
        let i = choose|i: int| 0 <= i < t.len() && #[trigger] t[i].id == x;
        lemma_drawing_at(t, i);
        if i < k {
            lemma_drawing_at(s, i);
        } else if i > k {
            lemma_drawing_at(s, i - 1);
        }
    }
    assert(drawing_map(t) =~= drawing_map(s).insert(d.id, d.view()));
}

/// Removing the drawing at `i` drops its id from the library.
pub proof fn lemma_drawing_remove(s: Seq<Drawing>, i: int)
    requires
        drawing_ids_unique(s),
        0 <= i < s.len(),
    ensures
        drawing_ids_unique(s.remove(i)),
        drawing_map(s.remove(i)) == drawing_map(s).remove(s[i].id),
{
    let t = s.remove(i);
    let id = s[i].id;
    assert forall|a: int, b: int| 0 <= a < b < t.len() implies #[trigger] t[a].id != #[trigger] t[b].id by {
        let a2 = if a < i { a } else { a + 1 };
        let b2 = if b < i { b } else { b + 1 };
        assert(s[a2].id != s[b2].id);
    }
    assert forall|k: DrawingId| #[trigger] has_drawing(t, k) <==> (has_drawing(s, k) && k != id) by {
        if has_drawing(t, k) {
            let a = choose|a: int| 0 <= a < t.len() && #[trigger] t[a].id == k;
            let a2 = if a < i { a } else { a + 1 };
            assert(s[a2].id == k);
            if a2 < i {
                assert(s[a2].id != s[i].id);
            } else {
                assert(s[i].id != s[a2].id);
            }
        }
        if has_drawing(s, k) && k != id {
            let a = choose|a: int| 0 <= a < s.len() && #[trigger] s[a].id == k;
            assert(a != i);
            if a < i {
                assert(t[a].id == k);
            } else {
                assert(t[a - 1].id == k);
            }
        }
    }
    assert forall|k: DrawingId| #[trigger] drawing_map(t).contains_key(k) implies drawing_map(t)[k]
        == drawing_map(s).remove(id)[k] by {
        let a = choose|a: int| 0 <= a < t.len() && #[trigger] t[a].id == k;
        lemma_drawing_at(t, a);
        let a2 = if a < i { a } else { a + 1 };
        lemma_drawing_at(s, a2);
    }
    assert(drawing_map(t) =~= drawing_map(s).remove(id));
}

/// Replacing the drawing at `i` with one of the same id replaces its entry.
pub proof fn lemma_drawing_update(s: Seq<Drawing>, i: int, d: Drawing)
    requires
        drawing_ids_unique(s),
        0 <= i < s.len(),
        d.id == s[i].id,
    ensures
        drawing_ids_unique(s.update(i, d)),
        drawing_map(s.update(i, d)) == drawing_map(s).insert(d.id, d.view()),
{
    let t = s.update(i, d);
    assert forall|a: int, b: int| 0 <= a < b < t.len() implies #[trigger] t[a].id != #[trigger] t[b].id by {
        assert(s[a].id != s[b].id);
    }
    assert forall|k: DrawingId| #[trigger] has_drawing(t, k) <==> has_drawing(s, k) by {
        if has_drawing(t, k) {
            let a = choose|a: int| 0 <= a < t.len() && #[trigger] t[a].id == k;
            assert(s[a].id == k);
        }
        if has_drawing(s, k) {
            let a = choose|a: int| 0 <= a < s.len() && #[trigger] s[a].id == k;
            assert(t[a].id == k);
        }
    }
    assert forall|k: DrawingId| #[trigger] drawing_map(t).contains_key(k) implies drawing_map(t)[k]
        == drawing_map(s).insert(d.id, d.view())[k] by {
        let a = choose|a: int| 0 <= a < t.len() && #[trigger] t[a].id == k;
        lemma_drawing_at(t, a);
        if a != i {
            lemma_drawing_at(s, a);
            assert(s[a].id != s[i].id);
        }
    }
    lemma_drawing_at(s, i);
    assert(drawing_map(t) =~= drawing_map(s).insert(d.id, d.view()));
}

pub open spec fn columns_view(s: Seq<crate::xsheet::Column>) -> Seq<ColumnView> {
    s.map_values(|c: crate::xsheet::Column| c.view())
}

pub open spec fn params_view(s: Seq<crate::xsheet::ParamColumn>) -> Seq<ParamColumnView> {
    s.map_values(|c: crate::xsheet::ParamColumn| c.view())
}

#[derive(Debug)]
pub struct Cut {
    pub id: CutId,
    pub name: String,
    pub frame_count: u32,
    pub drawings: Vec<Drawing>,
    pub xsheet: XSheet,
    pub graph: Graph,
    /// Image assets owned by this cut (BG plates, references).
    pub images: Vec<ImageAsset>,
}

impl Cut {
    pub open spec fn view(&self) -> CutView {
        CutView {
            id: self.id,
            name: self.name@,
            frame_count: self.frame_count,
            drawings: drawing_map(self.drawings@),
            order: drawing_ids(self.drawings@),
            columns: columns_view(self.xsheet.columns@),
            params: params_view(self.xsheet.params@),
            graph: self.graph.view(),
            images: images_view(self.images@),
        }
    }

    /// The cut's invariant: drawing ids unique, every drawing's tile grids
    /// ascending, sheet columns well formed with unique ids, and the graph
    /// well formed (ids ascending, wires name existing nodes, acyclic).
    pub open spec fn wf(&self) -> bool {
        &&& drawing_ids_unique(self.drawings@)
        &&& drawings_wf(self.drawings@)
        &&& self.xsheet.wf()
        &&& column_ids_unique(columns_view(self.xsheet.columns@))
        &&& self.graph.wf()
        &&& pins_match(self.graph.gs())
        &&& keys_resolve(columns_view(self.xsheet.columns@), drawing_map(self.drawings@))
    }

    /// An empty cut.
    pub fn new(id: CutId, name: String, frame_count: u32) -> (c: Self)
        ensures
            c.wf(),
            c.id == id,
            c.name@ == name@,
            c.frame_count == frame_count,
            c.drawings@.len() == 0,
            c.xsheet.columns@.len() == 0,
            c.xsheet.params@.len() == 0,
            c.graph.nodes@.len() == 0,
            c.graph.output.is_none(),
            c.images@.len() == 0,
    {
        let c = Cut {
            id,
            name,
            frame_count,
            drawings: Vec::new(),
            xsheet: XSheet::new(),
            graph: Graph::new(),
            images: Vec::new(),
        };
        assert(columns_view(c.xsheet.columns@) =~= Seq::<ColumnView>::empty());
        assert(c.graph.gs() =~= Seq::<crate::graph::NodeView>::empty());
        c
    }

    /// Index of the first drawing with this id.
    pub fn drawing_index(&self, id: DrawingId) -> (r: Option<usize>)
        ensures
            match r {
                Some(i) => i < self.drawings@.len() && self.drawings@[i as int].id == id && forall|j: int|
                    0 <= j < i ==> #[trigger] self.drawings@[j].id != id,
                None => !has_drawing(self.drawings@, id),
            },
    {
        let mut i: usize = 0;
        while i < self.drawings.len()
            invariant
                i <= self.drawings@.len(),
                forall|j: int| 0 <= j < i ==> #[trigger] self.drawings@[j].id != id,
            decreases self.drawings@.len() - i,
        {
            if self.drawings[i].id == id {
                return Some(i);
            }
            i = i + 1;
        }
        None
    }

    pub fn drawing(&self, id: DrawingId) -> (r: Option<&Drawing>)
        requires
            drawing_ids_unique(self.drawings@),
        ensures
            match r {
                Some(d) => d.id == id && drawing_map(self.drawings@).contains_key(id)
                    && drawing_map(self.drawings@)[id] == d.view() && self.drawings@.contains(*d),
                None => !drawing_map(self.drawings@).contains_key(id),
            },
    {
        match self.drawing_index(id) {
            Some(i) => {
                proof {
                    lemma_drawing_at(self.drawings@, i as int);
                }
                Some(&self.drawings[i])
            },
            None => None,
        }
    }

    pub fn image(&self, id: ImageId) -> (r: Option<&ImageAsset>)
        ensures
            match r {
                Some(a) => exists|i: int| 0 <= i < self.images@.len() && self.images@[i] == *a && a.id == id
                    && forall|j: int| 0 <= j < i ==> #[trigger] self.images@[j].id != id,
                None => forall|j: int| 0 <= j < self.images@.len() ==> #[trigger] self.images@[j].id != id,
            },
    {
        let mut i: usize = 0;
        while i < self.images.len()
            invariant
                i <= self.images@.len(),
                forall|j: int| 0 <= j < i ==> #[trigger] self.images@[j].id != id,
            decreases self.images@.len() - i,
        {
            if self.images[i].id == id {
                return Some(&self.images[i]);
            }
            i = i + 1;
        }
        None
    }

    /// What a parameter column says about `frame` (None = no such column).
    /// The caller interpolates the span and falls back to its static value
    /// when the column is missing or has no keys.
    pub fn param_span(&self, id: ParamId, frame: u32) -> (r: Option<ParamSpan>)
        requires
            self.xsheet.wf(),
        ensures
            match r {
                Some(sp) => exists|i: int| 0 <= i < self.xsheet.params@.len() && #[trigger] self.xsheet.params@[i].id == id
                    && (forall|j: int| 0 <= j < i ==> #[trigger] self.xsheet.params@[j].id != id)
                    && (self.xsheet.params@[i].key_map() == Map::<u32, crate::xsheet::ParamKey>::empty() <==> sp == ParamSpan::NoKeys),
                None => forall|j: int| 0 <= j < self.xsheet.params@.len() ==> #[trigger] self.xsheet.params@[j].id != id,
            },
    {
        match self.xsheet.param_index(id) {
            Some(i) => {
                let sp = self.xsheet.params[i].span(frame);
                Some(sp)
            },
            None => None,
        }
    }
}

// ---- Scenes and projects ----------------------------------------------------------

pub struct SceneView {
    pub id: SceneId,
    pub name: Seq<char>,
    pub cuts: Seq<CutView>,
}

#[derive(Debug)]
pub struct Scene {
    pub id: SceneId,
    pub name: String,
    pub cuts: Vec<Cut>,
}

pub open spec fn cuts_view(s: Seq<Cut>) -> Seq<CutView> {
    s.map_values(|c: Cut| c.view())
}

pub open spec fn scenes_view(s: Seq<Scene>) -> Seq<SceneView> {
    s.map_values(|sc: Scene| sc.view())
}

impl Scene {
    pub open spec fn view(&self) -> SceneView {
        SceneView { id: self.id, name: self.name@, cuts: cuts_view(self.cuts@) }
    }

    pub open spec fn wf(&self) -> bool {
        forall|i: int| 0 <= i < self.cuts@.len() ==> (#[trigger] self.cuts@[i]).wf()
    }
}

pub struct ProjectView {
    pub name: Seq<char>,
    pub fps: u32,
    pub width: u32,
    pub height: u32,
    pub dpi: u32,
    pub scenes: Seq<SceneView>,
    pub next_id: u64,
    pub app_meta: Seq<(Seq<char>, Seq<char>)>,
}

/// 300.0 as an f32 bit pattern.
pub const DPI_300: u32 = 0x4396_0000;

#[derive(Debug)]
pub struct Project {
    pub name: String,
    pub fps: u32,
    /// Frame resolution in pixels — the "paper" every cut is drawn against.
    pub width: u32,
    pub height: u32,
    /// Pixels per inch (f32 bits), print/export metadata.
    pub dpi: u32,
    pub scenes: Vec<Scene>,
    /// Monotonic id counter; all entity ids come from here.
    pub next_id: u64,
    /// Opaque, app-owned key/value data the engine only round-trips,
    /// ascending by key.
    pub app_meta: Vec<(String, String)>,
}

pub open spec fn meta_view(s: Seq<(String, String)>) -> Seq<(Seq<char>, Seq<char>)> {
    s.map_values(|e: (String, String)| (e.0@, e.1@))
}

pub open spec fn scene_pos(s: Seq<SceneView>, id: SceneId) -> Option<int> {
    if exists|i: int| 0 <= i < s.len() && #[trigger] s[i].id == id {
        Some(choose|i: int| 0 <= i < s.len() && s[i].id == id && forall|j: int| 0 <= j < i ==> #[trigger] s[j].id != id)
    } else {
        None
    }
}

pub open spec fn cut_pos(s: Seq<CutView>, id: CutId) -> Option<int> {
    if exists|i: int| 0 <= i < s.len() && #[trigger] s[i].id == id {
        Some(choose|i: int| 0 <= i < s.len() && s[i].id == id && forall|j: int| 0 <= j < i ==> #[trigger] s[j].id != id)
    } else {
        None
    }
}

/// The first match of a search is where `scene_pos` points.
pub proof fn lemma_scene_pos(s: Seq<SceneView>, id: SceneId, i: int)
    requires
        0 <= i < s.len(),
        s[i].id == id,
        forall|j: int| 0 <= j < i ==> #[trigger] s[j].id != id,
    ensures
        scene_pos(s, id) == Some(i),
{
    let k = choose|k: int| 0 <= k < s.len() && s[k].id == id && forall|j: int| 0 <= j < k ==> #[trigger] s[j].id != id;
    if k < i {
        assert(s[k].id != id);
    }
    if k > i {
        assert(s[i].id != id);
    }
}

pub proof fn lemma_cut_pos(s: Seq<CutView>, id: CutId, i: int)
    requires
        0 <= i < s.len(),
        s[i].id == id,
        forall|j: int| 0 <= j < i ==> #[trigger] s[j].id != id,
    ensures
        cut_pos(s, id) == Some(i),
{
    let k = choose|k: int| 0 <= k < s.len() && s[k].id == id && forall|j: int| 0 <= j < k ==> #[trigger] s[j].id != id;
    if k < i {
        assert(s[k].id != id);
    }
    if k > i {
        assert(s[i].id != id);
    }
}

/// Index of the first cut with this id.
pub fn first_cut_index(cuts: &Vec<Cut>, id: CutId) -> (r: Option<usize>)
    ensures
        match r {
            Some(i) => i < cuts@.len() && cuts@[i as int].id == id && cut_pos(cuts_view(cuts@), id) == Some(i as int),
            None => cut_pos(cuts_view(cuts@), id) is None,
        },
{
    let ghost cv = cuts_view(cuts@);
    let mut i: usize = 0;
    while i < cuts.len()
        invariant
            cv == cuts_view(cuts@),
            i <= cuts@.len(),
            forall|j: int| 0 <= j < i ==> #[trigger] cuts@[j].id != id,
        decreases cuts@.len() - i,
    {
        if cuts[i].id == id {
            proof {
                assert forall|j: int| 0 <= j < i implies #[trigger] cv[j].id != id by {
                    assert(cuts@[j].id != id);
                }
                lemma_cut_pos(cv, id, i as int);
            }
            return Some(i);
        }
        i = i + 1;
    }
    proof {
        if exists|j: int| 0 <= j < cv.len() && #[trigger] cv[j].id == id {
            let j = choose|j: int| 0 <= j < cv.len() && #[trigger] cv[j].id == id;
            assert(cuts@[j].id != id);
        }
    }
    None
}

proof fn lemma_first_scene(s: Seq<SceneView>, id: SceneId, n: int)
    requires
        0 <= n <= s.len(),
        exists|i: int| 0 <= i < n && #[trigger] s[i].id == id,
    ensures
        exists|i: int| 0 <= i < n && s[i].id == id && forall|j: int| 0 <= j < i ==> #[trigger] s[j].id != id,
    decreases n,
{
    if exists|i: int| 0 <= i < n - 1 && #[trigger] s[i].id == id {
        lemma_first_scene(s, id, n - 1);
    } else {
        assert(s[n - 1].id == id);
        assert(forall|j: int| 0 <= j < n - 1 ==> #[trigger] s[j].id != id);
    }
}

/// What `scene_pos` finds is the first scene with that id.
pub proof fn lemma_scene_pos_props(s: Seq<SceneView>, id: SceneId)
    ensures
        scene_pos(s, id) is Some <==> exists|i: int| 0 <= i < s.len() && #[trigger] s[i].id == id,
        scene_pos(s, id) matches Some(i) ==> 0 <= i < s.len() && s[i].id == id && forall|j: int| 0 <= j < i ==> #[trigger] s[j].id != id,
{
    if exists|i: int| 0 <= i < s.len() && #[trigger] s[i].id == id {
        lemma_first_scene(s, id, s.len() as int);
    }
}

proof fn lemma_first_cut(s: Seq<CutView>, id: CutId, n: int)
    requires
        0 <= n <= s.len(),
        exists|i: int| 0 <= i < n && #[trigger] s[i].id == id,
    ensures
        exists|i: int| 0 <= i < n && s[i].id == id && forall|j: int| 0 <= j < i ==> #[trigger] s[j].id != id,
    decreases n,
{
    if exists|i: int| 0 <= i < n - 1 && #[trigger] s[i].id == id {
        lemma_first_cut(s, id, n - 1);
    } else {
        assert(s[n - 1].id == id);
        assert(forall|j: int| 0 <= j < n - 1 ==> #[trigger] s[j].id != id);
    }
}

/// What `cut_pos` finds is the first cut with that id.
pub proof fn lemma_cut_pos_props(s: Seq<CutView>, id: CutId)
    ensures
        cut_pos(s, id) is Some <==> exists|i: int| 0 <= i < s.len() && #[trigger] s[i].id == id,
        cut_pos(s, id) matches Some(i) ==> 0 <= i < s.len() && s[i].id == id && forall|j: int| 0 <= j < i ==> #[trigger] s[j].id != id,
{
    if exists|i: int| 0 <= i < s.len() && #[trigger] s[i].id == id {
        lemma_first_cut(s, id, s.len() as int);
    }
}

proof fn lemma_first_layer(s: Seq<CelLayerView>, id: LayerId, n: int)
    requires
        0 <= n <= s.len(),
        exists|i: int| 0 <= i < n && #[trigger] s[i].id == id,
    ensures
        exists|i: int| 0 <= i < n && s[i].id == id && forall|j: int| 0 <= j < i ==> #[trigger] s[j].id != id,
    decreases n,
{
    if exists|i: int| 0 <= i < n - 1 && #[trigger] s[i].id == id {
        lemma_first_layer(s, id, n - 1);
    } else {
        assert(s[n - 1].id == id);
        assert(forall|j: int| 0 <= j < n - 1 ==> #[trigger] s[j].id != id);
    }
}

/// What `layer_pos` finds is the first layer with that id.
pub proof fn lemma_layer_pos_props(s: Seq<CelLayerView>, id: LayerId)
    ensures
        layer_pos(s, id) is Some <==> exists|i: int| 0 <= i < s.len() && #[trigger] s[i].id == id,
        layer_pos(s, id) matches Some(i) ==> 0 <= i < s.len() && s[i].id == id && forall|j: int| 0 <= j < i ==> #[trigger] s[j].id != id,
{
    if exists|i: int| 0 <= i < s.len() && #[trigger] s[i].id == id {
        lemma_first_layer(s, id, s.len() as int);
    }
}

impl Project {
    pub open spec fn view(&self) -> ProjectView {
        ProjectView {
            name: self.name@,
            fps: self.fps,
            width: self.width,
            height: self.height,
            dpi: self.dpi,
            scenes: scenes_view(self.scenes@),
            next_id: self.next_id,
            app_meta: meta_view(self.app_meta@),
        }
    }

    pub open spec fn wf(&self) -> bool {
        forall|i: int| 0 <= i < self.scenes@.len() ==> (#[trigger] self.scenes@[i]).wf()
    }

    /// An empty 1920×1080, 24 fps, 300 dpi project.
    pub fn new(name: String) -> (p: Self)
        ensures
            p.wf(),
            p.name@ == name@,
            p.fps == 24,
            p.width == 1920,
            p.height == 1080,
            p.dpi == DPI_300,
            p.scenes@.len() == 0,
            p.next_id == 1,
            p.app_meta@.len() == 0,
    {
        Project {
            name,
            fps: 24,
            width: 1920,
            height: 1080,
            dpi: DPI_300,
            scenes: Vec::new(),
            next_id: 1,
            app_meta: Vec::new(),
        }
    }

    /// Hand out the next id and advance the counter.
    pub fn alloc_id(&mut self) -> (id: u64)
        requires
            old(self).next_id < u64::MAX,
        ensures
            id == old(self).next_id,
            final(self).next_id == old(self).next_id + 1,
            final(self).view() == (ProjectView { next_id: final(self).next_id, ..old(self).view() }),
            final(self).scenes == old(self).scenes,
    {
        let id = self.next_id;
        self.next_id = self.next_id + 1;
        id
    }

    /// Index of the first scene with this id.
    pub fn scene_index(&self, id: SceneId) -> (r: Option<usize>)
        ensures
            match r {
                Some(i) => i < self.scenes@.len() && self.scenes@[i as int].id == id
                    && scene_pos(self.view().scenes, id) == Some(i as int),
                None => scene_pos(self.view().scenes, id) is None,
            },
    {
        let mut i: usize = 0;
        while i < self.scenes.len()
            invariant
                i <= self.scenes@.len(),
                forall|j: int| 0 <= j < i ==> #[trigger] self.scenes@[j].id != id,
            decreases self.scenes@.len() - i,
        {
            if self.scenes[i].id == id {
                proof {
                    let sv = self.view().scenes;
                    assert forall|j: int| 0 <= j < i implies #[trigger] sv[j].id != id by {
                        assert(self.scenes@[j].id != id);
                    }
                    lemma_scene_pos(sv, id, i as int);
                }
                return Some(i);
            }
            i = i + 1;
        }
        proof {
            let sv = self.view().scenes;
            if exists|j: int| 0 <= j < sv.len() && #[trigger] sv[j].id == id {
                let j = choose|j: int| 0 <= j < sv.len() && #[trigger] sv[j].id == id;
                assert(self.scenes@[j].id != id);
            }
        }
        None
    }

    /// Index of the first cut with this id in the scene at `si`.
    pub fn cut_index(&self, si: usize, id: CutId) -> (r: Option<usize>)
        requires
            si < self.scenes@.len(),
        ensures
            match r {
                Some(i) => i < self.scenes@[si as int].cuts@.len() && self.scenes@[si as int].cuts@[i as int].id == id
                    && cut_pos(self.view().scenes[si as int].cuts, id) == Some(i as int),
                None => cut_pos(self.view().scenes[si as int].cuts, id) is None,
            },
    {
        let r = first_cut_index(&self.scenes[si].cuts, id);
        assert(self.view().scenes[si as int] == self.scenes@[si as int].view());
        r
    }

    /// The scene with this id, to edit in place.
    pub fn scene_mut(&mut self, id: SceneId) -> (r: Option<&mut Scene>)
        ensures
            match r {
                Some(s) => exists|i: int|
                    scene_pos(old(self).view().scenes, id) == Some(i) && 0 <= i < old(self).scenes@.len()
                        && *s == old(self).scenes@[i]
                        && *final(self) == (Project { scenes: final(self).scenes, ..*old(self) })
                        && final(self).scenes@ == old(self).scenes@.update(i, *final(s)),
                None => scene_pos(old(self).view().scenes, id) is None && *final(self) == *old(self),
            },
    {
        match self.scene_index(id) {
            Some(i) => Some(&mut self.scenes[i]),
            None => None,
        }
    }

    pub fn scene(&self, id: SceneId) -> (r: Option<&Scene>)
        ensures
            match r {
                Some(s) => scene_pos(self.view().scenes, id) matches Some(i) && 0 <= i < self.scenes@.len() && self.scenes@[i] == *s,
                None => scene_pos(self.view().scenes, id) is None,
            },
    {
        match self.scene_index(id) {
            Some(i) => Some(&self.scenes[i]),
            None => None,
        }
    }

    /// The cut `cut` of scene `scene`, to edit in place.
    pub fn cut_mut(&mut self, scene: SceneId, cut: CutId) -> (r: Option<&mut Cut>)
        ensures
            match r {
                Some(c) => exists|si: int, ci: int|
                    scene_pos(old(self).view().scenes, scene) == Some(si) && 0 <= si < old(self).scenes@.len()
                        && cut_pos(old(self).view().scenes[si].cuts, cut) == Some(ci)
                        && 0 <= ci < old(self).scenes@[si].cuts@.len()
                        && *c == old(self).scenes@[si].cuts@[ci]
                        && *final(self) == (Project { scenes: final(self).scenes, ..*old(self) })
                        && final(self).scenes@ == old(self).scenes@.update(
                            si,
                            Scene { cuts: final(self).scenes@[si].cuts, ..old(self).scenes@[si] },
                        )
                        && final(self).scenes@[si].cuts@ == old(self).scenes@[si].cuts@.update(ci, *final(c)),
                None => (scene_pos(old(self).view().scenes, scene) matches Some(si) ==> cut_pos(
                    old(self).view().scenes[si].cuts,
                    cut,
                ) is None) && *final(self) == *old(self),
            },
    {
        let si = match self.scene_index(scene) {
            Some(i) => i,
            None => {
                return None;
            },
        };
        match self.cut_index(si, cut) {
            Some(ci) => Some(&mut self.scenes[si].cuts[ci]),
            None => None,
        }
    }

    pub fn cut(&self, scene: SceneId, cut: CutId) -> (r: Option<&Cut>)
        ensures
            match r {
                Some(c) => scene_pos(self.view().scenes, scene) matches Some(i) && (0 <= i < self.scenes@.len()
                    && (cut_pos(self.view().scenes[i].cuts, cut) matches Some(k) && 0 <= k < self.scenes@[i].cuts@.len()
                    && self.scenes@[i].cuts@[k] == *c)),
                None => scene_pos(self.view().scenes, scene) matches Some(i) ==> cut_pos(self.view().scenes[i].cuts, cut) is None,
            },
    {
        let si = match self.scene_index(scene) {
            Some(i) => i,
            None => { return None; },
        };
        match self.cut_index(si, cut) {
            Some(k) => Some(&self.scenes[si].cuts[k]),
            None => None,
        }
    }
}

} // verus!
