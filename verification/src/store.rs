//! Project persistence as table rows.
//!
//! One project is one SQLite file whose tables mirror these rows: the
//! `meta` key/value table, then scenes, cuts, drawings with their layers
//! and tiles, sheet columns with their cells, parameter columns with their
//! keys, nodes with their links, and image assets. Running the SQL is the
//! application's part; turning a project into rows and rows back into a
//! well-formed project is decided here. `schema_version` gates forward
//! migration: versions 1..=4 load, fields added later take defaults.

use vstd::prelude::*;
use crate::error::EngineError;
use crate::graph::{
    Graph, Node, NodeKind, NodeView, OutPin, GraphView, acyclic, has_node, ids_ascending, input_count_spec, inputs_exist,
    nodes_view,
};
use crate::ids::{ColumnId, CutId, DrawingId, ImageId, LayerId, NodeId, ParamId, SceneId};
use crate::model::{
    CelLayer, CelLayerView, Cut, CutView, Drawing, DrawingView, ImageAsset, ImageView, LayerProps, LayerPropsView, Project,
    ProjectView, Scene, SceneView, Stroke, StrokeView, column_ids_unique, columns_view, copy_strokes, drawing_ids_unique,
    drawing_map, images_view, keys_resolve, layers_view, meta_view, strokes_view, DPI_300,
};
use crate::raster::{RasterLayer, TileCoord, TileData, TileMap, TileView, TILE_LEN, coord_seq_to_map, coords_ascending, tile_pairs};
use crate::sparse::{FrameKeys, frames_ascending, seq_to_map};
use crate::xsheet::{Column, ColumnView, Exposure, ParamColumn, ParamColumnView, ParamKey, XSheet};
use crate::bytes::u16s_le;
use crate::update::digits_value;
use crate::value::fnv1a_spec;
use crate::text::{decimal, decimal_spec, string_from_chars, chars_of};

verus! {

/// The newest schema this library writes; older ones still load.
pub const SCHEMA_VERSION: u64 = 4;

// ---------------------------------------------------------------------------
// Rows
// ---------------------------------------------------------------------------

/// One stored tile: its coordinate and its texels' little-endian bytes.
pub type TileRow = (i32, i32, Vec<u8>);

pub type TileRowView = (i32, i32, Seq<u8>);

pub open spec fn tile_rows_view(s: Seq<TileRow>) -> Seq<TileRowView> {
    s.map_values(|t: TileRow| (t.0, t.1, t.2@))
}

#[derive(Debug)]
pub struct LayerRow {
    pub id: LayerId,
    pub name: String,
    pub visible: bool,
    pub opacity: u32,
    pub tiles: Vec<TileRow>,
}

pub struct LayerRowView {
    pub id: LayerId,
    pub name: Seq<char>,
    pub visible: bool,
    pub opacity: u32,
    pub tiles: Seq<TileRowView>,
}

impl LayerRow {
    pub open spec fn view(&self) -> LayerRowView {
        LayerRowView {
            id: self.id,
            name: self.name@,
            visible: self.visible,
            opacity: self.opacity,
            tiles: tile_rows_view(self.tiles@),
        }
    }
}

/// A drawing row: its strokes travel as one payload, its layers as rows.
#[derive(Debug)]
pub struct DrawingRow {
    pub id: DrawingId,
    pub name: String,
    pub strokes: Vec<Stroke>,
    pub layers: Vec<LayerRow>,
}

pub struct DrawingRowView {
    pub id: DrawingId,
    pub name: Seq<char>,
    pub strokes: Seq<StrokeView>,
    pub layers: Seq<LayerRowView>,
}

impl DrawingRow {
    pub open spec fn view(&self) -> DrawingRowView {
        DrawingRowView {
            id: self.id,
            name: self.name@,
            strokes: strokes_view(self.strokes@),
            layers: self.layers@.map_values(|l: LayerRow| l.view()),
        }
    }
}

/// A sheet cell: frame, exposure kind ("drawing" or "empty"), drawing.
pub type CellRow = (u32, String, Option<DrawingId>);

pub type CellRowView = (u32, Seq<char>, Option<DrawingId>);

#[derive(Debug)]
pub struct ColumnRow {
    pub id: ColumnId,
    pub name: String,
    pub cells: Vec<CellRow>,
}

pub struct ColumnRowView {
    pub id: ColumnId,
    pub name: Seq<char>,
    pub cells: Seq<CellRowView>,
}

impl ColumnRow {
    pub open spec fn view(&self) -> ColumnRowView {
        ColumnRowView { id: self.id, name: self.name@, cells: self.cells@.map_values(|c: CellRow| (c.0, c.1@, c.2)) }
    }
}

#[derive(Debug)]
pub struct ParamRow {
    pub id: ParamId,
    pub name: String,
    pub keys: Vec<(u32, ParamKey)>,
}

pub struct ParamRowView {
    pub id: ParamId,
    pub name: Seq<char>,
    pub keys: Seq<(u32, ParamKey)>,
}

impl ParamRow {
    pub open spec fn view(&self) -> ParamRowView {
        ParamRowView { id: self.id, name: self.name@, keys: self.keys@ }
    }
}

/// A wire into a node: the input pin, then the source node and its pin.
pub type LinkRow = (u16, NodeId, u16);

/// A node row: its kind travels as one payload, its input wires as rows.
#[derive(Debug)]
pub struct NodeRow {
    pub id: NodeId,
    pub kind: NodeKind,
    pub links: Vec<LinkRow>,
}

pub struct NodeRowView {
    pub id: NodeId,
    pub kind: NodeKind,
    pub links: Seq<LinkRow>,
}

impl NodeRow {
    pub open spec fn view(&self) -> NodeRowView {
        NodeRowView { id: self.id, kind: self.kind, links: self.links@ }
    }
}

#[derive(Debug)]
pub struct ImageRow {
    pub id: ImageId,
    pub name: String,
    pub width: u32,
    pub height: u32,
    pub bytes: Vec<u8>,
    pub tiles: Vec<TileRow>,
    pub content_hash: u64,
}

pub struct ImageRowView {
    pub id: ImageId,
    pub name: Seq<char>,
    pub width: u32,
    pub height: u32,
    pub bytes: Seq<u8>,
    pub tiles: Seq<TileRowView>,
    pub content_hash: u64,
}

impl ImageRow {
    pub open spec fn view(&self) -> ImageRowView {
        ImageRowView {
            id: self.id,
            name: self.name@,
            width: self.width,
            height: self.height,
            bytes: self.bytes@,
            tiles: tile_rows_view(self.tiles@),
            content_hash: self.content_hash,
        }
    }
}

#[derive(Debug)]
pub struct CutRow {
    pub id: CutId,
    pub name: String,
    pub frame_count: u32,
    pub output: Option<NodeId>,
    pub drawings: Vec<DrawingRow>,
    pub columns: Vec<ColumnRow>,
    pub params: Vec<ParamRow>,
    pub nodes: Vec<NodeRow>,
    pub images: Vec<ImageRow>,
}

pub struct CutRowView {
    pub id: CutId,
    pub name: Seq<char>,
    pub frame_count: u32,
    pub output: Option<NodeId>,
    pub drawings: Seq<DrawingRowView>,
    pub columns: Seq<ColumnRowView>,
    pub params: Seq<ParamRowView>,
    pub nodes: Seq<NodeRowView>,
    pub images: Seq<ImageRowView>,
}

impl CutRow {
    pub open spec fn view(&self) -> CutRowView {
        CutRowView {
            id: self.id,
            name: self.name@,
            frame_count: self.frame_count,
            output: self.output,
            drawings: self.drawings@.map_values(|d: DrawingRow| d.view()),
            columns: self.columns@.map_values(|c: ColumnRow| c.view()),
            params: self.params@.map_values(|c: ParamRow| c.view()),
            nodes: self.nodes@.map_values(|n: NodeRow| n.view()),
            images: self.images@.map_values(|i: ImageRow| i.view()),
        }
    }
}

#[derive(Debug)]
pub struct SceneRow {
    pub id: SceneId,
    pub name: String,
    pub cuts: Vec<CutRow>,
}

pub struct SceneRowView {
    pub id: SceneId,
    pub name: Seq<char>,
    pub cuts: Seq<CutRowView>,
}

impl SceneRow {
    pub open spec fn view(&self) -> SceneRowView {
        SceneRowView { id: self.id, name: self.name@, cuts: self.cuts@.map_values(|c: CutRow| c.view()) }
    }
}

/// A whole project as rows: the `meta` table's (key, value) pairs, the
/// dpi (an f32 bit pattern; its text form is the application's), and the
/// scenes.
#[derive(Debug)]
pub struct ProjectRows {
    pub meta: Vec<(String, String)>,
    pub dpi: Option<u32>,
    pub scenes: Vec<SceneRow>,
}

pub struct ProjectRowsView {
    pub meta: Seq<(Seq<char>, Seq<char>)>,
    pub dpi: Option<u32>,
    pub scenes: Seq<SceneRowView>,
}

impl ProjectRows {
    pub open spec fn view(&self) -> ProjectRowsView {
        ProjectRowsView {
            meta: meta_view(self.meta@),
            dpi: self.dpi,
            scenes: self.scenes@.map_values(|s: SceneRow| s.view()),
        }
    }
}

// ---------------------------------------------------------------------------
// A project's rows
// ---------------------------------------------------------------------------

pub open spec fn tile_rows_spec(s: Seq<(TileCoord, TileData)>) -> Seq<TileRowView> {
    s.map_values(|e: (TileCoord, TileData)| (e.0.0, e.0.1, u16s_le(e.1.rgba@)))
}

pub open spec fn layer_rows_spec(l: CelLayer) -> LayerRowView {
    LayerRowView {
        id: l.id,
        name: l.props.name@,
        visible: l.props.visible,
        opacity: l.props.opacity,
        tiles: tile_rows_spec(l.raster.tiles.entries@),
    }
}

pub open spec fn drawing_rows_spec(d: Drawing) -> DrawingRowView {
    DrawingRowView {
        id: d.id,
        name: d.name@,
        strokes: strokes_view(d.strokes@),
        layers: d.layers@.map_values(|l: CelLayer| layer_rows_spec(l)),
    }
}

/// A key as a cell row.
pub open spec fn cell_row_spec(e: (u32, Exposure)) -> CellRowView {
    match e.1 {
        Exposure::Drawing(d) => (e.0, "drawing"@, Some(d)),
        Exposure::Empty => (e.0, "empty"@, None),
    }
}

pub open spec fn column_rows_spec(c: Column) -> ColumnRowView {
    ColumnRowView { id: c.id, name: c.name@, cells: c.keys.listing().map_values(|e: (u32, Exposure)| cell_row_spec(e)) }
}

pub open spec fn param_rows_spec(c: ParamColumn) -> ParamRowView {
    ParamRowView { id: c.id, name: c.name@, keys: c.keys.listing() }
}

/// The wired pins among `inputs`, ascending.
pub open spec fn links_spec(inputs: Seq<Option<OutPin>>) -> Seq<LinkRow>
    decreases inputs.len(),
{
    if inputs.len() == 0 {
        Seq::empty()
    } else {
        let rest = links_spec(inputs.drop_last());
        match inputs.last() {
            Some(src) => rest.push(((inputs.len() - 1) as u16, src.0, src.1)),
            None => rest,
        }
    }
}

pub open spec fn node_rows_spec(n: Node) -> NodeRowView {
    NodeRowView { id: n.id, kind: n.kind, links: links_spec(n.inputs@) }
}

pub open spec fn image_rows_spec(a: ImageAsset) -> ImageRowView {
    ImageRowView {
        id: a.id,
        name: a.name@,
        width: a.width,
        height: a.height,
        bytes: a.bytes@,
        tiles: tile_rows_spec(a.tiles.entries@),
        content_hash: a.content_hash,
    }
}

pub open spec fn cut_rows_spec(c: Cut) -> CutRowView {
    CutRowView {
        id: c.id,
        name: c.name@,
        frame_count: c.frame_count,
        output: c.graph.output,
        drawings: c.drawings@.map_values(|d: Drawing| drawing_rows_spec(d)),
        columns: c.xsheet.columns@.map_values(|k: Column| column_rows_spec(k)),
        params: c.xsheet.params@.map_values(|k: ParamColumn| param_rows_spec(k)),
        nodes: c.graph.nodes@.map_values(|n: Node| node_rows_spec(n)),
        images: c.images@.map_values(|a: ImageAsset| image_rows_spec(a)),
    }
}

pub open spec fn scene_rows_spec(s: Scene) -> SceneRowView {
    SceneRowView { id: s.id, name: s.name@, cuts: s.cuts@.map_values(|c: Cut| cut_rows_spec(c)) }
}

/// The `meta` rows: the schema version, name, rate, resolution and id
/// counter, then each app-owned entry under the `app.` prefix.
pub open spec fn meta_rows_spec(p: Project) -> Seq<(Seq<char>, Seq<char>)> {
    seq![
        ("schema_version"@, decimal_spec(SCHEMA_VERSION as nat)),
        ("name"@, p.name@),
        ("fps"@, decimal_spec(p.fps as nat)),
        ("width"@, decimal_spec(p.width as nat)),
        ("height"@, decimal_spec(p.height as nat)),
        ("next_id"@, decimal_spec(p.next_id as nat)),
    ] + meta_view(p.app_meta@).map_values(|e: (Seq<char>, Seq<char>)| ("app."@ + e.0, e.1))
}

pub open spec fn rows_spec(p: Project) -> ProjectRowsView {
    ProjectRowsView {
        meta: meta_rows_spec(p),
        dpi: Some(p.dpi),
        scenes: p.scenes@.map_values(|s: Scene| scene_rows_spec(s)),
    }
}

/// One more element mapped on both sides.
proof fn lemma_map_step<A, B, C>(pre: Seq<A>, x: A, src: Seq<B>, i: int, f: spec_fn(A) -> C, g: spec_fn(B) -> C)
    requires
        pre.map_values(f) == src.take(i).map_values(g),
        0 <= i < src.len(),
        f(x) == g(src[i]),
    ensures
        pre.push(x).map_values(f) == src.take(i + 1).map_values(g),
{
    assert(pre.map_values(f).len() == pre.len());
    assert(src.take(i).len() == i);
    assert(src.take(i).map_values(g).len() == i);
    assert(pre.len() == i);
    assert forall|k: int| 0 <= k < i + 1 implies #[trigger] pre.push(x).map_values(f)[k] == src.take(i + 1).map_values(g)[k] by {
        assert(pre.push(x).len() == i + 1);
        assert(src.take(i + 1).len() == i + 1);
        assert(pre.push(x).map_values(f)[k] == f(pre.push(x)[k]));
        assert(src.take(i + 1).map_values(g)[k] == g(src.take(i + 1)[k]));
        if k < i {
            assert(pre.map_values(f)[k] == f(pre[k]));
            assert(src.take(i).map_values(g)[k] == g(src.take(i)[k]));
            assert(pre.map_values(f)[k] == src.take(i).map_values(g)[k]);
            assert(pre.push(x)[k] == pre[k]);
            assert(src.take(i + 1)[k] == src.take(i)[k]);
        } else {
            assert(pre.push(x)[k] == x);
            assert(src.take(i + 1)[k] == src[i]);
        }
    }
    assert(pre.push(x).map_values(f) =~= src.take(i + 1).map_values(g));
}

// ---------------------------------------------------------------------------
// A project from rows
// ---------------------------------------------------------------------------

/// The texels whose little-endian bytes are `b`.
pub open spec fn rgba_of(b: Seq<u8>) -> Seq<u16> {
    choose|r: Seq<u16>| u16s_le(r) == b
}

/// A stored tile: its texels, and their content hash computed afresh.
pub open spec fn tile_of_bytes(b: Seq<u8>) -> TileView {
    TileView { rgba: rgba_of(b), hash: fnv1a_spec(b) }
}

pub open spec fn tile_entries_of(t: Seq<TileRowView>) -> Seq<(TileCoord, TileView)> {
    t.map_values(|r: TileRowView| ((r.0, r.1), tile_of_bytes(r.2)))
}

/// Every stored tile holds a whole tile's bytes.
pub open spec fn tiles_sized(t: Seq<TileRowView>) -> bool {
    forall|i: int| 0 <= i < t.len() ==> (#[trigger] t[i]).2.len() == TILE_LEN * 2
}

pub open spec fn layer_row_ok(l: LayerRowView) -> bool {
    tiles_sized(l.tiles) && coords_ascending(tile_entries_of(l.tiles))
}

pub open spec fn layer_of_row(l: LayerRowView) -> CelLayerView {
    CelLayerView {
        id: l.id,
        props: LayerPropsView { name: l.name, visible: l.visible, opacity: l.opacity },
        tiles: coord_seq_to_map(tile_entries_of(l.tiles)),
    }
}

pub open spec fn drawing_row_ok(d: DrawingRowView) -> bool {
    forall|k: int| 0 <= k < d.layers.len() ==> layer_row_ok(#[trigger] d.layers[k])
}

pub open spec fn drawing_of_row(d: DrawingRowView) -> DrawingView {
    DrawingView { name: d.name, strokes: d.strokes, layers: d.layers.map_values(|l: LayerRowView| layer_of_row(l)) }
}

/// The drawing library the rows describe, keyed by id.
pub open spec fn drawings_of_rows(ds: Seq<DrawingRowView>) -> Map<DrawingId, DrawingView> {
    Map::new(
        |id: DrawingId| exists|i: int| 0 <= i < ds.len() && #[trigger] ds[i].id == id,
        |id: DrawingId| drawing_of_row(ds[choose|i: int| 0 <= i < ds.len() && #[trigger] ds[i].id == id]),
    )
}

/// A cell's exposure: "drawing" with its drawing, or "empty"; anything
/// else is unreadable.
pub open spec fn exposure_of(kind: Seq<char>, d: Option<DrawingId>) -> Option<Exposure> {
    if kind == "drawing"@ {
        match d {
            Some(x) => Some(Exposure::Drawing(x)),
            None => None,
        }
    } else if kind == "empty"@ {
        Some(Exposure::Empty)
    } else {
        None
    }
}

pub open spec fn cell_keys(cells: Seq<CellRowView>) -> Seq<(u32, Exposure)> {
    cells.map_values(|c: CellRowView| (c.0, exposure_of(c.1, c.2).unwrap()))
}

pub open spec fn column_row_ok(c: ColumnRowView) -> bool {
    &&& forall|i: int| 0 <= i < c.cells.len() ==> exposure_of((#[trigger] c.cells[i]).1, c.cells[i].2) is Some
    &&& frames_ascending(cell_keys(c.cells))
}

pub open spec fn column_of_row(c: ColumnRowView) -> ColumnView {
    ColumnView { id: c.id.0, name: c.name, keys: seq_to_map(cell_keys(c.cells)) }
}

pub open spec fn param_of_row(c: ParamRowView) -> ParamColumnView {
    ParamColumnView { id: c.id, name: c.name, keys: seq_to_map(c.keys) }
}

/// The wire stored for input pin `p`, if any.
pub open spec fn link_at(links: Seq<LinkRow>, p: int) -> Option<OutPin> {
    if exists|j: int| 0 <= j < links.len() && #[trigger] links[j].0 == p {
        let j = choose|j: int| 0 <= j < links.len() && #[trigger] links[j].0 == p;
        Some((links[j].1, links[j].2))
    } else {
        None
    }
}

/// Pins strictly ascending, each one the node's kind has.
pub open spec fn node_row_ok(n: NodeRowView) -> bool {
    &&& forall|i: int, j: int| 0 <= i < j < n.links.len() ==> #[trigger] n.links[i].0 < #[trigger] n.links[j].0
    &&& forall|i: int| 0 <= i < n.links.len() ==> (#[trigger] n.links[i]).0 < input_count_spec(n.kind)
}

pub open spec fn node_of_row(n: NodeRowView) -> NodeView {
    NodeView { id: n.id.0, kind: n.kind, inputs: Seq::new(input_count_spec(n.kind), |p: int| link_at(n.links, p)) }
}

pub open spec fn image_of_row(i: ImageRowView) -> ImageView {
    ImageView {
        id: i.id,
        name: i.name,
        width: i.width,
        height: i.height,
        bytes: i.bytes,
        tiles: coord_seq_to_map(tile_entries_of(i.tiles)),
        content_hash: i.content_hash,
    }
}

#[verifier::opaque]
pub open spec fn cut_of_row(c: CutRowView) -> CutView {
    CutView {
        id: c.id,
        name: c.name,
        frame_count: c.frame_count,
        drawings: drawings_of_rows(c.drawings),
        order: c.drawings.map_values(|d: DrawingRowView| d.id),
        columns: c.columns.map_values(|k: ColumnRowView| column_of_row(k)),
        params: c.params.map_values(|k: ParamRowView| param_of_row(k)),
        graph: GraphView { nodes: c.nodes.map_values(|n: NodeRowView| node_of_row(n)), output: c.output },
        images: c.images.map_values(|i: ImageRowView| image_of_row(i)),
    }
}

/// The rows of a cut make a well-formed cut: every row reads, ids are
/// unique (node ids ascending), every wire names a node, the wiring has no
/// cycle, the output exists, and every exposed drawing is in the library.
#[verifier::opaque]
pub open spec fn cut_row_ok(c: CutRowView) -> bool {
    let v = cut_of_row(c);
    &&& forall|i: int| 0 <= i < c.drawings.len() ==> drawing_row_ok(#[trigger] c.drawings[i])
    &&& forall|i: int| 0 <= i < c.images.len() ==> tiles_sized((#[trigger] c.images[i]).tiles)
    &&& forall|i: int| 0 <= i < c.columns.len() ==> column_row_ok(#[trigger] c.columns[i])
    &&& forall|i: int| 0 <= i < c.params.len() ==> frames_ascending((#[trigger] c.params[i]).keys)
    &&& forall|i: int| 0 <= i < c.nodes.len() ==> node_row_ok(#[trigger] c.nodes[i])
    &&& forall|i: int, j: int| 0 <= i < j < c.drawings.len() ==> #[trigger] c.drawings[i].id != #[trigger] c.drawings[j].id
    &&& forall|i: int, j: int| 0 <= i < j < c.columns.len() ==> #[trigger] c.columns[i].id != #[trigger] c.columns[j].id
    &&& ids_ascending(v.graph.nodes)
    &&& inputs_exist(v.graph.nodes)
    &&& acyclic(v.graph.nodes)
    &&& (c.output matches Some(o) ==> has_node(v.graph.nodes, o.0))
    &&& keys_resolve(v.columns, v.drawings)
}

pub open spec fn scene_of_row(s: SceneRowView) -> SceneView {
    SceneView { id: s.id, name: s.name, cuts: s.cuts.map_values(|c: CutRowView| cut_of_row(c)) }
}

#[verifier::opaque]
pub open spec fn rows_ok(r: ProjectRowsView) -> bool {
    forall|si: int, ci: int| 0 <= si < r.scenes.len() && 0 <= ci < r.scenes[si].cuts.len()
        ==> cut_row_ok(#[trigger] r.scenes[si].cuts[ci])
}

/// The value of the first `meta` row with this key.
#[verifier::opaque]
pub open spec fn meta_get(m: Seq<(Seq<char>, Seq<char>)>, key: Seq<char>) -> Option<Seq<char>> {
    if exists|i: int| 0 <= i < m.len() && #[trigger] m[i].0 == key {
        let i = choose|i: int| 0 <= i < m.len() && m[i].0 == key && forall|j: int| 0 <= j < i ==> #[trigger] m[j].0 != key;
        Some(m[i].1)
    } else {
        None
    }
}

pub open spec fn all_digit_chars(ds: Seq<char>) -> bool {
    forall|i: int| 0 <= i < ds.len() ==> '0' <= #[trigger] ds[i] <= '9'
}

/// `str::parse` of an unsigned number no larger than `max`: an optional
/// '+', then one or more ASCII digits.
#[verifier::opaque]
pub open spec fn parse_nat_spec(t: Seq<char>, max: nat) -> Option<nat> {
    let ds = if t.len() > 0 && t[0] == '+' { t.drop_first() } else { t };
    if ds.len() > 0 && all_digit_chars(ds) && digits_value(ds) <= max {
        Some(digits_value(ds))
    } else {
        None
    }
}

/// `str::parse::<i64>`: an optional sign, then one or more ASCII digits,
/// in range.
#[verifier::opaque]
pub open spec fn parse_i64_spec(t: Seq<char>) -> Option<int> {
    if t.len() > 0 && t[0] == '-' {
        let ds = t.drop_first();
        if ds.len() > 0 && all_digit_chars(ds) && digits_value(ds) <= 0x8000_0000_0000_0000 {
            Some(-digits_value(ds))
        } else {
            None
        }
    } else {
        match parse_nat_spec(t, i64::MAX as nat) {
            Some(n) => Some(n as int),
            None => None,
        }
    }
}

/// A numeric `meta` value, when the key is there and its value parses.
pub open spec fn meta_num(m: Seq<(Seq<char>, Seq<char>)>, key: Seq<char>, max: nat) -> Option<nat> {
    match meta_get(m, key) {
        Some(t) => parse_nat_spec(t, max),
        None => None,
    }
}

pub open spec fn is_app_key(k: Seq<char>) -> bool {
    k.len() >= 4 && k.take(4) == "app."@
}

/// The app-owned entries: the `meta` rows under the `app.` prefix, in
/// order, with the prefix taken off.
#[verifier::opaque]
pub open spec fn app_meta_of(m: Seq<(Seq<char>, Seq<char>)>) -> Seq<(Seq<char>, Seq<char>)>
    decreases m.len(),
{
    if m.len() == 0 {
        Seq::empty()
    } else {
        let r = app_meta_of(m.drop_last());
        if is_app_key(m.last().0) {
            r.push((m.last().0.skip(4), m.last().1))
        } else {
            r
        }
    }
}

/// What loading rows gives: a missing or unreadable schema version,
/// name, frame rate or id counter, or a row that does not make a
/// well-formed cut, is corruption; a schema version outside 1..=4 is
/// refused as such; width, height and dpi absent or unreadable (older
/// files) take the defaults 1920, 1080 and 300.
pub open spec fn from_rows_spec(r: ProjectRowsView) -> Result<ProjectView, EngineError> {
    match meta_get(r.meta, "schema_version"@) {
        None => Err(EngineError::Corrupt),
        Some(t) => match parse_i64_spec(t) {
            None => Err(EngineError::Corrupt),
            Some(v) => if v < 1 || v > SCHEMA_VERSION {
                Err(EngineError::SchemaVersion(v as i64))
            } else if meta_get(r.meta, "name"@) is None || meta_num(r.meta, "fps"@, u32::MAX as nat) is None
                || meta_num(r.meta, "next_id"@, u64::MAX as nat) is None {
                Err(EngineError::Corrupt)
            } else if !rows_ok(r) {
                Err(EngineError::Corrupt)
            } else {
                Ok(ProjectView {
                    name: meta_get(r.meta, "name"@).unwrap(),
                    fps: meta_num(r.meta, "fps"@, u32::MAX as nat).unwrap() as u32,
                    width: match meta_num(r.meta, "width"@, u32::MAX as nat) {
                        Some(w) => w as u32,
                        None => 1920,
                    },
                    height: match meta_num(r.meta, "height"@, u32::MAX as nat) {
                        Some(h) => h as u32,
                        None => 1080,
                    },
                    dpi: match r.dpi {
                        Some(d) => d,
                        None => DPI_300,
                    },
                    scenes: r.scenes.map_values(|s: SceneRowView| scene_of_row(s)),
                    next_id: meta_num(r.meta, "next_id"@, u64::MAX as nat).unwrap() as u64,
                    app_meta: app_meta_of(r.meta),
                })
            },
        },
    }
}

proof fn lemma_tile_of_bytes(t: TileData, b: Seq<u8>)
    requires
        u16s_le(t.rgba@) == b,
        t.hash_ok(),
    ensures
        t.view() == tile_of_bytes(b),
{
    let r = rgba_of(b);
    assert(u16s_le(t.rgba@) == b);
    assert(u16s_le(r) == b);
    crate::net::lemma_u16s_le_inj(r, t.rgba@);
}

/// The stored tiles as a tile map, in the stored order; `None` when one
/// does not hold a whole tile's bytes.
fn tiles_from_rows(rows: &Vec<TileRow>) -> (r: Option<TileMap>)
    ensures
        r is Some <==> tiles_sized(tile_rows_view(rows@)),
        r matches Some(m) ==> m.pairs() == tile_entries_of(tile_rows_view(rows@)),
{
    let mut entries: Vec<(TileCoord, TileData)> = Vec::new();
    let mut i: usize = 0;
    while i < rows.len()
        invariant
            i <= rows@.len(),
            entries@.map_values(|e: (TileCoord, TileData)| (e.0, e.1.view())) == rows@.take(i as int).map_values(|t: TileRow| ((t.0, t.1), tile_of_bytes(t.2@))),
            forall|k: int| 0 <= k < i ==> (#[trigger] rows@[k]).2@.len() == TILE_LEN * 2,
        decreases rows@.len() - i,
    {
        let t = match TileData::from_bytes(rows[i].2.as_slice()) {
            Some(t) => t,
            None => {
                proof {
                    assert(tile_rows_view(rows@)[i as int].2.len() != TILE_LEN * 2);
                }
                return None;
            },
        };
        proof {
            lemma_tile_of_bytes(t, rows@[i as int].2@);
        }
        let ghost pre = entries@;
        let ghost tv = t.view();
        let ghost row = rows@[i as int];
        entries.push(((rows[i].0, rows[i].1), t));
        i = i + 1;
        proof {
            assert(entries@ =~= pre.push(entries@.last()));
            assert(entries@.last().1.view() == tv);
            lemma_map_step(pre, entries@.last(), rows@, i - 1, |e: (TileCoord, TileData)| (e.0, e.1.view()), |t: TileRow| ((t.0, t.1), tile_of_bytes(t.2@)));
        }
    }
    proof {
        assert(rows@.take(i as int) =~= rows@);
        assert(tile_entries_of(tile_rows_view(rows@)) =~= rows@.map_values(|t: TileRow| ((t.0, t.1), tile_of_bytes(t.2@))));
        assert(tile_pairs(entries@) =~= entries@.map_values(|e: (TileCoord, TileData)| (e.0, e.1.view())));
        assert forall|k: int| 0 <= k < tile_rows_view(rows@).len() implies (#[trigger] tile_rows_view(rows@)[k]).2.len()
            == TILE_LEN * 2 by {
            assert(rows@[k].2@.len() == TILE_LEN * 2);
        }
    }
    Some(TileMap { entries })
}

/// Whether the tiles' coordinates strictly ascend.
fn tiles_ascend(entries: &Vec<(TileCoord, TileData)>) -> (r: bool)
    ensures
        r == coords_ascending(tile_pairs(entries@)),
{
    let ghost s = tile_pairs(entries@);
    let mut i: usize = 1;
    while i < entries.len()
        invariant
            1 <= i,
            s == tile_pairs(entries@),
            forall|a: int, b: int| 0 <= a < b < i && b < s.len() ==> crate::raster::coord_lt(#[trigger] s[a].0, #[trigger] s[b].0),
        decreases entries@.len() - i,
    {
        if !crate::raster::coord_less(entries[i - 1].0, entries[i].0) {
            proof {
                assert(s[i - 1].0 == entries@[i - 1].0);
                assert(s[i as int].0 == entries@[i as int].0);
            }
            return false;
        }
        proof {
            assert forall|a: int, b: int| 0 <= a < b < i + 1 && b < s.len() implies crate::raster::coord_lt(
                #[trigger] s[a].0,
                #[trigger] s[b].0,
            ) by {
                if b == i && a < i - 1 {
                    assert(crate::raster::coord_lt(s[a].0, s[i - 1].0));
                }
            }
        }
        i = i + 1;
    }
    true
}

fn layer_from_row(l: &LayerRow) -> (r: Option<CelLayer>)
    ensures
        r is Some <==> layer_row_ok(l.view()),
        r matches Some(x) ==> x.view() == layer_of_row(l.view()) && x.raster.wf(),
{
    let tiles = match tiles_from_rows(&l.tiles) {
        Some(m) => m,
        None => {
            return None;
        },
    };
    if !tiles_ascend(&tiles.entries) {
        return None;
    }
    Some(CelLayer {
        id: l.id,
        props: LayerProps { name: l.name.clone(), visible: l.visible, opacity: l.opacity },
        raster: RasterLayer { tiles },
    })
}

fn drawing_from_row(d: &DrawingRow) -> (r: Option<Drawing>)
    ensures
        r is Some <==> drawing_row_ok(d.view()),
        r matches Some(x) ==> x.id == d.id && x.view() == drawing_of_row(d.view()) && x.wf(),
{
    let mut layers: Vec<CelLayer> = Vec::new();
    let mut i: usize = 0;
    while i < d.layers.len()
        invariant
            i <= d.layers@.len(),
            layers@.map_values(|l: CelLayer| l.view()) == d.layers@.take(i as int).map_values(|l: LayerRow| layer_of_row(l.view())),
            crate::model::layers_wf(layers@),
            forall|k: int| 0 <= k < i ==> layer_row_ok((#[trigger] d.layers@[k]).view()),
        decreases d.layers@.len() - i,
    {
        let x = match layer_from_row(&d.layers[i]) {
            Some(x) => x,
            None => {
                proof {
                    assert(d.view().layers[i as int] == d.layers@[i as int].view());
                }
                return None;
            },
        };
        let ghost pre = layers@;
        let ghost xv = x.view();
        let ghost row = d.layers@[i as int];
        layers.push(x);
        i = i + 1;
        proof {
            assert(layers@ =~= pre.push(layers@.last()));
            lemma_map_step(pre, layers@.last(), d.layers@, i - 1, |l: CelLayer| l.view(), |l: LayerRow| layer_of_row(l.view()));
            assert forall|k: int| 0 <= k < layers@.len() implies (#[trigger] layers@[k]).raster.wf() by {
                if k < pre.len() {
                    assert(layers@[k] == pre[k]);
                }
            }
        }
    }
    proof {
        assert(d.layers@.take(i as int) =~= d.layers@);
        assert(layers_view(layers@) =~= layers@.map_values(|l: CelLayer| l.view()));
        assert(d.view().layers.map_values(|l: LayerRowView| layer_of_row(l)) =~= d.layers@.map_values(|l: LayerRow| layer_of_row(l.view())));
        assert forall|k: int| 0 <= k < d.view().layers.len() implies layer_row_ok(#[trigger] d.view().layers[k]) by {
            assert(layer_row_ok(d.layers@[k].view()));
        }
    }
    Some(Drawing { id: d.id, name: d.name.clone(), strokes: copy_strokes(&d.strokes), layers })
}

fn column_from_row(c: &ColumnRow) -> (r: Option<Column>)
    ensures
        r is Some <==> column_row_ok(c.view()),
        r matches Some(x) ==> x.view() == column_of_row(c.view()) && x.wf(),
{
    let mut entries: Vec<(u32, Exposure)> = Vec::new();
    let mut i: usize = 0;
    while i < c.cells.len()
        invariant
            i <= c.cells@.len(),
            entries@ == c.cells@.take(i as int).map_values(|x: CellRow| (x.0, exposure_of(x.1@, x.2).unwrap())),
            forall|k: int| 0 <= k < i ==> exposure_of((#[trigger] c.cells@[k]).1@, c.cells@[k].2) is Some,
        decreases c.cells@.len() - i,
    {
        let cell = &c.cells[i];
        let e = if crate::text::text_eq(cell.1.as_str(), "drawing") {
            match cell.2 {
                Some(d) => Exposure::Drawing(d),
                None => {
                    proof {
                        assert(c.view().cells[i as int] == (cell.0, cell.1@, cell.2));
                    }
                    return None;
                },
            }
        } else if crate::text::text_eq(cell.1.as_str(), "empty") {
            Exposure::Empty
        } else {
            proof {
                assert(c.view().cells[i as int] == (cell.0, cell.1@, cell.2));
            }
            return None;
        };
        let ghost pre = entries@;
        entries.push((cell.0, e));
        i = i + 1;
        proof {
            assert(entries@ =~= pre.push(entries@.last()));
            assert(pre.map_values(|x: (u32, Exposure)| x) =~= pre);
            assert(entries@.map_values(|x: (u32, Exposure)| x) =~= entries@);
            lemma_map_step(pre, entries@.last(), c.cells@, i - 1, |x: (u32, Exposure)| x, |x: CellRow| (x.0, exposure_of(x.1@, x.2).unwrap()));
        }
    }
    proof {
        assert(c.cells@.take(i as int) =~= c.cells@);
        assert(cell_keys(c.view().cells) =~= entries@);
        assert forall|k: int| 0 <= k < c.view().cells.len() implies exposure_of((#[trigger] c.view().cells[k]).1, c.view().cells[k].2) is Some by {
            assert(exposure_of(c.cells@[k].1@, c.cells@[k].2) is Some);
        }
    }
    let keys = match FrameKeys::from_listing(entries) {
        Some(k) => k,
        None => {
            return None;
        },
    };
    proof {
        keys.lemma_view_listing();
    }
    Some(Column { id: c.id, name: c.name.clone(), keys })
}

fn param_from_row(c: &ParamRow) -> (r: Option<ParamColumn>)
    ensures
        r is Some <==> frames_ascending(c.view().keys),
        r matches Some(x) ==> x.view() == param_of_row(c.view()) && x.wf(),
{
    let mut entries: Vec<(u32, ParamKey)> = Vec::new();
    let mut i: usize = 0;
    while i < c.keys.len()
        invariant
            i <= c.keys@.len(),
            entries@ == c.keys@.take(i as int),
        decreases c.keys@.len() - i,
    {
        entries.push(c.keys[i]);
        i = i + 1;
        assert(entries@ =~= c.keys@.take(i as int));
    }
    assert(c.keys@.take(i as int) =~= c.keys@);
    let keys = match FrameKeys::from_listing(entries) {
        Some(k) => k,
        None => {
            return None;
        },
    };
    proof {
        keys.lemma_view_listing();
    }
    Some(ParamColumn { id: c.id, name: c.name.clone(), keys })
}

/// With pins strictly ascending, the stored wire for a pin is the one
/// row with that pin.
proof fn lemma_link_at(links: Seq<LinkRow>, j: int)
    requires
        forall|a: int, b: int| 0 <= a < b < links.len() ==> #[trigger] links[a].0 < #[trigger] links[b].0,
        0 <= j < links.len(),
    ensures
        link_at(links, links[j].0 as int) == Some((links[j].1, links[j].2)),
{
    let p = links[j].0 as int;
    assert(exists|k: int| 0 <= k < links.len() && #[trigger] links[k].0 == p) by {
        assert(links[j].0 == p);
    }
    let k = choose|k: int| 0 <= k < links.len() && #[trigger] links[k].0 == p;
    if k < j {
        assert(links[k].0 < links[j].0);
    } else if j < k {
        assert(links[j].0 < links[k].0);
    }
}

fn node_from_row(n: &NodeRow) -> (r: Option<Node>)
    ensures
        r is Some <==> node_row_ok(n.view()),
        r matches Some(x) ==> x.view() == node_of_row(n.view()),
{
    let count = n.kind.input_count();
    let links = &n.links;
    let mut j: usize = 0;
    while j < links.len()
        invariant
            count == input_count_spec(n.kind),
            links@ == n.links@,
            j <= links@.len(),
            forall|a: int, b: int| 0 <= a < b < j ==> #[trigger] links@[a].0 < #[trigger] links@[b].0,
            forall|a: int| 0 <= a < j ==> (#[trigger] links@[a]).0 < count,
        decreases links@.len() - j,
    {
        if links[j].0 as usize >= count {
            proof {
                assert(n.view().links[j as int].0 >= input_count_spec(n.kind));
            }
            return None;
        }
        if j > 0 && links[j - 1].0 >= links[j].0 {
            proof {
                assert(n.view().links[j - 1].0 >= n.view().links[j as int].0);
            }
            return None;
        }
        proof {
            assert forall|a: int, b: int| 0 <= a < b < j + 1 implies #[trigger] links@[a].0 < #[trigger] links@[b].0 by {
                if b == j && a < j - 1 {
                    assert(links@[a].0 < links@[j - 1].0);
                }
            }
        }
        j = j + 1;
    }
    let mut inputs: Vec<Option<OutPin>> = Vec::new();
    let mut p: usize = 0;
    while p < count
        invariant
            p <= count,
            inputs@ == Seq::new(p as nat, |q: int| None::<OutPin>),
        decreases count - p,
    {
        inputs.push(None);
        p = p + 1;
        assert(inputs@ =~= Seq::new(p as nat, |q: int| None::<OutPin>));
    }
    let mut k: usize = 0;
    while k < links.len()
        invariant
            count == input_count_spec(n.kind),
            links@ == n.links@,
            k <= links@.len(),
            inputs@.len() == count,
            forall|a: int, b: int| 0 <= a < b < links@.len() ==> #[trigger] links@[a].0 < #[trigger] links@[b].0,
            forall|a: int| 0 <= a < links@.len() ==> (#[trigger] links@[a]).0 < count,
            forall|q: int| 0 <= q < count && (forall|a: int| 0 <= a < k ==> #[trigger] links@[a].0 != q) ==> inputs@[q] is None,
            forall|a: int| 0 <= a < k ==> inputs@[(#[trigger] links@[a]).0 as int] == Some((links@[a].1, links@[a].2)),
        decreases links@.len() - k,
    {
        let l = links[k];
        let ghost pre = inputs@;
        inputs.set(l.0 as usize, Some((l.1, l.2)));
        proof {
            assert forall|a: int| 0 <= a < k + 1 implies inputs@[(#[trigger] links@[a]).0 as int] == Some((links@[a].1, links@[a].2)) by {
                if a < k {
                    assert(links@[a].0 < links@[k as int].0);
                    assert(inputs@[links@[a].0 as int] == pre[links@[a].0 as int]);
                }
            }
            assert forall|q: int| 0 <= q < count && (forall|a: int| 0 <= a < k + 1 ==> #[trigger] links@[a].0 != q) implies inputs@[q] is None by {
                assert(links@[k as int].0 != q);
                assert(inputs@[q] == pre[q]);
            }
        }
        k = k + 1;
    }
    proof {
        assert forall|q: int| 0 <= q < count implies #[trigger] inputs@[q] == link_at(links@, q) by {
            if exists|a: int| 0 <= a < links@.len() && #[trigger] links@[a].0 == q {
                let a = choose|a: int| 0 <= a < links@.len() && #[trigger] links@[a].0 == q;
                lemma_link_at(links@, a);
            }
        }
        assert(inputs@ =~= Seq::new(input_count_spec(n.kind), |q: int| link_at(n.links@, q)));
    }
    Some(Node { id: n.id, kind: n.kind, inputs })
}

fn image_from_row(a: &ImageRow) -> (r: Option<ImageAsset>)
    ensures
        r is Some <==> tiles_sized(a.view().tiles),
        r matches Some(x) ==> x.view() == image_of_row(a.view()),
{
    let tiles = match tiles_from_rows(&a.tiles) {
        Some(m) => m,
        None => {
            return None;
        },
    };
    let mut bytes: Vec<u8> = Vec::new();
    let mut i: usize = 0;
    while i < a.bytes.len()
        invariant
            i <= a.bytes@.len(),
            bytes@ == a.bytes@.take(i as int),
        decreases a.bytes@.len() - i,
    {
        bytes.push(a.bytes[i]);
        i = i + 1;
        assert(bytes@ =~= a.bytes@.take(i as int));
    }
    assert(a.bytes@.take(i as int) =~= a.bytes@);
    Some(ImageAsset {
        id: a.id,
        name: a.name.clone(),
        width: a.width,
        height: a.height,
        bytes,
        tiles,
        content_hash: a.content_hash,
    })
}

fn build_drawings(rows: &Vec<DrawingRow>) -> (r: Option<Vec<Drawing>>)
    ensures
        r is Some <==> forall|k: int| 0 <= k < rows@.len() ==> drawing_row_ok((#[trigger] rows@[k]).view()),
        r matches Some(v) ==> v@.len() == rows@.len() && forall|k: int| 0 <= k < rows@.len() ==> (#[trigger] v@[k]).id
            == rows@[k].id && v@[k].view() == drawing_of_row(rows@[k].view()) && v@[k].wf(),
{
    let mut v: Vec<Drawing> = Vec::new();
    let mut i: usize = 0;
    while i < rows.len()
        invariant
            i <= rows@.len(),
            v@.len() == i,
            forall|k: int| 0 <= k < i ==> drawing_row_ok((#[trigger] rows@[k]).view()),
            forall|k: int| 0 <= k < i ==> (#[trigger] v@[k]).id == rows@[k].id && v@[k].view() == drawing_of_row(rows@[k].view())
                && v@[k].wf(),
        decreases rows@.len() - i,
    {
        match drawing_from_row(&rows[i]) {
            Some(d) => {
                v.push(d);
            },
            None => {
                return None;
            },
        }
        i = i + 1;
    }
    Some(v)
}

fn build_columns(rows: &Vec<ColumnRow>) -> (r: Option<Vec<Column>>)
    ensures
        r is Some <==> forall|k: int| 0 <= k < rows@.len() ==> column_row_ok((#[trigger] rows@[k]).view()),
        r matches Some(v) ==> v@.len() == rows@.len() && forall|k: int| 0 <= k < rows@.len() ==> (#[trigger] v@[k]).view()
            == column_of_row(rows@[k].view()) && v@[k].wf(),
{
    let mut v: Vec<Column> = Vec::new();
    let mut i: usize = 0;
    while i < rows.len()
        invariant
            i <= rows@.len(),
            v@.len() == i,
            forall|k: int| 0 <= k < i ==> column_row_ok((#[trigger] rows@[k]).view()),
            forall|k: int| 0 <= k < i ==> (#[trigger] v@[k]).view() == column_of_row(rows@[k].view()) && v@[k].wf(),
        decreases rows@.len() - i,
    {
        match column_from_row(&rows[i]) {
            Some(x) => {
                v.push(x);
            },
            None => {
                return None;
            },
        }
        i = i + 1;
    }
    Some(v)
}

fn build_params(rows: &Vec<ParamRow>) -> (r: Option<Vec<ParamColumn>>)
    ensures
        r is Some <==> forall|k: int| 0 <= k < rows@.len() ==> frames_ascending((#[trigger] rows@[k]).view().keys),
        r matches Some(v) ==> v@.len() == rows@.len() && forall|k: int| 0 <= k < rows@.len() ==> (#[trigger] v@[k]).view()
            == param_of_row(rows@[k].view()) && v@[k].wf(),
{
    let mut v: Vec<ParamColumn> = Vec::new();
    let mut i: usize = 0;
    while i < rows.len()
        invariant
            i <= rows@.len(),
            v@.len() == i,
            forall|k: int| 0 <= k < i ==> frames_ascending((#[trigger] rows@[k]).view().keys),
            forall|k: int| 0 <= k < i ==> (#[trigger] v@[k]).view() == param_of_row(rows@[k].view()) && v@[k].wf(),
        decreases rows@.len() - i,
    {
        match param_from_row(&rows[i]) {
            Some(x) => {
                v.push(x);
            },
            None => {
                return None;
            },
        }
        i = i + 1;
    }
    Some(v)
}

fn build_nodes(rows: &Vec<NodeRow>) -> (r: Option<Vec<Node>>)
    ensures
        r is Some <==> forall|k: int| 0 <= k < rows@.len() ==> node_row_ok((#[trigger] rows@[k]).view()),
        r matches Some(v) ==> v@.len() == rows@.len() && forall|k: int| 0 <= k < rows@.len() ==> (#[trigger] v@[k]).view()
            == node_of_row(rows@[k].view()),
{
    let mut v: Vec<Node> = Vec::new();
    let mut i: usize = 0;
    while i < rows.len()
        invariant
            i <= rows@.len(),
            v@.len() == i,
            forall|k: int| 0 <= k < i ==> node_row_ok((#[trigger] rows@[k]).view()),
            forall|k: int| 0 <= k < i ==> (#[trigger] v@[k]).view() == node_of_row(rows@[k].view()),
        decreases rows@.len() - i,
    {
        match node_from_row(&rows[i]) {
            Some(x) => {
                v.push(x);
            },
            None => {
                return None;
            },
        }
        i = i + 1;
    }
    Some(v)
}

fn build_images(rows: &Vec<ImageRow>) -> (r: Option<Vec<ImageAsset>>)
    ensures
        r is Some <==> forall|k: int| 0 <= k < rows@.len() ==> tiles_sized((#[trigger] rows@[k]).view().tiles),
        r matches Some(v) ==> v@.len() == rows@.len() && forall|k: int| 0 <= k < rows@.len() ==> (#[trigger] v@[k]).view()
            == image_of_row(rows@[k].view()),
{
    let mut v: Vec<ImageAsset> = Vec::new();
    let mut i: usize = 0;
    while i < rows.len()
        invariant
            i <= rows@.len(),
            v@.len() == i,
            forall|k: int| 0 <= k < i ==> tiles_sized((#[trigger] rows@[k]).view().tiles),
            forall|k: int| 0 <= k < i ==> (#[trigger] v@[k]).view() == image_of_row(rows@[k].view()),
        decreases rows@.len() - i,
    {
        match image_from_row(&rows[i]) {
            Some(x) => {
                v.push(x);
            },
            None => {
                return None;
            },
        }
        i = i + 1;
    }
    Some(v)
}

fn drawing_ids_distinct(v: &Vec<Drawing>) -> (r: bool)
    ensures
        r == drawing_ids_unique(v@),
{
    let mut j: usize = 0;
    while j < v.len()
        invariant
            j <= v@.len(),
            forall|a: int, b: int| 0 <= a < b < j ==> #[trigger] v@[a].id != #[trigger] v@[b].id,
        decreases v@.len() - j,
    {
        let mut i: usize = 0;
        while i < j
            invariant
                i <= j < v@.len(),
                forall|a: int| 0 <= a < i ==> #[trigger] v@[a].id != v@[j as int].id,
            decreases j - i,
        {
            if v[i].id == v[j].id {
                return false;
            }
            i = i + 1;
        }
        j = j + 1;
    }
    true
}

fn column_ids_distinct(v: &Vec<Column>) -> (r: bool)
    ensures
        r == column_ids_unique(columns_view(v@)),
{
    let ghost cv = columns_view(v@);
    let mut j: usize = 0;
    while j < v.len()
        invariant
            j <= v@.len(),
            cv == columns_view(v@),
            forall|a: int, b: int| 0 <= a < b < j ==> #[trigger] cv[a].id != #[trigger] cv[b].id,
        decreases v@.len() - j,
    {
        let mut i: usize = 0;
        while i < j
            invariant
                i <= j < v@.len(),
                cv == columns_view(v@),
                forall|a: int| 0 <= a < i ==> #[trigger] cv[a].id != cv[j as int].id,
            decreases j - i,
        {
            if v[i].id.0 == v[j].id.0 {
                proof {
                    assert(cv[i as int].id == cv[j as int].id);
                }
                return false;
            }
            i = i + 1;
        }
        j = j + 1;
    }
    true
}

fn node_ids_ascend(v: &Vec<Node>) -> (r: bool)
    ensures
        r == ids_ascending(nodes_view(v@)),
{
    let ghost gs = nodes_view(v@);
    let mut i: usize = 1;
    while i < v.len()
        invariant
            1 <= i,
            gs == nodes_view(v@),
            forall|a: int, b: int| 0 <= a < b < i && b < gs.len() ==> #[trigger] gs[a].id < #[trigger] gs[b].id,
        decreases v@.len() - i,
    {
        if v[i - 1].id.0 >= v[i].id.0 {
            proof {
                assert(gs[i - 1].id >= gs[i as int].id);
            }
            return false;
        }
        proof {
            assert forall|a: int, b: int| 0 <= a < b < i + 1 && b < gs.len() implies #[trigger] gs[a].id < #[trigger] gs[b].id by {
                if b == i && a < i - 1 {
                    assert(gs[a].id < gs[i - 1].id);
                }
            }
        }
        i = i + 1;
    }
    true
}

/// Every wire names a node, no wire closes a cycle, and the output exists.
fn graph_sound(g: &Graph) -> (r: bool)
    requires
        g.wf_ids(),
    ensures
        r == (inputs_exist(g.gs()) && acyclic(g.gs()) && (g.output matches Some(o) ==> has_node(g.gs(), o.0))),
{
    let ghost gs = g.gs();
    let mut k: usize = 0;
    while k < g.nodes.len()
        invariant
            g.wf_ids(),
            gs == g.gs(),
            k <= gs.len(),
            forall|a: int, p: int| 0 <= a < k && 0 <= p < gs[a].inputs.len() && (#[trigger] gs[a].inputs[p]) is Some ==> has_node(
                gs,
                gs[a].inputs[p].unwrap().0.0,
            ) && !crate::graph::upstream(gs, gs[a].inputs[p].unwrap().0.0, gs[a].id),
        decreases gs.len() - k,
    {
        let node = &g.nodes[k];
        let mut p: usize = 0;
        while p < node.inputs.len()
            invariant
                g.wf_ids(),
                gs == g.gs(),
                k < gs.len(),
                gs[k as int] == node.view(),
                p <= gs[k as int].inputs.len(),
                forall|a: int, q: int| 0 <= a < k && 0 <= q < gs[a].inputs.len() && (#[trigger] gs[a].inputs[q]) is Some ==> has_node(
                    gs,
                    gs[a].inputs[q].unwrap().0.0,
                ) && !crate::graph::upstream(gs, gs[a].inputs[q].unwrap().0.0, gs[a].id),
                forall|q: int| 0 <= q < p && (#[trigger] gs[k as int].inputs[q]) is Some ==> has_node(
                    gs,
                    gs[k as int].inputs[q].unwrap().0.0,
                ) && !crate::graph::upstream(gs, gs[k as int].inputs[q].unwrap().0.0, gs[k as int].id),
            decreases gs[k as int].inputs.len() - p,
        {
            match node.inputs[p] {
                Some(src) => {
                    if !g.contains(src.0) {
                        proof {
                            assert(gs[k as int].inputs[p as int] is Some);
                        }
                        return false;
                    }
                    if g.would_cycle(src.0, node.id) {
                        proof {
                            assert(gs[k as int].inputs[p as int] is Some);
                            assert(crate::graph::feeds(gs, src.0.0, gs[k as int].id));
                        }
                        return false;
                    }
                },
                None => {},
            }
            p = p + 1;
        }
        k = k + 1;
    }
    proof {
        assert forall|m: u64, a: u64| #[trigger] crate::graph::feeds(gs, m, a) implies !crate::graph::upstream(gs, m, a) by {
            let (i, p) = choose|i: int, p: int|
                0 <= i < gs.len() && gs[i].id == a && 0 <= p < gs[i].inputs.len() && (#[trigger] gs[i].inputs[p]) is Some
                    && gs[i].inputs[p].unwrap().0.0 == m;
            assert(gs[i].inputs[p] is Some);
        }
    }
    match g.output {
        Some(o) => g.contains(o),
        None => true,
    }
}

fn has_drawing_id(v: &Vec<Drawing>, id: DrawingId) -> (r: bool)
    ensures
        r == crate::model::has_drawing(v@, id),
{
    let mut i: usize = 0;
    while i < v.len()
        invariant
            i <= v@.len(),
            forall|k: int| 0 <= k < i ==> #[trigger] v@[k].id != id,
        decreases v@.len() - i,
    {
        if v[i].id == id {
            return true;
        }
        i = i + 1;
    }
    false
}

/// Whether every drawing the columns expose is in the library.
fn keys_resolve_check(cols: &Vec<Column>, drawings: &Vec<Drawing>) -> (r: bool)
    requires
        forall|k: int| 0 <= k < cols@.len() ==> (#[trigger] cols@[k]).wf(),
    ensures
        r == keys_resolve(columns_view(cols@), drawing_map(drawings@)),
{
    let ghost cv = columns_view(cols@);
    let ghost dm = drawing_map(drawings@);
    let mut k: usize = 0;
    while k < cols.len()
        invariant
            k <= cols@.len(),
            cv == columns_view(cols@),
            dm == drawing_map(drawings@),
            forall|j: int| 0 <= j < cols@.len() ==> (#[trigger] cols@[j]).wf(),
            forall|a: int, f: u32| 0 <= a < k && #[trigger] cv[a].keys.contains_key(f) && cv[a].keys[f] is Drawing
                ==> dm.contains_key(cv[a].keys[f]->Drawing_0),
        decreases cols@.len() - k,
    {
        let entries = cols[k].keys.entries();
        proof {
            cols@[k as int].keys.lemma_listing();
        }
        let mut i: usize = 0;
        while i < entries.len()
            invariant
                k < cols@.len(),
                i <= entries@.len(),
                entries@ == cols@[k as int].keys.listing(),
                cv == columns_view(cols@),
                dm == drawing_map(drawings@),
                cols@[k as int].wf(),
                forall|j: int| 0 <= j < entries@.len() ==> #[trigger] cols@[k as int].keys@.contains_key(entries@[j].0)
                    && cols@[k as int].keys@[entries@[j].0] == entries@[j].1,
                forall|j: int| 0 <= j < i && (#[trigger] entries@[j]).1 is Drawing ==> dm.contains_key(entries@[j].1->Drawing_0),
            decreases entries@.len() - i,
        {
            match entries[i].1 {
                Exposure::Drawing(d) => {
                    if !has_drawing_id(drawings, d) {
                        proof {
                            assert(cv[k as int].keys.contains_key(entries@[i as int].0));
                        }
                        return false;
                    }
                },
                Exposure::Empty => {},
            }
            i = i + 1;
        }
        proof {
            assert forall|f: u32| #[trigger] cv[k as int].keys.contains_key(f) && cv[k as int].keys[f] is Drawing implies dm.contains_key(
                cv[k as int].keys[f]->Drawing_0,
            ) by {
                let j = choose|j: int| 0 <= j < cols@[k as int].keys.listing().len() && #[trigger] cols@[k as int].keys.listing()[j].0 == f;
                assert(entries@[j].0 == f);
            }
        }
        k = k + 1;
    }
    true
}

proof fn lemma_drawings_of_rows(v: Seq<Drawing>, ds: Seq<DrawingRowView>)
    requires
        v.len() == ds.len(),
        forall|k: int| 0 <= k < v.len() ==> (#[trigger] v[k]).id == ds[k].id && v[k].view() == drawing_of_row(ds[k]),
        drawing_ids_unique(v),
    ensures
        drawing_map(v) == drawings_of_rows(ds),
{
    let m = drawings_of_rows(ds);
    assert forall|d: DrawingId| #[trigger] drawing_map(v).contains_key(d) <==> m.contains_key(d) by {
        if drawing_map(v).contains_key(d) {
            let i = choose|i: int| 0 <= i < v.len() && #[trigger] v[i].id == d;
            assert(ds[i].id == d);
        }
        if m.contains_key(d) {
            let i = choose|i: int| 0 <= i < ds.len() && #[trigger] ds[i].id == d;
            assert(v[i].id == d);
        }
    }
    assert forall|d: DrawingId| #[trigger] drawing_map(v).contains_key(d) implies drawing_map(v)[d] == m[d] by {
        let i = choose|i: int| 0 <= i < v.len() && #[trigger] v[i].id == d;
        crate::model::lemma_drawing_at(v, i);
        assert(ds[i].id == d);
        let j = choose|j: int| 0 <= j < ds.len() && #[trigger] ds[j].id == d;
        assert(v[j].id == d);
        if i < j {
            assert(v[i].id != v[j].id);
        } else if j < i {
            assert(v[j].id != v[i].id);
        }
    }
    assert(drawing_map(v) =~= m);
}

fn cut_from_row(c: &CutRow) -> (r: Option<Cut>)
    ensures
        r is Some <==> cut_row_ok(c.view()),
        r matches Some(x) ==> x.view() == cut_of_row(c.view()) && x.wf(),
{
    reveal(cut_of_row);
    reveal(cut_row_ok);
    let ghost cv = c.view();
    let drawings = match build_drawings(&c.drawings) {
        Some(v) => v,
        None => {
            proof {
                let k = choose|k: int| 0 <= k < c.drawings@.len() && !drawing_row_ok((#[trigger] c.drawings@[k]).view());
                assert(cv.drawings[k] == c.drawings@[k].view());
            }
            return None;
        },
    };
    let columns = match build_columns(&c.columns) {
        Some(v) => v,
        None => {
            proof {
                let k = choose|k: int| 0 <= k < c.columns@.len() && !column_row_ok((#[trigger] c.columns@[k]).view());
                assert(cv.columns[k] == c.columns@[k].view());
            }
            return None;
        },
    };
    let params = match build_params(&c.params) {
        Some(v) => v,
        None => {
            proof {
                let k = choose|k: int| 0 <= k < c.params@.len() && !frames_ascending((#[trigger] c.params@[k]).view().keys);
                assert(cv.params[k] == c.params@[k].view());
            }
            return None;
        },
    };
    let nodes = match build_nodes(&c.nodes) {
        Some(v) => v,
        None => {
            proof {
                let k = choose|k: int| 0 <= k < c.nodes@.len() && !node_row_ok((#[trigger] c.nodes@[k]).view());
                assert(cv.nodes[k] == c.nodes@[k].view());
            }
            return None;
        },
    };
    let images = match build_images(&c.images) {
        Some(v) => v,
        None => {
            proof {
                let k = choose|k: int| 0 <= k < c.images@.len() && !tiles_sized((#[trigger] c.images@[k]).view().tiles);
                assert(cv.images[k] == c.images@[k].view());
            }
            return None;
        },
    };
    let ghost v = cut_of_row(cv);
    proof {
        assert forall|i: int| 0 <= i < cv.drawings.len() implies drawing_row_ok(#[trigger] cv.drawings[i]) by {
            assert(cv.drawings[i] == c.drawings@[i].view());
        }
        assert forall|i: int| 0 <= i < cv.images.len() implies tiles_sized((#[trigger] cv.images[i]).tiles) by {
            assert(cv.images[i] == c.images@[i].view());
        }
        assert forall|i: int| 0 <= i < cv.columns.len() implies column_row_ok(#[trigger] cv.columns[i]) by {
            assert(cv.columns[i] == c.columns@[i].view());
        }
        assert forall|i: int| 0 <= i < cv.params.len() implies frames_ascending((#[trigger] cv.params[i]).keys) by {
            assert(cv.params[i] == c.params@[i].view());
        }
        assert forall|i: int| 0 <= i < cv.nodes.len() implies node_row_ok(#[trigger] cv.nodes[i]) by {
            assert(cv.nodes[i] == c.nodes@[i].view());
        }
        assert(columns_view(columns@) =~= v.columns);
        assert(crate::model::params_view(params@) =~= v.params);
        assert(nodes_view(nodes@) =~= v.graph.nodes);
        assert(images_view(images@) =~= v.images);
        assert(crate::model::drawing_ids(drawings@) =~= v.order);
        assert forall|i: int| 0 <= i < nodes@.len() implies (#[trigger] nodes_view(nodes@)[i]).inputs.len()
            == input_count_spec(nodes_view(nodes@)[i].kind) by {
            assert(nodes_view(nodes@)[i] == node_of_row(c.nodes@[i].view()));
        }
    }
    if !drawing_ids_distinct(&drawings) {
        proof {
            let (a, b) = choose|a: int, b: int| 0 <= a < b < drawings@.len() && #[trigger] drawings@[a].id == #[trigger] drawings@[b].id;
            assert(cv.drawings[a].id == drawings@[a].id);
            assert(cv.drawings[b].id == drawings@[b].id);
        }
        return None;
    }
    proof {
        assert forall|a: int, b: int| 0 <= a < b < cv.drawings.len() implies #[trigger] cv.drawings[a].id != #[trigger] cv.drawings[b].id by {
            assert(cv.drawings[a].id == drawings@[a].id);
            assert(cv.drawings[b].id == drawings@[b].id);
        }
        assert forall|k: int| 0 <= k < drawings@.len() implies (#[trigger] drawings@[k]).id == cv.drawings[k].id
            && drawings@[k].view() == drawing_of_row(cv.drawings[k]) by {
            assert(cv.drawings[k] == c.drawings@[k].view());
        }
        lemma_drawings_of_rows(drawings@, cv.drawings);
    }
    if !column_ids_distinct(&columns) {
        proof {
            let (a, b) = choose|a: int, b: int| 0 <= a < b < columns_view(columns@).len() && #[trigger] columns_view(columns@)[a].id
                == #[trigger] columns_view(columns@)[b].id;
            assert(cv.columns[a].id.0 == v.columns[a].id);
            assert(cv.columns[b].id.0 == v.columns[b].id);
        }
        return None;
    }
    proof {
        assert forall|a: int, b: int| 0 <= a < b < cv.columns.len() implies #[trigger] cv.columns[a].id != #[trigger] cv.columns[b].id by {
            assert(cv.columns[a].id.0 == v.columns[a].id);
            assert(cv.columns[b].id.0 == v.columns[b].id);
            assert(v.columns[a].id != v.columns[b].id);
        }
    }
    if !node_ids_ascend(&nodes) {
        return None;
    }
    let graph = Graph { nodes, output: c.output };
    if !graph_sound(&graph) {
        return None;
    }
    if !keys_resolve_check(&columns, &drawings) {
        return None;
    }
    Some(Cut {
        id: c.id,
        name: c.name.clone(),
        frame_count: c.frame_count,
        drawings,
        xsheet: XSheet { columns, params },
        graph,
        images,
    })
}

fn scene_from_row(sr: &SceneRow) -> (r: Option<Scene>)
    ensures
        r is Some <==> forall|ci: int| 0 <= ci < sr.view().cuts.len() ==> cut_row_ok(#[trigger] sr.view().cuts[ci]),
        r matches Some(x) ==> x.view() == scene_of_row(sr.view()) && x.wf(),
{
    let mut cuts: Vec<Cut> = Vec::new();
    let mut i: usize = 0;
    while i < sr.cuts.len()
        invariant
            i <= sr.cuts@.len(),
            cuts@.len() == i,
            forall|k: int| 0 <= k < i ==> cut_row_ok((#[trigger] sr.cuts@[k]).view()),
            forall|k: int| 0 <= k < i ==> (#[trigger] cuts@[k]).view() == cut_of_row(sr.cuts@[k].view()) && cuts@[k].wf(),
        decreases sr.cuts@.len() - i,
    {
        match cut_from_row(&sr.cuts[i]) {
            Some(x) => {
                cuts.push(x);
            },
            None => {
                proof {
                    assert(sr.view().cuts[i as int] == sr.cuts@[i as int].view());
                }
                return None;
            },
        }
        i = i + 1;
    }
    proof {
        assert forall|ci: int| 0 <= ci < sr.view().cuts.len() implies cut_row_ok(#[trigger] sr.view().cuts[ci]) by {
            assert(sr.view().cuts[ci] == sr.cuts@[ci].view());
        }
        assert(crate::model::cuts_view(cuts@) =~= sr.view().cuts.map_values(|c: CutRowView| cut_of_row(c)));
    }
    Some(Scene { id: sr.id, name: sr.name.clone(), cuts })
}

/// Index of the first `meta` row with this key.
fn meta_find(meta: &Vec<(String, String)>, key: &str) -> (r: Option<usize>)
    ensures
        match r {
            Some(i) => i < meta@.len() && meta_view(meta@)[i as int].0 == key@ && meta_get(meta_view(meta@), key@) == Some(
                meta_view(meta@)[i as int].1,
            ),
            None => meta_get(meta_view(meta@), key@) is None,
        },
{
    reveal(meta_get);
    let ghost m = meta_view(meta@);
    let mut i: usize = 0;
    while i < meta.len()
        invariant
            i <= meta@.len(),
            m == meta_view(meta@),
            forall|j: int| 0 <= j < i ==> #[trigger] m[j].0 != key@,
        decreases meta@.len() - i,
    {
        if crate::text::text_eq(meta[i].0.as_str(), key) {
            proof {
                reveal(meta_get);
                assert(m[i as int].0 == key@ && forall|j: int| 0 <= j < i ==> #[trigger] m[j].0 != key@);
                let k = choose|k: int| 0 <= k < m.len() && m[k].0 == key@ && forall|j: int| 0 <= j < k ==> #[trigger] m[j].0 != key@;
                assert(m[i as int].0 == key@);
                if k < i {
                    assert(m[k].0 != key@);
                }
                if k > i {
                    assert(m[i as int].0 != key@);
                }
            }
            return Some(i);
        }
        i = i + 1;
    }
    proof {
        reveal(meta_get);
    }
    None
}

/// The value of digits `t[start..]`, when there is at least one, all are
/// ASCII digits, and the value is at most `max`.
fn parse_digits(t: &Vec<char>, start: usize, max: u64) -> (r: Option<u64>)
    requires
        start <= t@.len(),
    ensures
        ({
            let ds = t@.skip(start as int);
            if ds.len() > 0 && all_digit_chars(ds) && digits_value(ds) <= max {
                r == Some(digits_value(ds) as u64)
            } else {
                r is None
            }
        }),
{
    let ghost ds = t@.skip(start as int);
    if start == t.len() {
        return None;
    }
    let mut i = start;
    let mut acc: u128 = 0;
    while i < t.len()
        invariant
            start < t@.len(),
            ds == t@.skip(start as int),
            start <= i <= t@.len(),
            all_digit_chars(ds.take(i - start)),
            acc == digits_value(ds.take(i - start)),
            acc <= max,
        decreases t@.len() - i,
    {
        let c = t[i];
        if !('0' <= c && c <= '9') {
            proof {
                assert(ds[i - start] == c);
                assert(!all_digit_chars(ds));
            }
            return None;
        }
        proof {
            let p = ds.take(i - start + 1);
            assert(p.drop_last() =~= ds.take(i - start));
            assert(p.last() == c);
        }
        let next: u128 = acc * 10 + (c as u32 - 48) as u128;
        if next > max as u128 {
            proof {
                let k = i - start + 1;
                assert(digits_value(ds.take(k)) == next);
                assert(ds.take(ds.len() as int) =~= ds);
                if all_digit_chars(ds) {
                    assert(all_digit_chars(ds.take(ds.len() as int)));
                    crate::net::lemma_prefix_value_grows(ds, k, ds.len() as int);
                }
            }
            return None;
        }
        acc = next;
        i = i + 1;
        proof {
            assert forall|j: int| 0 <= j < ds.take(i - start).len() implies '0' <= #[trigger] ds.take(i - start)[j] <= '9' by {
                if j < i - start - 1 {
                    assert(ds.take(i - start)[j] == ds.take(i - start - 1)[j]);
                }
            }
        }
    }
    proof {
        assert(ds.take(i - start) =~= ds);
    }
    Some(acc as u64)
}

/// `str::parse` of an unsigned number no larger than `max`.
fn parse_nat(t: &str, max: u64) -> (r: Option<u64>)
    ensures
        match parse_nat_spec(t@, max as nat) {
            Some(n) => n <= max && r == Some(n as u64),
            None => r is None,
        },
{
    reveal(parse_nat_spec);
    let cs = chars_of(t);
    let start: usize = if cs.len() > 0 && cs[0] == '+' { 1 } else { 0 };
    proof {
        let ds = if t@.len() > 0 && t@[0] == '+' { t@.drop_first() } else { t@ };
        assert(ds =~= cs@.skip(start as int));
    }
    parse_digits(&cs, start, max)
}

/// `str::parse::<i64>`.
fn parse_i64(t: &str) -> (r: Option<i64>)
    ensures
        match parse_i64_spec(t@) {
            Some(n) => i64::MIN <= n <= i64::MAX && r == Some(n as i64),
            None => r is None,
        },
{
    reveal(parse_i64_spec);
    reveal(parse_nat_spec);
    let cs = chars_of(t);
    if cs.len() > 0 && cs[0] == '-' {
        proof {
            assert(t@.drop_first() =~= cs@.skip(1));
        }
        match parse_digits(&cs, 1, 0x8000_0000_0000_0000) {
            Some(n) => {
                if n == 0x8000_0000_0000_0000 {
                    Some(i64::MIN)
                } else {
                    Some(-(n as i64))
                }
            },
            None => None,
        }
    } else {
        match parse_nat(t, 0x7fff_ffff_ffff_ffff) {
            Some(n) => Some(n as i64),
            None => None,
        }
    }
}

/// The app-owned entries of the `meta` rows.
fn app_meta_from(meta: &Vec<(String, String)>) -> (r: Vec<(String, String)>)
    ensures
        meta_view(r@) == app_meta_of(meta_view(meta@)),
{
    reveal(app_meta_of);
    let ghost m = meta_view(meta@);
    let mut out: Vec<(String, String)> = Vec::new();
    let mut i: usize = 0;
    proof {
        reveal(app_meta_of);
        assert(m.take(0) =~= Seq::<(Seq<char>, Seq<char>)>::empty());
        assert(meta_view(out@) =~= app_meta_of(m.take(0)));
    }
    while i < meta.len()
        invariant
            i <= meta@.len(),
            m == meta_view(meta@),
            meta_view(out@) == app_meta_of(m.take(i as int)),
        decreases meta@.len() - i,
    {
        let cs = chars_of(meta[i].0.as_str());
        let is_app = cs.len() >= 4 && cs[0] == 'a' && cs[1] == 'p' && cs[2] == 'p' && cs[3] == '.';
        proof {
            reveal_strlit("app.");
            reveal(app_meta_of);
            assert(m.take(i + 1).drop_last() =~= m.take(i as int));
            assert(m.take(i + 1).last() == m[i as int]);
            let lit = "app."@;
            assert(lit.len() == 4 && lit[0] == 'a' && lit[1] == 'p' && lit[2] == 'p' && lit[3] == '.');
            if is_app {
                assert(cs@.take(4) =~= lit);
            } else if cs@.len() >= 4 && cs@.take(4) == lit {
                assert(cs@[0] == cs@.take(4)[0]);
                assert(cs@[1] == cs@.take(4)[1]);
                assert(cs@[2] == cs@.take(4)[2]);
                assert(cs@[3] == cs@.take(4)[3]);
            }
            assert(is_app == is_app_key(m[i as int].0));
        }
        let ghost pre = out@;
        if is_app {
            let mut rest: Vec<char> = Vec::new();
            let mut k: usize = 4;
            while k < cs.len()
                invariant
                    4 <= k <= cs@.len(),
                    rest@ == cs@.subrange(4, k as int),
                decreases cs@.len() - k,
            {
                rest.push(cs[k]);
                k = k + 1;
                assert(rest@ =~= cs@.subrange(4, k as int));
            }
            out.push((string_from_chars(&rest), meta[i].1.clone()));
            proof {
                assert(cs@.subrange(4, k as int) =~= m[i as int].0.skip(4));
                assert(meta_view(out@) =~= meta_view(pre).push((m[i as int].0.skip(4), m[i as int].1)));
            }
        }
        i = i + 1;
        proof {
            reveal(app_meta_of);
            if !is_app {
                assert(meta_view(out@) =~= meta_view(pre));
            }
        }
    }
    proof {
        reveal(app_meta_of);
        assert(m.take(i as int) =~= m);
    }
    out
}

fn scenes_from_rows(rows: &Vec<SceneRow>) -> (r: Option<Vec<Scene>>)
    ensures
        r is Some <==> (forall|a: int, ci: int| 0 <= a < rows@.len() && 0 <= ci < rows@[a].view().cuts.len() ==> cut_row_ok(
            #[trigger] rows@[a].view().cuts[ci],
        )),
        r matches Some(v) ==> crate::model::scenes_view(v@) == rows@.map_values(|sr: SceneRow| sr.view()).map_values(
            |sr: SceneRowView| scene_of_row(sr),
        ) && forall|a: int| 0 <= a < v@.len() ==> (#[trigger] v@[a]).wf(),
{
    let mut scenes: Vec<Scene> = Vec::new();
    let mut k: usize = 0;
    while k < rows.len()
        invariant
            k <= rows@.len(),
            scenes@.len() == k,
            forall|a: int, ci: int| 0 <= a < k && 0 <= ci < rows@[a].view().cuts.len() ==> cut_row_ok(#[trigger] rows@[a].view().cuts[ci]),
            forall|a: int| 0 <= a < k ==> (#[trigger] scenes@[a]).view() == scene_of_row(rows@[a].view()) && scenes@[a].wf(),
        decreases rows@.len() - k,
    {
        match scene_from_row(&rows[k]) {
            Some(x) => {
                scenes.push(x);
            },
            None => {
                return None;
            },
        }
        k = k + 1;
    }
    proof {
        assert(crate::model::scenes_view(scenes@) =~= rows@.map_values(|sr: SceneRow| sr.view()).map_values(
            |sr: SceneRowView| scene_of_row(sr),
        ));
    }
    Some(scenes)
}

/// A numeric `meta` value, or `fallback` when the key is absent or its
/// value does not parse.
fn meta_num_or(meta: &Vec<(String, String)>, key: &str, max: u64, fallback: u64) -> (n: u64)
    ensures
        n == (match meta_num(meta_view(meta@), key@, max as nat) {
            Some(v) => v as u64,
            None => fallback,
        }),
        meta_num(meta_view(meta@), key@, max as nat) matches Some(v) ==> v <= max,
{
    match meta_find(meta, key) {
        Some(i) => match {
            proof {
                assert(meta_view(meta@)[i as int].1 == meta@[i as int].1@);
            }
            parse_nat(meta[i].1.as_str(), max)
        } {
            Some(v) => v,
            None => fallback,
        },
        None => fallback,
    }
}

/// The project the rows store. A missing or unreadable schema version,
/// name, frame rate or id counter, and any row that does not make a
/// well-formed cut, is `Corrupt`; a schema version outside 1..=4 is
/// `SchemaVersion`; width, height and dpi default when absent.
#[verifier::rlimit(60)]
pub fn project_from_rows(rows: &ProjectRows) -> (r: Result<Project, EngineError>)
    ensures
        match from_rows_spec(rows.view()) {
            Ok(q) => r matches Ok(p) && p.wf() && p.view() == q,
            Err(e) => r == Err::<Project, EngineError>(e),
        },
{
    let ghost rv = rows.view();
    proof {
        reveal(rows_ok);
        assert forall|a: int, ci: int| 0 <= a < rv.scenes.len() && 0 <= ci < rv.scenes[a].cuts.len() implies #[trigger] rv.scenes[a].cuts[ci]
            == rows.scenes@[a].view().cuts[ci] by {
            assert(rv.scenes[a] == rows.scenes@[a].view());
        }
    }
    let si = match meta_find(&rows.meta, "schema_version") {
        Some(i) => i,
        None => {
            return Err(EngineError::Corrupt);
        },
    };
    proof {
        assert(meta_view(rows.meta@)[si as int].1 == rows.meta@[si as int].1@);
    }
    let v = match parse_i64(rows.meta[si].1.as_str()) {
        Some(v) => v,
        None => {
            return Err(EngineError::Corrupt);
        },
    };
    if v < 1 || v > SCHEMA_VERSION as i64 {
        return Err(EngineError::SchemaVersion(v));
    }
    let ni = match meta_find(&rows.meta, "name") {
        Some(i) => i,
        None => {
            return Err(EngineError::Corrupt);
        },
    };
    proof {
        assert(meta_view(rows.meta@)[ni as int].1 == rows.meta@[ni as int].1@);
    }
    let fps = match meta_find(&rows.meta, "fps") {
        Some(i) => match {
            proof {
                assert(meta_view(rows.meta@)[i as int].1 == rows.meta@[i as int].1@);
            }
            parse_nat(rows.meta[i].1.as_str(), 0xffff_ffff)
        } {
            Some(n) => n,
            None => {
                return Err(EngineError::Corrupt);
            },
        },
        None => {
            return Err(EngineError::Corrupt);
        },
    };
    let next_id = match meta_find(&rows.meta, "next_id") {
        Some(i) => match {
            proof {
                assert(meta_view(rows.meta@)[i as int].1 == rows.meta@[i as int].1@);
            }
            parse_nat(rows.meta[i].1.as_str(), 0xffff_ffff_ffff_ffff)
        } {
            Some(n) => n,
            None => {
                return Err(EngineError::Corrupt);
            },
        },
        None => {
            return Err(EngineError::Corrupt);
        },
    };
    let width = meta_num_or(&rows.meta, "width", 0xffff_ffff, 1920);
    let height = meta_num_or(&rows.meta, "height", 0xffff_ffff, 1080);
    let dpi = match rows.dpi {
        Some(d) => d,
        None => DPI_300,
    };
    let scenes = match scenes_from_rows(&rows.scenes) {
        Some(v) => v,
        None => {
            proof {
                reveal(rows_ok);
                let (a, ci) = choose|a: int, ci: int| 0 <= a < rows.scenes@.len() && 0 <= ci < rows.scenes@[a].view().cuts.len()
                    && !cut_row_ok(#[trigger] rows.scenes@[a].view().cuts[ci]);
                assert(rv.scenes[a] == rows.scenes@[a].view());
                assert(!cut_row_ok(rv.scenes[a].cuts[ci]));
            }
            return Err(EngineError::Corrupt);
        },
    };
    proof {
        reveal(rows_ok);
        assert forall|a: int, ci: int| 0 <= a < rv.scenes.len() && 0 <= ci < rv.scenes[a].cuts.len() implies cut_row_ok(
            #[trigger] rv.scenes[a].cuts[ci],
        ) by {
            assert(rv.scenes[a] == rows.scenes@[a].view());
        }
        assert(rows_ok(rv));
        assert(rv.scenes.map_values(|sr: SceneRowView| scene_of_row(sr)) =~= rows.scenes@.map_values(|sr: SceneRow| sr.view()).map_values(
            |sr: SceneRowView| scene_of_row(sr),
        ));
    }
    let app_meta = app_meta_from(&rows.meta);
    let p = Project {
        name: rows.meta[ni].1.clone(),
        fps: fps as u32,
        width: width as u32,
        height: height as u32,
        dpi,
        scenes,
        next_id,
        app_meta,
    };
    proof {
        let q = from_rows_spec(rv).unwrap();
        assert(p.name@ == q.name);
        assert(p.fps == q.fps);
        assert(p.width == q.width);
        assert(p.height == q.height);
        assert(p.dpi == q.dpi);
        assert(p.next_id == q.next_id);
        assert(p.view().app_meta == q.app_meta);
        assert(p.view().scenes == q.scenes);
    }
    Ok(p)
}

// ---------------------------------------------------------------------------
// Saving then loading gives the project back
// ---------------------------------------------------------------------------

/// A stored tile reads back: whole, with the hash of its texels.
pub open spec fn tiles_sound(s: Seq<(TileCoord, TileData)>) -> bool {
    forall|i: int| 0 <= i < s.len() ==> (#[trigger] s[i]).1.rgba@.len() == TILE_LEN && s[i].1.hash_ok()
}

/// Every tile of every layer and image of the cut is sound.
pub open spec fn cut_tiles_sound(c: Cut) -> bool {
    &&& forall|d: int, l: int| 0 <= d < c.drawings@.len() && 0 <= l < c.drawings@[d].layers@.len()
        ==> tiles_sound((#[trigger] c.drawings@[d].layers@[l]).raster.tiles.entries@)
    &&& forall|i: int| 0 <= i < c.images@.len() ==> tiles_sound((#[trigger] c.images@[i]).tiles.entries@)
}

pub open spec fn project_tiles_sound(p: Project) -> bool {
    forall|si: int, ci: int| 0 <= si < p.scenes@.len() && 0 <= ci < p.scenes@[si].cuts@.len()
        ==> cut_tiles_sound(#[trigger] p.scenes@[si].cuts@[ci])
}

proof fn lemma_tiles_back(s: Seq<(TileCoord, TileData)>)
    requires
        tiles_sound(s),
    ensures
        tiles_sized(tile_rows_spec(s)),
        tile_entries_of(tile_rows_spec(s)) == tile_pairs(s),
{
    assert forall|i: int| 0 <= i < s.len() implies (#[trigger] tile_rows_spec(s)[i]).2.len() == TILE_LEN * 2 by {
        crate::bytes::lemma_u16s_le_len(s[i].1.rgba@);
    }
    assert forall|i: int| 0 <= i < s.len() implies #[trigger] tile_entries_of(tile_rows_spec(s))[i] == tile_pairs(s)[i] by {
        lemma_tile_of_bytes(s[i].1, u16s_le(s[i].1.rgba@));
    }
    assert(tile_entries_of(tile_rows_spec(s)) =~= tile_pairs(s));
}

proof fn lemma_drawing_back(d: Drawing)
    requires
        d.wf(),
        forall|l: int| 0 <= l < d.layers@.len() ==> tiles_sound((#[trigger] d.layers@[l]).raster.tiles.entries@),
    ensures
        drawing_row_ok(drawing_rows_spec(d)),
        drawing_of_row(drawing_rows_spec(d)) == d.view(),
{
    let r = drawing_rows_spec(d);
    assert forall|k: int| 0 <= k < r.layers.len() implies layer_row_ok(#[trigger] r.layers[k]) && layer_of_row(r.layers[k])
        == d.layers@[k].view() by {
        lemma_tiles_back(d.layers@[k].raster.tiles.entries@);
        assert(d.layers@[k].raster.wf());
    }
    assert(r.layers.map_values(|l: LayerRowView| layer_of_row(l)) =~= layers_view(d.layers@));
}

proof fn lemma_image_back(a: ImageAsset)
    requires
        tiles_sound(a.tiles.entries@),
    ensures
        tiles_sized(image_rows_spec(a).tiles),
        image_of_row(image_rows_spec(a)) == a.view(),
{
    lemma_tiles_back(a.tiles.entries@);
}

proof fn lemma_column_back(c: Column)
    requires
        c.wf(),
    ensures
        column_row_ok(column_rows_spec(c)),
        column_of_row(column_rows_spec(c)) == c.view(),
{
    reveal_strlit("drawing");
    reveal_strlit("empty");
    let l = c.keys.listing();
    c.keys.lemma_listing();
    c.keys.lemma_view_listing();
    let r = column_rows_spec(c);
    assert forall|i: int| 0 <= i < r.cells.len() implies exposure_of((#[trigger] r.cells[i]).1, r.cells[i].2) == Some(l[i].1) by {
        assert(r.cells[i] == cell_row_spec(l[i]));
        assert("empty"@.len() != "drawing"@.len());
    }
    assert(cell_keys(r.cells) =~= l);
}

proof fn lemma_param_back(c: ParamColumn)
    requires
        c.wf(),
    ensures
        frames_ascending(param_rows_spec(c).keys),
        param_of_row(param_rows_spec(c)) == c.view(),
{
    c.keys.lemma_listing();
    c.keys.lemma_view_listing();
}

/// What the wires of `s` store: pins strictly ascending, each below the
/// slot count and naming a wired slot, and every wired slot stored.
proof fn lemma_links_spec(s: Seq<Option<OutPin>>)
    requires
        s.len() <= 65536,
    ensures
        forall|a: int, b: int| 0 <= a < b < links_spec(s).len() ==> #[trigger] links_spec(s)[a].0 < #[trigger] links_spec(s)[b].0,
        forall|a: int| 0 <= a < links_spec(s).len() ==> (#[trigger] links_spec(s)[a]).0 < s.len() && s[links_spec(s)[a].0 as int]
            == Some((links_spec(s)[a].1, links_spec(s)[a].2)),
        forall|p: int| 0 <= p < s.len() && (#[trigger] s[p]) is Some ==> exists|a: int| 0 <= a < links_spec(s).len() && #[trigger] links_spec(s)[a].0 == p,
    decreases s.len(),
{
    if s.len() > 0 {
        let t = s.drop_last();
        lemma_links_spec(t);
        let lt = links_spec(t);
        let ls = links_spec(s);
        assert forall|a: int| 0 <= a < lt.len() implies #[trigger] lt[a].0 < t.len() by {}
        assert forall|p: int| 0 <= p < s.len() && (#[trigger] s[p]) is Some implies exists|a: int| 0 <= a < ls.len() && #[trigger] ls[a].0 == p by {
            if p < t.len() {
                assert(t[p] == s[p]);
                let a = choose|a: int| 0 <= a < lt.len() && #[trigger] lt[a].0 == p;
                assert(ls[a] == lt[a]);
            } else {
                assert(ls.last().0 == p);
                assert(ls[ls.len() - 1].0 == p);
            }
        }
        assert forall|a: int| 0 <= a < ls.len() implies (#[trigger] ls[a]).0 < s.len() && s[ls[a].0 as int] == Some((ls[a].1, ls[a].2)) by {
            if a < lt.len() {
                assert(ls[a] == lt[a]);
                assert(t[lt[a].0 as int] == s[lt[a].0 as int]);
            }
        }
    }
}

proof fn lemma_node_back(n: Node)
    requires
        n.inputs@.len() == input_count_spec(n.kind),
    ensures
        node_row_ok(node_rows_spec(n)),
        node_of_row(node_rows_spec(n)) == n.view(),
{
    let s = n.inputs@;
    let ls = links_spec(s);
    lemma_links_spec(s);
    assert forall|p: int| 0 <= p < s.len() implies #[trigger] link_at(ls, p) == s[p] by {
        if s[p] is Some {
            let a = choose|a: int| 0 <= a < ls.len() && #[trigger] ls[a].0 == p;
            lemma_link_at(ls, a);
        } else {
            if exists|a: int| 0 <= a < ls.len() && #[trigger] ls[a].0 == p {
                let a = choose|a: int| 0 <= a < ls.len() && #[trigger] ls[a].0 == p;
                assert(s[ls[a].0 as int] is Some);
            }
        }
    }
    assert(Seq::new(input_count_spec(n.kind), |p: int| link_at(ls, p)) =~= s);
}

proof fn lemma_cut_back(c: Cut)
    requires
        c.wf(),
        cut_tiles_sound(c),
    ensures
        cut_row_ok(cut_rows_spec(c)),
        cut_of_row(cut_rows_spec(c)) == c.view(),
{
    reveal(cut_of_row);
    reveal(cut_row_ok);
    let r = cut_rows_spec(c);
    assert forall|i: int| 0 <= i < r.drawings.len() implies drawing_row_ok(#[trigger] r.drawings[i]) && drawing_of_row(r.drawings[i])
        == c.drawings@[i].view() && r.drawings[i].id == c.drawings@[i].id by {
        assert(c.drawings@[i].wf());
        assert forall|l: int| 0 <= l < c.drawings@[i].layers@.len() implies tiles_sound(
            (#[trigger] c.drawings@[i].layers@[l]).raster.tiles.entries@,
        ) by {}
        lemma_drawing_back(c.drawings@[i]);
    }
    assert forall|k: int| 0 <= k < c.drawings@.len() implies (#[trigger] c.drawings@[k]).id == r.drawings[k].id
        && c.drawings@[k].view() == drawing_of_row(r.drawings[k]) by {
        assert(drawing_row_ok(r.drawings[k]));
    }
    lemma_drawings_of_rows(c.drawings@, r.drawings);
    assert forall|i: int| 0 <= i < r.images.len() implies tiles_sized((#[trigger] r.images[i]).tiles) && image_of_row(r.images[i])
        == c.images@[i].view() by {
        lemma_image_back(c.images@[i]);
    }
    assert forall|i: int| 0 <= i < r.columns.len() implies column_row_ok(#[trigger] r.columns[i]) && column_of_row(r.columns[i])
        == c.xsheet.columns@[i].view() by {
        assert(c.xsheet.columns@[i].wf());
        lemma_column_back(c.xsheet.columns@[i]);
    }
    assert forall|i: int| 0 <= i < r.params.len() implies frames_ascending((#[trigger] r.params[i]).keys) && param_of_row(r.params[i])
        == c.xsheet.params@[i].view() by {
        assert(c.xsheet.params@[i].wf());
        lemma_param_back(c.xsheet.params@[i]);
    }
    assert forall|i: int| 0 <= i < r.nodes.len() implies node_row_ok(#[trigger] r.nodes[i]) && node_of_row(r.nodes[i])
        == c.graph.nodes@[i].view() by {
        assert(c.graph.gs()[i] == c.graph.nodes@[i].view());
        lemma_node_back(c.graph.nodes@[i]);
    }
    let v = cut_of_row(r);
    assert(v.order =~= c.view().order);
    assert(v.columns =~= c.view().columns);
    assert(v.params =~= c.view().params);
    assert(v.graph.nodes =~= c.view().graph.nodes);
    assert(v.images =~= c.view().images);
    assert(v == c.view());
    assert forall|i: int, j: int| 0 <= i < j < r.drawings.len() implies #[trigger] r.drawings[i].id != #[trigger] r.drawings[j].id by {
        assert(c.drawings@[i].id != c.drawings@[j].id);
    }
    assert forall|i: int, j: int| 0 <= i < j < r.columns.len() implies #[trigger] r.columns[i].id != #[trigger] r.columns[j].id by {
        assert(columns_view(c.xsheet.columns@)[i].id != columns_view(c.xsheet.columns@)[j].id);
    }
}

proof fn lemma_meta_first(m: Seq<(Seq<char>, Seq<char>)>, k: Seq<char>, i: int)
    requires
        0 <= i < m.len(),
        m[i].0 == k,
        forall|j: int| 0 <= j < i ==> #[trigger] m[j].0 != k,
    ensures
        meta_get(m, k) == Some(m[i].1),
{
    reveal(meta_get);
    let c = choose|c: int| 0 <= c < m.len() && m[c].0 == k && forall|j: int| 0 <= j < c ==> #[trigger] m[j].0 != k;
    if c < i {
        assert(m[c].0 != k);
    }
    if c > i {
        assert(m[i].0 != k);
    }
}

proof fn lemma_parse_decimal(n: nat, max: nat)
    requires
        n <= max,
    ensures
        parse_nat_spec(decimal_spec(n), max) == Some(n),
{
    reveal(parse_nat_spec);
    let t = decimal_spec(n);
    crate::net::lemma_decimal_reads_back(n);
    assert(crate::net::all_digits(t));
    assert forall|i: int| 0 <= i < t.len() implies '0' <= #[trigger] t[i] <= '9' by {}
    assert('0' <= t[0] <= '9');
}

proof fn lemma_app_meta_none(f: Seq<(Seq<char>, Seq<char>)>)
    requires
        forall|i: int| 0 <= i < f.len() ==> !is_app_key((#[trigger] f[i]).0),
    ensures
        app_meta_of(f) == Seq::<(Seq<char>, Seq<char>)>::empty(),
    decreases f.len(),
{
    reveal(app_meta_of);
    if f.len() > 0 {
        lemma_app_meta_none(f.drop_last());
        assert(!is_app_key(f[f.len() - 1].0));
    }
}

proof fn lemma_app_meta_all(f: Seq<(Seq<char>, Seq<char>)>, a: Seq<(Seq<char>, Seq<char>)>)
    requires
        forall|i: int| 0 <= i < f.len() ==> !is_app_key((#[trigger] f[i]).0),
        forall|i: int| 0 <= i < a.len() ==> is_app_key((#[trigger] a[i]).0),
    ensures
        app_meta_of(f + a) == a.map_values(|e: (Seq<char>, Seq<char>)| (e.0.skip(4), e.1)),
    decreases a.len(),
{
    reveal(app_meta_of);
    if a.len() == 0 {
        assert(f + a =~= f);
        lemma_app_meta_none(f);
        assert(a.map_values(|e: (Seq<char>, Seq<char>)| (e.0.skip(4), e.1)) =~= Seq::<(Seq<char>, Seq<char>)>::empty());
    } else {
        lemma_app_meta_all(f, a.drop_last());
        assert((f + a).drop_last() =~= f + a.drop_last());
        assert((f + a).last() == a.last());
        assert(is_app_key(a[a.len() - 1].0));
        assert(a.map_values(|e: (Seq<char>, Seq<char>)| (e.0.skip(4), e.1)) =~= a.drop_last().map_values(
            |e: (Seq<char>, Seq<char>)| (e.0.skip(4), e.1),
        ).push((a.last().0.skip(4), a.last().1)));
    }
}

/// A key whose first character is not 'a' is not an app key.
proof fn lemma_not_app(k: Seq<char>)
    requires
        k.len() > 0,
        k[0] != 'a',
    ensures
        !is_app_key(k),
{
    reveal_strlit("app.");
    if k.len() >= 4 && k.take(4) == "app."@ {
        assert(k.take(4)[0] == k[0]);
    }
}

proof fn lemma_meta_back(p: Project)
    ensures
        meta_get(meta_rows_spec(p), "schema_version"@) == Some(decimal_spec(SCHEMA_VERSION as nat)),
        parse_i64_spec(decimal_spec(SCHEMA_VERSION as nat)) == Some(SCHEMA_VERSION as int),
        meta_get(meta_rows_spec(p), "name"@) == Some(p.name@),
        meta_num(meta_rows_spec(p), "fps"@, u32::MAX as nat) == Some(p.fps as nat),
        meta_num(meta_rows_spec(p), "width"@, u32::MAX as nat) == Some(p.width as nat),
        meta_num(meta_rows_spec(p), "height"@, u32::MAX as nat) == Some(p.height as nat),
        meta_num(meta_rows_spec(p), "next_id"@, u64::MAX as nat) == Some(p.next_id as nat),
        app_meta_of(meta_rows_spec(p)) == meta_view(p.app_meta@),
{
    reveal_strlit("schema_version");
    reveal_strlit("name");
    reveal_strlit("fps");
    reveal_strlit("width");
    reveal_strlit("height");
    reveal_strlit("next_id");
    reveal_strlit("app.");
    let m = meta_rows_spec(p);
    let f = seq![
        ("schema_version"@, decimal_spec(SCHEMA_VERSION as nat)),
        ("name"@, p.name@),
        ("fps"@, decimal_spec(p.fps as nat)),
        ("width"@, decimal_spec(p.width as nat)),
        ("height"@, decimal_spec(p.height as nat)),
        ("next_id"@, decimal_spec(p.next_id as nat)),
    ];
    let a = meta_view(p.app_meta@).map_values(|e: (Seq<char>, Seq<char>)| ("app."@ + e.0, e.1));
    assert(m == f + a);
    assert(m[0] == f[0] && m[1] == f[1] && m[2] == f[2] && m[3] == f[3] && m[4] == f[4] && m[5] == f[5]);
    assert("schema_version"@.len() == 14 && "name"@.len() == 4 && "fps"@.len() == 3 && "width"@.len() == 5
        && "height"@.len() == 6 && "next_id"@.len() == 7);
    lemma_meta_first(m, "schema_version"@, 0);
    lemma_meta_first(m, "name"@, 1);
    lemma_meta_first(m, "fps"@, 2);
    lemma_meta_first(m, "width"@, 3);
    lemma_meta_first(m, "height"@, 4);
    lemma_meta_first(m, "next_id"@, 5);
    lemma_parse_decimal(SCHEMA_VERSION as nat, i64::MAX as nat);
    reveal(parse_i64_spec);
    crate::net::lemma_decimal_reads_back(SCHEMA_VERSION as nat);
    assert('0' <= decimal_spec(SCHEMA_VERSION as nat)[0] <= '9');
    lemma_parse_decimal(p.fps as nat, u32::MAX as nat);
    lemma_parse_decimal(p.width as nat, u32::MAX as nat);
    lemma_parse_decimal(p.height as nat, u32::MAX as nat);
    lemma_parse_decimal(p.next_id as nat, u64::MAX as nat);
    assert forall|i: int| 0 <= i < f.len() implies !is_app_key((#[trigger] f[i]).0) by {
        if i == 2 {
        } else {
            lemma_not_app(f[i].0);
        }
    }
    assert forall|i: int| 0 <= i < a.len() implies is_app_key((#[trigger] a[i]).0) by {
        assert((a[i].0).take(4) =~= "app."@);
    }
    lemma_app_meta_all(f, a);
    assert(a.map_values(|e: (Seq<char>, Seq<char>)| (e.0.skip(4), e.1)) =~= meta_view(p.app_meta@)) by {
        assert forall|i: int| 0 <= i < a.len() implies #[trigger] a[i].0.skip(4) == meta_view(p.app_meta@)[i].0 by {
            assert(a[i].0.skip(4) =~= meta_view(p.app_meta@)[i].0);
        }
    }
}

/// Saving then loading gives the project back: the rows of a
/// well-formed project whose tiles are whole and carry their own hashes
/// load as that same project.
pub proof fn lemma_rows_roundtrip(p: Project)
    requires
        p.wf(),
        project_tiles_sound(p),
    ensures
        from_rows_spec(rows_spec(p)) == Ok::<ProjectView, EngineError>(p.view()),
{
    let r = rows_spec(p);
    lemma_meta_back(p);
    reveal(rows_ok);
    assert forall|si: int, ci: int| 0 <= si < r.scenes.len() && 0 <= ci < r.scenes[si].cuts.len() implies cut_row_ok(
        #[trigger] r.scenes[si].cuts[ci],
    ) && cut_of_row(r.scenes[si].cuts[ci]) == p.scenes@[si].cuts@[ci].view() by {
        assert(p.scenes@[si].wf());
        assert(p.scenes@[si].cuts@[ci].wf());
        assert(cut_tiles_sound(p.scenes@[si].cuts@[ci]));
        lemma_cut_back(p.scenes@[si].cuts@[ci]);
    }
    assert(rows_ok(r));
    assert forall|si: int| 0 <= si < r.scenes.len() implies #[trigger] scene_of_row(r.scenes[si]) == p.scenes@[si].view() by {
        assert(scene_of_row(r.scenes[si]).cuts =~= p.scenes@[si].view().cuts);
    }
    assert(r.scenes.map_values(|s: SceneRowView| scene_of_row(s)) =~= p.view().scenes);
}

fn number(n: u64) -> (s: String)
    ensures
        s@ == decimal_spec(n as nat),
{
    string_from_chars(&decimal(n))
}

fn tile_rows(entries: &Vec<(TileCoord, TileData)>) -> (r: Vec<TileRow>)
    ensures
        tile_rows_view(r@) == tile_rows_spec(entries@),
{
    let mut r: Vec<TileRow> = Vec::new();
    let mut i: usize = 0;
    while i < entries.len()
        invariant
            i <= entries@.len(),
            tile_rows_view(r@) == tile_rows_spec(entries@.take(i as int)),
        decreases entries@.len() - i,
    {
        let c = entries[i].0;
        let b = entries[i].1.as_bytes();
        let ghost pre = r@;
        r.push((c.0, c.1, b));
        i = i + 1;
        proof {
            assert(r@ =~= pre.push(r@.last()));
            lemma_map_step(pre, r@.last(), entries@, i - 1, |t: TileRow| (t.0, t.1, t.2@), |e: (TileCoord, TileData)| (e.0.0, e.0.1, u16s_le(e.1.rgba@)));
        }
    }
    proof {
        assert(entries@.take(i as int) =~= entries@);
    }
    r
}

fn layer_row(l: &CelLayer) -> (r: LayerRow)
    ensures
        r.view() == layer_rows_spec(*l),
{
    LayerRow {
        id: l.id,
        name: l.props.name.clone(),
        visible: l.props.visible,
        opacity: l.props.opacity,
        tiles: tile_rows(&l.raster.tiles.entries),
    }
}

fn drawing_row(d: &Drawing) -> (r: DrawingRow)
    ensures
        r.view() == drawing_rows_spec(*d),
{
    let mut layers: Vec<LayerRow> = Vec::new();
    let mut i: usize = 0;
    while i < d.layers.len()
        invariant
            i <= d.layers@.len(),
            layers@.map_values(|l: LayerRow| l.view()) == d.layers@.take(i as int).map_values(|l: CelLayer| layer_rows_spec(l)),
        decreases d.layers@.len() - i,
    {
        let row = layer_row(&d.layers[i]);
        let ghost pre = layers@;
        layers.push(row);
        i = i + 1;
        proof {
            assert(layers@ =~= pre.push(layers@.last()));
            lemma_map_step(pre, layers@.last(), d.layers@, i - 1, |l: LayerRow| l.view(), |l: CelLayer| layer_rows_spec(l));
        }
    }
    proof {
        assert(d.layers@.take(i as int) =~= d.layers@);
    }
    DrawingRow { id: d.id, name: d.name.clone(), strokes: copy_strokes(&d.strokes), layers }
}

fn cell_row(e: (u32, Exposure)) -> (r: CellRow)
    ensures
        (r.0, r.1@, r.2) == cell_row_spec(e),
{
    match e.1 {
        Exposure::Drawing(d) => (e.0, String::from_str("drawing"), Some(d)),
        Exposure::Empty => (e.0, String::from_str("empty"), None),
    }
}

fn column_row(c: &Column) -> (r: ColumnRow)
    requires
        c.wf(),
    ensures
        r.view() == column_rows_spec(*c),
{
    let keys = c.keys.entries();
    let mut cells: Vec<CellRow> = Vec::new();
    let mut i: usize = 0;
    while i < keys.len()
        invariant
            i <= keys@.len(),
            cells@.map_values(|x: CellRow| (x.0, x.1@, x.2)) == keys@.take(i as int).map_values(
                |e: (u32, Exposure)| cell_row_spec(e),
            ),
        decreases keys@.len() - i,
    {
        let ghost pre = cells@;
        cells.push(cell_row(keys[i]));
        i = i + 1;
        proof {
            assert(cells@ =~= pre.push(cells@.last()));
            lemma_map_step(pre, cells@.last(), keys@, i - 1, |x: CellRow| (x.0, x.1@, x.2), |e: (u32, Exposure)| cell_row_spec(e));
        }
    }
    proof {
        assert(keys@.take(i as int) =~= keys@);
    }
    ColumnRow { id: c.id, name: c.name.clone(), cells }
}

fn param_row(c: &ParamColumn) -> (r: ParamRow)
    requires
        c.wf(),
    ensures
        r.view() == param_rows_spec(*c),
{
    ParamRow { id: c.id, name: c.name.clone(), keys: c.keys.entries() }
}

fn links_row(inputs: &Vec<Option<OutPin>>) -> (r: Vec<LinkRow>)
    requires
        inputs@.len() <= 65536,
    ensures
        r@ == links_spec(inputs@),
{
    let mut r: Vec<LinkRow> = Vec::new();
    let mut i: usize = 0;
    while i < inputs.len()
        invariant
            i <= inputs@.len() <= 65536,
            r@ == links_spec(inputs@.take(i as int)),
        decreases inputs@.len() - i,
    {
        proof {
            assert(inputs@.take(i + 1).drop_last() =~= inputs@.take(i as int));
            assert(inputs@.take(i + 1).last() == inputs@[i as int]);
        }
        match inputs[i] {
            Some(src) => {
                r.push((i as u16, src.0, src.1));
            },
            None => {},
        }
        i = i + 1;
    }
    proof {
        assert(inputs@.take(i as int) =~= inputs@);
    }
    r
}

fn node_row(n: &Node) -> (r: NodeRow)
    requires
        n.inputs@.len() <= 65536,
    ensures
        r.view() == node_rows_spec(*n),
{
    NodeRow { id: n.id, kind: n.kind, links: links_row(&n.inputs) }
}

fn image_row(a: &ImageAsset) -> (r: ImageRow)
    ensures
        r.view() == image_rows_spec(*a),
{
    let mut bytes: Vec<u8> = Vec::new();
    let mut i: usize = 0;
    while i < a.bytes.len()
        invariant
            i <= a.bytes@.len(),
            bytes@ == a.bytes@.take(i as int),
        decreases a.bytes@.len() - i,
    {
        bytes.push(a.bytes[i]);
        i = i + 1;
        assert(bytes@ =~= a.bytes@.take(i as int));
    }
    assert(a.bytes@.take(i as int) =~= a.bytes@);
    ImageRow {
        id: a.id,
        name: a.name.clone(),
        width: a.width,
        height: a.height,
        bytes,
        tiles: tile_rows(&a.tiles.entries),
        content_hash: a.content_hash,
    }
}

fn cut_row(c: &Cut) -> (r: CutRow)
    requires
        c.wf(),
    ensures
        r.view() == cut_rows_spec(*c),
{
    let mut drawings: Vec<DrawingRow> = Vec::new();
    let mut i: usize = 0;
    while i < c.drawings.len()
        invariant
            i <= c.drawings@.len(),
            drawings@.map_values(|d: DrawingRow| d.view()) == c.drawings@.take(i as int).map_values(|d: Drawing| drawing_rows_spec(d)),
        decreases c.drawings@.len() - i,
    {
        let ghost pre = drawings@;
        drawings.push(drawing_row(&c.drawings[i]));
        i = i + 1;
        proof {
            assert(drawings@ =~= pre.push(drawings@.last()));
            lemma_map_step(pre, drawings@.last(), c.drawings@, i - 1, |d: DrawingRow| d.view(), |d: Drawing| drawing_rows_spec(d));
        }
    }
    let mut columns: Vec<ColumnRow> = Vec::new();
    let mut j: usize = 0;
    while j < c.xsheet.columns.len()
        invariant
            c.wf(),
            j <= c.xsheet.columns@.len(),
            columns@.map_values(|k: ColumnRow| k.view()) == c.xsheet.columns@.take(j as int).map_values(|k: Column| column_rows_spec(k)),
        decreases c.xsheet.columns@.len() - j,
    {
        let ghost pre = columns@;
        columns.push(column_row(&c.xsheet.columns[j]));
        j = j + 1;
        proof {
            assert(columns@ =~= pre.push(columns@.last()));
            lemma_map_step(pre, columns@.last(), c.xsheet.columns@, j - 1, |k: ColumnRow| k.view(), |k: Column| column_rows_spec(k));
        }
    }
    let mut params: Vec<ParamRow> = Vec::new();
    let mut k: usize = 0;
    while k < c.xsheet.params.len()
        invariant
            c.wf(),
            k <= c.xsheet.params@.len(),
            params@.map_values(|x: ParamRow| x.view()) == c.xsheet.params@.take(k as int).map_values(|x: ParamColumn| param_rows_spec(x)),
        decreases c.xsheet.params@.len() - k,
    {
        let ghost pre = params@;
        params.push(param_row(&c.xsheet.params[k]));
        k = k + 1;
        proof {
            assert(params@ =~= pre.push(params@.last()));
            lemma_map_step(pre, params@.last(), c.xsheet.params@, k - 1, |x: ParamRow| x.view(), |x: ParamColumn| param_rows_spec(x));
        }
    }
    let mut nodes: Vec<NodeRow> = Vec::new();
    let mut m: usize = 0;
    while m < c.graph.nodes.len()
        invariant
            c.wf(),
            m <= c.graph.nodes@.len(),
            nodes@.map_values(|x: NodeRow| x.view()) == c.graph.nodes@.take(m as int).map_values(|x: Node| node_rows_spec(x)),
        decreases c.graph.nodes@.len() - m,
    {
        proof {
            assert(c.graph.gs()[m as int].inputs.len() == input_count_spec(c.graph.gs()[m as int].kind));
        }
        let ghost pre = nodes@;
        nodes.push(node_row(&c.graph.nodes[m]));
        m = m + 1;
        proof {
            assert(nodes@ =~= pre.push(nodes@.last()));
            lemma_map_step(pre, nodes@.last(), c.graph.nodes@, m - 1, |x: NodeRow| x.view(), |x: Node| node_rows_spec(x));
        }
    }
    let mut images: Vec<ImageRow> = Vec::new();
    let mut q: usize = 0;
    while q < c.images.len()
        invariant
            q <= c.images@.len(),
            images@.map_values(|x: ImageRow| x.view()) == c.images@.take(q as int).map_values(|x: ImageAsset| image_rows_spec(x)),
        decreases c.images@.len() - q,
    {
        let ghost pre = images@;
        images.push(image_row(&c.images[q]));
        q = q + 1;
        proof {
            assert(images@ =~= pre.push(images@.last()));
            lemma_map_step(pre, images@.last(), c.images@, q - 1, |x: ImageRow| x.view(), |x: ImageAsset| image_rows_spec(x));
        }
    }
    proof {
        assert(c.drawings@.take(i as int) =~= c.drawings@);
        assert(c.xsheet.columns@.take(j as int) =~= c.xsheet.columns@);
        assert(c.xsheet.params@.take(k as int) =~= c.xsheet.params@);
        assert(c.graph.nodes@.take(m as int) =~= c.graph.nodes@);
        assert(c.images@.take(q as int) =~= c.images@);
    }
    CutRow {
        id: c.id,
        name: c.name.clone(),
        frame_count: c.frame_count,
        output: c.graph.output,
        drawings,
        columns,
        params,
        nodes,
        images,
    }
}

fn scene_row(s: &Scene) -> (r: SceneRow)
    requires
        s.wf(),
    ensures
        r.view() == scene_rows_spec(*s),
{
    let mut cuts: Vec<CutRow> = Vec::new();
    let mut i: usize = 0;
    while i < s.cuts.len()
        invariant
            s.wf(),
            i <= s.cuts@.len(),
            cuts@.map_values(|c: CutRow| c.view()) == s.cuts@.take(i as int).map_values(|c: Cut| cut_rows_spec(c)),
        decreases s.cuts@.len() - i,
    {
        let ghost pre = cuts@;
        cuts.push(cut_row(&s.cuts[i]));
        i = i + 1;
        proof {
            assert(cuts@ =~= pre.push(cuts@.last()));
            lemma_map_step(pre, cuts@.last(), s.cuts@, i - 1, |c: CutRow| c.view(), |c: Cut| cut_rows_spec(c));
        }
    }
    proof {
        assert(s.cuts@.take(i as int) =~= s.cuts@);
    }
    SceneRow { id: s.id, name: s.name.clone(), cuts }
}

/// The rows that store `p`.
pub fn project_rows(p: &Project) -> (rows: ProjectRows)
    requires
        p.wf(),
    ensures
        rows.view() == rows_spec(*p),
{
    let mut meta: Vec<(String, String)> = Vec::new();
    meta.push((String::from_str("schema_version"), number(SCHEMA_VERSION)));
    meta.push((String::from_str("name"), p.name.clone()));
    meta.push((String::from_str("fps"), number(p.fps as u64)));
    meta.push((String::from_str("width"), number(p.width as u64)));
    meta.push((String::from_str("height"), number(p.height as u64)));
    meta.push((String::from_str("next_id"), number(p.next_id)));
    let ghost fixed = meta_view(meta@);
    let mut i: usize = 0;
    while i < p.app_meta.len()
        invariant
            i <= p.app_meta@.len(),
            fixed.len() == 6,
            meta_view(meta@) == fixed + meta_view(p.app_meta@.take(i as int)).map_values(
                |e: (Seq<char>, Seq<char>)| ("app."@ + e.0, e.1),
            ),
        decreases p.app_meta@.len() - i,
    {
        let key = String::from_str("app.").concat(p.app_meta[i].0.as_str());
        let ghost pre = meta@;
        meta.push((key, p.app_meta[i].1.clone()));
        i = i + 1;
        proof {
            assert(meta@ =~= pre.push(meta@.last()));
            let app = |e: (Seq<char>, Seq<char>)| ("app."@ + e.0, e.1);
            assert(meta_view(meta@) =~= meta_view(pre).push(meta_view(meta@).last()));
            assert(meta_view(p.app_meta@.take(i as int)) =~= meta_view(p.app_meta@.take(i - 1)).push(
                meta_view(p.app_meta@.take(i as int)).last(),
            ));
            assert(meta_view(p.app_meta@.take(i as int)).map_values(app) =~= meta_view(p.app_meta@.take(i - 1)).map_values(app).push(
                app(meta_view(p.app_meta@.take(i as int)).last()),
            ));
            assert(meta_view(meta@) =~= fixed + meta_view(p.app_meta@.take(i as int)).map_values(app));
        }
    }
    proof {
        assert(p.app_meta@.take(i as int) =~= p.app_meta@);
        assert(fixed =~= seq![
            ("schema_version"@, decimal_spec(SCHEMA_VERSION as nat)),
            ("name"@, p.name@),
            ("fps"@, decimal_spec(p.fps as nat)),
            ("width"@, decimal_spec(p.width as nat)),
            ("height"@, decimal_spec(p.height as nat)),
            ("next_id"@, decimal_spec(p.next_id as nat)),
        ]);
    }
    let mut scenes: Vec<SceneRow> = Vec::new();
    let mut k: usize = 0;
    while k < p.scenes.len()
        invariant
            p.wf(),
            k <= p.scenes@.len(),
            scenes@.map_values(|s: SceneRow| s.view()) == p.scenes@.take(k as int).map_values(|s: Scene| scene_rows_spec(s)),
        decreases p.scenes@.len() - k,
    {
        let ghost pre = scenes@;
        scenes.push(scene_row(&p.scenes[k]));
        k = k + 1;
        proof {
            assert(scenes@ =~= pre.push(scenes@.last()));
            lemma_map_step(pre, scenes@.last(), p.scenes@, k - 1, |s: SceneRow| s.view(), |s: Scene| scene_rows_spec(s));
        }
    }
    proof {
        assert(p.scenes@.take(k as int) =~= p.scenes@);
    }
    ProjectRows { meta, dpi: Some(p.dpi), scenes }
}

} // verus!
