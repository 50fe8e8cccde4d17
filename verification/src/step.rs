//! What a command does, stated over the abstract document.
//!
//! `cut_step` is the meaning of one command on one cut: the cut after it,
//! the inverse commands, and the invalidation roots — or the error that
//! refuses it (and then the cut is untouched). `project_step` locates the
//! cut first; `replay_spec` runs a list of commands, stopping at the first
//! refusal.

use vstd::prelude::*;
use crate::command::{CommandView, CutRef, TileChangeView};
use crate::error::{CommandFault, EngineError};
use crate::graph::{
    GraphView, NodeKind, NodeView, OutPin, has_node, ids_ascending, ids_where, input_count_spec, is_source_of_column,
    resized, sever_all, severed_spec, upstream, with_input, downstream,
};
use crate::ids::{ColumnId, DrawingId, LayerId, NodeId};
use crate::model::{
    CelLayerView, CutView, DrawingView, ProjectView, drawing_pos, SceneView, StrokeView, cut_pos, layer_pos, lemma_cut_pos_props,
    lemma_scene_pos_props, scene_pos,
};
use crate::raster::{TileCoord, TileView};
use crate::xsheet::{ColumnView, Exposure};

verus! {

/// The outcome of one accepted command on a cut.
pub struct Effect {
    pub cut: CutView,
    /// Commands that undo it, in the order they must be applied.
    pub inverse: Seq<CommandView>,
    /// Nodes whose cached values it invalidates (with their downstream).
    pub roots: Seq<NodeId>,
}

// ---- Lookups ----------------------------------------------------------------------

/// Position of the node with this id (ids are unique in a well-formed graph).
pub open spec fn node_pos(gs: Seq<NodeView>, id: u64) -> int {
    choose|k: int| 0 <= k < gs.len() && gs[k].id == id
}

/// `p` splits the nodes into those with smaller and those with larger ids.
pub open spec fn splits_at(gs: Seq<NodeView>, id: u64, p: int) -> bool {
    &&& 0 <= p <= gs.len()
    &&& forall|j: int| 0 <= j < p ==> #[trigger] gs[j].id < id
    &&& forall|j: int| p <= j < gs.len() ==> #[trigger] gs[j].id > id
}

pub proof fn lemma_node_pos(gs: Seq<NodeView>, id: u64, i: int)
    requires
        ids_ascending(gs),
        0 <= i < gs.len(),
        gs[i].id == id,
    ensures
        node_pos(gs, id) == i,
{
    let k = node_pos(gs, id);
    assert(gs[k].id == id);
    if k < i {
        assert(gs[k].id < gs[i].id);
    }
    if k > i {
        assert(gs[i].id < gs[k].id);
    }
}

pub proof fn lemma_insert_pos(gs: Seq<NodeView>, id: u64, p: int)
    requires
        splits_at(gs, id, p),
    ensures
        insert_pos(gs, id) == p,
{
    let q = insert_pos(gs, id);
    assert(splits_at(gs, id, q));
    if q < p {
        assert(gs[q].id < id);
        assert(gs[q].id > id);
    }
    if p < q {
        assert(gs[p].id < id);
        assert(gs[p].id > id);
    }
}

/// Where a node with this id goes to keep ids ascending.
pub open spec fn insert_pos(gs: Seq<NodeView>, id: u64) -> int {
    choose|p: int| #[trigger] splits_at(gs, id, p)
}

/// Index of the first column with this id.
pub open spec fn column_pos(cols: Seq<ColumnView>, id: ColumnId) -> Option<int> {
    if exists|i: int| 0 <= i < cols.len() && #[trigger] cols[i].id == id.0 {
        Some(choose|i: int| 0 <= i < cols.len() && cols[i].id == id.0 && forall|j: int| 0 <= j < i ==> #[trigger] cols[j].id != id.0)
    } else {
        None
    }
}

pub proof fn lemma_column_pos(cols: Seq<ColumnView>, id: ColumnId, i: int)
    requires
        0 <= i < cols.len(),
        cols[i].id == id.0,
        forall|j: int| 0 <= j < i ==> #[trigger] cols[j].id != id.0,
    ensures
        column_pos(cols, id) == Some(i),
{
    let k = choose|k: int| 0 <= k < cols.len() && cols[k].id == id.0 && forall|j: int| 0 <= j < k ==> #[trigger] cols[j].id != id.0;
    if k < i {
        assert(cols[k].id != id.0);
    }
    if k > i {
        assert(cols[i].id != id.0);
    }
}

proof fn lemma_first_column(s: Seq<ColumnView>, id: ColumnId, n: int)
    requires
        0 <= n <= s.len(),
        exists|i: int| 0 <= i < n && #[trigger] s[i].id == id.0,
    ensures
        exists|i: int| 0 <= i < n && s[i].id == id.0 && forall|j: int| 0 <= j < i ==> #[trigger] s[j].id != id.0,
    decreases n,
{
    if exists|i: int| 0 <= i < n - 1 && #[trigger] s[i].id == id.0 {
        lemma_first_column(s, id, n - 1);
    } else {
        assert(s[n - 1].id == id.0);
        assert(forall|j: int| 0 <= j < n - 1 ==> #[trigger] s[j].id != id.0);
    }
}

/// What `column_pos` finds is the first column with that id.
pub proof fn lemma_column_pos_props(s: Seq<ColumnView>, id: ColumnId)
    ensures
        column_pos(s, id) is Some <==> exists|i: int| 0 <= i < s.len() && #[trigger] s[i].id == id.0,
        column_pos(s, id) matches Some(i) ==> 0 <= i < s.len() && s[i].id == id.0 && forall|j: int| 0 <= j < i ==> #[trigger] s[j].id != id.0,
{
    if exists|i: int| 0 <= i < s.len() && #[trigger] s[i].id == id.0 {
        lemma_first_column(s, id, s.len() as int);
    }
}

/// The key at `f`, if any.
pub open spec fn key_at(keys: Map<u32, Exposure>, f: u32) -> Option<Exposure> {
    if keys.contains_key(f) { Some(keys[f]) } else { None }
}

pub open spec fn tile_at(m: Map<TileCoord, TileView>, c: TileCoord) -> Option<TileView> {
    if m.contains_key(c) { Some(m[c]) } else { None }
}

/// Some key of the column exposes the drawing.
pub open spec fn exposes(keys: Map<u32, Exposure>, id: DrawingId) -> bool {
    exists|f: u32| #[trigger] keys.contains_key(f) && keys[f] == Exposure::Drawing(id)
}

/// The DrawingSource nodes of every column (in column order) that exposes
/// the drawing somewhere.
pub open spec fn exposing_roots(cols: Seq<ColumnView>, gs: Seq<NodeView>, id: DrawingId) -> Seq<NodeId>
    decreases cols.len(),
{
    if cols.len() == 0 {
        Seq::empty()
    } else {
        let rest = exposing_roots(cols.drop_last(), gs, id);
        if exposes(cols.last().keys, id) {
            rest + ids_where(gs, is_source_of_column(ColumnId(cols.last().id)))
        } else {
            rest
        }
    }
}

// ---- Drawing commands ---------------------------------------------------------

pub open spec fn with_drawings(c: CutView, d: Map<DrawingId, DrawingView>) -> CutView {
    CutView { drawings: d, ..c }
}

pub open spec fn with_columns(c: CutView, cols: Seq<ColumnView>) -> CutView {
    CutView { columns: cols, ..c }
}

pub open spec fn with_graph(c: CutView, g: GraphView) -> CutView {
    CutView { graph: g, ..c }
}

pub open spec fn step_add_drawing(c: CutView, at: CutRef, id: DrawingId, d: DrawingView) -> Result<Effect, EngineError> {
    if c.drawings.contains_key(id) {
        Err(EngineError::InvalidCommand(CommandFault::DrawingExists(id)))
    } else {
        Ok(Effect {
            cut: CutView { drawings: c.drawings.insert(id, d), order: c.order.push(id), ..c },
            inverse: seq![CommandView::RemoveDrawing { at, id }],
            roots: Seq::empty(),
        })
    }
}

/// Where an insertion at `index` lands: there, or last when past the end.
pub open spec fn insert_slot(order: Seq<DrawingId>, index: usize) -> int {
    if index <= order.len() { index as int } else { order.len() as int }
}

pub open spec fn step_insert_drawing(c: CutView, at: CutRef, id: DrawingId, index: usize, d: DrawingView) -> Result<
    Effect,
    EngineError,
> {
    if c.drawings.contains_key(id) {
        Err(EngineError::InvalidCommand(CommandFault::DrawingExists(id)))
    } else {
        Ok(Effect {
            cut: CutView {
                drawings: c.drawings.insert(id, d),
                order: c.order.insert(insert_slot(c.order, index), id),
                ..c
            },
            inverse: seq![CommandView::RemoveDrawing { at, id }],
            roots: Seq::empty(),
        })
    }
}

pub open spec fn step_add_stroke(c: CutView, at: CutRef, id: DrawingId, s: StrokeView) -> Result<Effect, EngineError> {
    if !c.drawings.contains_key(id) {
        Err(EngineError::UnknownDrawing(id))
    } else {
        let d = c.drawings[id];
        Ok(Effect {
            cut: with_drawings(c, c.drawings.insert(id, DrawingView { strokes: d.strokes.push(s), ..d })),
            inverse: seq![CommandView::PopStroke { at, id }],
            roots: exposing_roots(c.columns, c.graph.nodes, id),
        })
    }
}

pub open spec fn step_pop_stroke(c: CutView, at: CutRef, id: DrawingId) -> Result<Effect, EngineError> {
    if !c.drawings.contains_key(id) {
        Err(EngineError::UnknownDrawing(id))
    } else if c.drawings[id].strokes.len() == 0 {
        Err(EngineError::InvalidCommand(CommandFault::NoStrokesToPop(id)))
    } else {
        let d = c.drawings[id];
        Ok(Effect {
            cut: with_drawings(c, c.drawings.insert(id, DrawingView { strokes: d.strokes.drop_last(), ..d })),
            inverse: seq![CommandView::AddStroke { at, id, stroke: d.strokes.last() }],
            roots: exposing_roots(c.columns, c.graph.nodes, id),
        })
    }
}

/// The keys of a column with every key exposing `id` removed.
pub open spec fn strip_keys(keys: Map<u32, Exposure>, id: DrawingId) -> Map<u32, Exposure> {
    Map::new(|f: u32| keys.contains_key(f) && keys[f] != Exposure::Drawing(id), |f: u32| keys[f])
}

pub open spec fn strip_column(col: ColumnView, id: DrawingId) -> ColumnView {
    ColumnView { keys: strip_keys(col.keys, id), ..col }
}

/// Strictly ascending.
pub open spec fn ascending_u32(s: Seq<u32>) -> bool {
    forall|i: int, j: int| 0 <= i < j < s.len() ==> #[trigger] s[i] < #[trigger] s[j]
}

/// The frames whose key exposes `id`, ascending.
pub open spec fn ref_frames(keys: Map<u32, Exposure>, id: DrawingId) -> Seq<u32> {
    choose|s: Seq<u32>| ascending_u32(s) && forall|f: u32|
        #[trigger] s.contains(f) <==> (keys.contains_key(f) && keys[f] == Exposure::Drawing(id))
}

/// Two strictly ascending sequences with the same elements are equal.
pub proof fn lemma_ascending_unique(s1: Seq<u32>, s2: Seq<u32>)
    requires
        ascending_u32(s1),
        ascending_u32(s2),
        forall|f: u32| #![trigger s1.contains(f)] #![trigger s2.contains(f)] s1.contains(f) <==> s2.contains(f),
    ensures
        s1 == s2,
    decreases s1.len(),
{
    if s1.len() == 0 || s2.len() == 0 {
        if s1.len() > 0 {
            assert(s1.contains(s1[0]));
            assert(s2.contains(s1[0]));
        }
        if s2.len() > 0 {
            assert(s2.contains(s2[0]));
            assert(s1.contains(s2[0]));
        }
        assert(s1 =~= s2);
    } else {
        let a = s1.last();
        let b = s2.last();
        assert(s1.contains(a));
        assert(s2.contains(b));
        assert(s2.contains(a));
        assert(s1.contains(b));
        let j = choose|j: int| 0 <= j < s2.len() && s2[j] == a;
        let k = choose|k: int| 0 <= k < s1.len() && s1[k] == b;
        if j < s2.len() - 1 {
            assert(s2[j] < s2[s2.len() - 1]);
        }
        if k < s1.len() - 1 {
            assert(s1[k] < s1[s1.len() - 1]);
        }
        assert(a == b);
        let d1 = s1.drop_last();
        let d2 = s2.drop_last();
        assert forall|f: u32| #![trigger d1.contains(f)] #![trigger d2.contains(f)] d1.contains(f) <==> d2.contains(f) by {
            if d1.contains(f) {
                let i = choose|i: int| 0 <= i < d1.len() && d1[i] == f;
                assert(s1[i] < s1[s1.len() - 1]);
                assert(s1.contains(f));
                assert(s2.contains(f));
                let i2 = choose|i2: int| 0 <= i2 < s2.len() && s2[i2] == f;
                assert(i2 != s2.len() - 1);
                assert(d2[i2] == f);
            }
            if d2.contains(f) {
                let i = choose|i: int| 0 <= i < d2.len() && d2[i] == f;
                assert(s2[i] < s2[s2.len() - 1]);
                assert(s2.contains(f));
                assert(s1.contains(f));
                let i1 = choose|i1: int| 0 <= i1 < s1.len() && s1[i1] == f;
                assert(i1 != s1.len() - 1);
                assert(d1[i1] == f);
            }
        }
        lemma_ascending_unique(d1, d2);
        assert(s1 =~= d1.push(a));
        assert(s2 =~= d2.push(b));
    }
}

/// Any ascending listing of the frames exposing `id` is `ref_frames`.
pub proof fn lemma_ref_frames(keys: Map<u32, Exposure>, id: DrawingId, s: Seq<u32>)
    requires
        ascending_u32(s),
        forall|f: u32| #[trigger] s.contains(f) <==> (keys.contains_key(f) && keys[f] == Exposure::Drawing(id)),
    ensures
        ref_frames(keys, id) == s,
{
    let r = ref_frames(keys, id);
    assert(ascending_u32(r) && forall|f: u32| #[trigger] r.contains(f) <==> (keys.contains_key(f) && keys[f] == Exposure::Drawing(id)));
    lemma_ascending_unique(r, s);
}

/// SetCell commands that put back every key exposing `id`, column by
/// column, frames ascending.
pub open spec fn restore_cells(at: CutRef, cols: Seq<ColumnView>, id: DrawingId) -> Seq<CommandView>
    decreases cols.len(),
{
    if cols.len() == 0 {
        Seq::empty()
    } else {
        let col = cols.last();
        restore_cells(at, cols.drop_last(), id) + ref_frames(col.keys, id).map_values(
            |f: u32| CommandView::SetCell { at, column: ColumnId(col.id), frame: f, key: Some(Exposure::Drawing(id)) },
        )
    }
}

pub open spec fn step_remove_drawing(c: CutView, at: CutRef, id: DrawingId) -> Result<Effect, EngineError> {
    if !c.drawings.contains_key(id) {
        Err(EngineError::UnknownDrawing(id))
    } else {
        let d = c.drawings[id];
        Ok(Effect {
            cut: CutView {
                drawings: c.drawings.remove(id),
                order: c.order.remove(drawing_pos(c.order, id)),
                columns: c.columns.map_values(|col: ColumnView| strip_column(col, id)),
                ..c
            },
            inverse: seq![
                CommandView::InsertDrawing {
                    at,
                    id,
                    index: drawing_pos(c.order, id) as usize,
                    name: d.name,
                    strokes: d.strokes,
                    layers: d.layers,
                },
            ] + restore_cells(at, c.columns, id),
            roots: exposing_roots(c.columns, c.graph.nodes, id),
        })
    }
}

// ---- The sheet ------------------------------------------------------------------

pub open spec fn step_set_cell(c: CutView, at: CutRef, column: ColumnId, frame: u32, key: Option<Exposure>) -> Result<Effect, EngineError> {
    if key matches Some(Exposure::Drawing(d)) && !c.drawings.contains_key(d) {
        Err(EngineError::UnknownDrawing(key->Some_0->Drawing_0))
    } else if column_pos(c.columns, column) is None {
        Err(EngineError::UnknownColumn(column))
    } else {
        let i = column_pos(c.columns, column)->Some_0;
        let col = c.columns[i];
        let keys = match key {
            Some(e) => col.keys.insert(frame, e),
            None => col.keys.remove(frame),
        };
        Ok(Effect {
            cut: with_columns(c, c.columns.update(i, ColumnView { keys, ..col })),
            inverse: seq![CommandView::SetCell { at, column, frame, key: key_at(col.keys, frame) }],
            roots: ids_where(c.graph.nodes, is_source_of_column(column)),
        })
    }
}

// ---- The graph --------------------------------------------------------------------

pub open spec fn fresh_node(id: NodeId, kind: NodeKind) -> NodeView {
    NodeView { id: id.0, kind, inputs: Seq::new(input_count_spec(kind), |i: int| None::<OutPin>) }
}

pub open spec fn step_add_node(c: CutView, at: CutRef, id: NodeId, kind: NodeKind) -> Result<Effect, EngineError> {
    let gs = c.graph.nodes;
    if has_node(gs, id.0) {
        Err(EngineError::InvalidCommand(CommandFault::NodeExists(id)))
    } else {
        Ok(Effect {
            cut: with_graph(c, GraphView { nodes: gs.insert(insert_pos(gs, id.0), fresh_node(id, kind)), ..c.graph }),
            inverse: seq![CommandView::RemoveNode { at, id }],
            roots: seq![id],
        })
    }
}

/// Connects that put back the wired pins `lo..` of node `id`, pin order.
pub open spec fn pin_restores(at: CutRef, id: NodeId, inputs: Seq<Option<OutPin>>, lo: nat) -> Seq<CommandView>
    decreases inputs.len(),
{
    if inputs.len() <= lo {
        Seq::empty()
    } else {
        let rest = pin_restores(at, id, inputs.drop_last(), lo);
        let o = inputs.last();
        if o is Some {
            rest.push(CommandView::Connect {
                at,
                from: o->Some_0.0,
                from_pin: o->Some_0.1,
                to: id,
                to_pin: (inputs.len() - 1) as u16,
            })
        } else {
            rest
        }
    }
}

pub open spec fn severed_restores(at: CutRef, id: NodeId, links: Seq<(NodeId, u16, u16)>) -> Seq<CommandView> {
    links.map_values(|l: (NodeId, u16, u16)| CommandView::Connect { at, from: id, from_pin: l.2, to: l.0, to_pin: l.1 })
}

pub open spec fn step_remove_node(c: CutView, at: CutRef, id: NodeId) -> Result<Effect, EngineError> {
    let gs = c.graph.nodes;
    if !has_node(gs, id.0) {
        Err(EngineError::UnknownNode(id))
    } else {
        let k = node_pos(gs, id.0);
        let nv = gs[k];
        let rest = gs.remove(k);
        let links = severed_spec(rest, id.0);
        let was_output = c.graph.output == Some(id);
        Ok(Effect {
            cut: with_graph(c, GraphView {
                nodes: sever_all(rest, id.0),
                output: if was_output { None } else { c.graph.output },
            }),
            inverse: seq![CommandView::AddNode { at, id, kind: nv.kind }]
                + pin_restores(at, id, nv.inputs, 0)
                + severed_restores(at, id, links)
                + if was_output { seq![CommandView::SetOutput { at, node: Some(id) }] } else { Seq::empty() },
            roots: links.map_values(|l: (NodeId, u16, u16)| l.0).push(id),
        })
    }
}

pub open spec fn step_connect(c: CutView, at: CutRef, from: NodeId, from_pin: u16, to: NodeId, to_pin: u16) -> Result<Effect, EngineError> {
    let gs = c.graph.nodes;
    if !has_node(gs, from.0) {
        Err(EngineError::UnknownNode(from))
    } else if !has_node(gs, to.0) {
        Err(EngineError::UnknownNode(to))
    } else {
        let i = node_pos(gs, to.0);
        if to_pin >= gs[i].inputs.len() {
            Err(EngineError::PinOutOfRange { node: to, pin: to_pin })
        } else if upstream(gs, from.0, to.0) {
            Err(EngineError::WouldCycle { from, to })
        } else {
            let prev = gs[i].inputs[to_pin as int];
            Ok(Effect {
                cut: with_graph(c, GraphView { nodes: gs.update(i, with_input(gs[i], to_pin as int, Some((from, from_pin)))), ..c.graph }),
                inverse: match prev {
                    Some(p) => seq![CommandView::Connect { at, from: p.0, from_pin: p.1, to, to_pin }],
                    None => seq![CommandView::Disconnect { at, to, to_pin }],
                },
                roots: seq![to],
            })
        }
    }
}

pub open spec fn step_disconnect(c: CutView, at: CutRef, to: NodeId, to_pin: u16) -> Result<Effect, EngineError> {
    let gs = c.graph.nodes;
    if !has_node(gs, to.0) {
        Err(EngineError::UnknownNode(to))
    } else {
        let i = node_pos(gs, to.0);
        if to_pin >= gs[i].inputs.len() {
            Err(EngineError::PinOutOfRange { node: to, pin: to_pin })
        } else {
            let prev = gs[i].inputs[to_pin as int];
            Ok(Effect {
                cut: with_graph(c, GraphView { nodes: gs.update(i, with_input(gs[i], to_pin as int, None)), ..c.graph }),
                inverse: match prev {
                    Some(p) => seq![CommandView::Connect { at, from: p.0, from_pin: p.1, to, to_pin }],
                    None => Seq::empty(),
                },
                roots: seq![to],
            })
        }
    }
}

pub open spec fn step_set_node_kind(c: CutView, at: CutRef, id: NodeId, kind: NodeKind) -> Result<Effect, EngineError> {
    let gs = c.graph.nodes;
    if !has_node(gs, id.0) {
        Err(EngineError::UnknownNode(id))
    } else {
        let i = node_pos(gs, id.0);
        let nv = gs[i];
        let count = input_count_spec(kind);
        Ok(Effect {
            cut: with_graph(c, GraphView {
                nodes: gs.update(i, NodeView { id: id.0, kind, inputs: resized(nv.inputs, count) }),
                ..c.graph
            }),
            inverse: seq![CommandView::SetNodeKind { at, id, kind: nv.kind }] + pin_restores(at, id, nv.inputs, count),
            roots: seq![id],
        })
    }
}

pub open spec fn step_set_output(c: CutView, at: CutRef, node: Option<NodeId>) -> Result<Effect, EngineError> {
    if node matches Some(n) && !has_node(c.graph.nodes, n.0) {
        Err(EngineError::UnknownNode(node->Some_0))
    } else {
        Ok(Effect {
            cut: with_graph(c, GraphView { output: node, ..c.graph }),
            inverse: seq![CommandView::SetOutput { at, node: c.graph.output }],
            roots: Seq::empty(),
        })
    }
}

// ---- Raster paint -----------------------------------------------------------------

/// One tile change: put `after` at the coordinate (or clear it).
pub open spec fn apply_change(m: Map<TileCoord, TileView>, e: TileChangeView) -> Map<TileCoord, TileView> {
    match e.2 {
        Some(t) => m.insert(e.0, t),
        None => m.remove(e.0),
    }
}

/// The changes applied in order.
pub open spec fn apply_diff(m: Map<TileCoord, TileView>, diff: Seq<TileChangeView>) -> Map<TileCoord, TileView>
    decreases diff.len(),
{
    if diff.len() == 0 {
        m
    } else {
        apply_change(apply_diff(m, diff.drop_last()), diff.last())
    }
}

/// The diff that undoes `diff` on `m`: each change reversed (what it put
/// there, and what was actually there before), last change first.
pub open spec fn inverse_diff(m: Map<TileCoord, TileView>, diff: Seq<TileChangeView>) -> Seq<TileChangeView>
    decreases diff.len(),
{
    if diff.len() == 0 {
        Seq::empty()
    } else {
        let e = diff.last();
        seq![(e.0, e.2, tile_at(apply_diff(m, diff.drop_last()), e.0))] + inverse_diff(m, diff.drop_last())
    }
}

pub open spec fn step_paint_tiles(c: CutView, at: CutRef, id: DrawingId, layer: LayerId, diff: Seq<TileChangeView>) -> Result<Effect, EngineError> {
    if !c.drawings.contains_key(id) {
        Err(EngineError::UnknownDrawing(id))
    } else if layer_pos(c.drawings[id].layers, layer) is None {
        Err(EngineError::UnknownLayer(layer))
    } else {
        let d = c.drawings[id];
        let k = layer_pos(d.layers, layer)->Some_0;
        let l = d.layers[k];
        Ok(Effect {
            cut: with_drawings(c, c.drawings.insert(id, DrawingView {
                layers: d.layers.update(k, CelLayerView { tiles: apply_diff(l.tiles, diff), ..l }),
                ..d
            })),
            inverse: seq![CommandView::PaintTiles { at, id, layer, diff: inverse_diff(l.tiles, diff) }],
            roots: exposing_roots(c.columns, c.graph.nodes, id),
        })
    }
}

// ---- One command ------------------------------------------------------------------

#[verifier::opaque]
pub open spec fn cut_step(c: CutView, cmd: CommandView) -> Result<Effect, EngineError> {
    match cmd {
        CommandView::AddDrawing { at, id, name, strokes, layers } => step_add_drawing(
            c,
            at,
            id,
            DrawingView { name, strokes, layers },
        ),
        CommandView::RemoveDrawing { at, id } => step_remove_drawing(c, at, id),
        CommandView::InsertDrawing { at, id, index, name, strokes, layers } => step_insert_drawing(
            c,
            at,
            id,
            index,
            DrawingView { name, strokes, layers },
        ),
        CommandView::AddStroke { at, id, stroke } => step_add_stroke(c, at, id, stroke),
        CommandView::PopStroke { at, id } => step_pop_stroke(c, at, id),
        CommandView::SetCell { at, column, frame, key } => step_set_cell(c, at, column, frame, key),
        CommandView::AddNode { at, id, kind } => step_add_node(c, at, id, kind),
        CommandView::RemoveNode { at, id } => step_remove_node(c, at, id),
        CommandView::Connect { at, from, from_pin, to, to_pin } => step_connect(c, at, from, from_pin, to, to_pin),
        CommandView::Disconnect { at, to, to_pin } => step_disconnect(c, at, to, to_pin),
        CommandView::SetNodeKind { at, id, kind } => step_set_node_kind(c, at, id, kind),
        CommandView::SetOutput { at, node } => step_set_output(c, at, node),
        CommandView::PaintTiles { at, id, layer, diff } => step_paint_tiles(c, at, id, layer, diff),
    }
}

/// The outcome of one accepted command on a project.
pub struct ProjectEffect {
    pub project: ProjectView,
    pub inverse: Seq<CommandView>,
    pub roots: Seq<NodeId>,
}

pub open spec fn with_cut(p: ProjectView, si: int, ci: int, c: CutView) -> ProjectView {
    let s = p.scenes[si];
    ProjectView { scenes: p.scenes.update(si, SceneView { cuts: s.cuts.update(ci, c), ..s }), ..p }
}

/// The command on the cut it names (first scene, then first cut, with
/// that id).
#[verifier::opaque]
pub open spec fn project_step(p: ProjectView, cmd: CommandView) -> Result<ProjectEffect, EngineError> {
    let at = cmd.at();
    match scene_pos(p.scenes, at.scene) {
        None => Err(EngineError::UnknownScene(at.scene)),
        Some(si) => match cut_pos(p.scenes[si].cuts, at.cut) {
            None => Err(EngineError::UnknownCut(at.cut)),
            Some(ci) => match cut_step(p.scenes[si].cuts[ci], cmd) {
                Err(e) => Err(e),
                Ok(eff) => Ok(ProjectEffect { project: with_cut(p, si, ci, eff.cut), inverse: eff.inverse, roots: eff.roots }),
            },
        },
    }
}

/// The nodes to invalidate for `roots` in the cut `at` names: their
/// downstream closure in that cut's graph (the roots themselves when the
/// cut is gone).
pub open spec fn closure_spec(p: ProjectView, at: CutRef, roots: Seq<NodeId>) -> Set<NodeId> {
    match scene_pos(p.scenes, at.scene) {
        Some(si) => match cut_pos(p.scenes[si].cuts, at.cut) {
            Some(ci) => Set::new(|x: NodeId| exists|t: int|
                0 <= t < roots.len() && downstream(p.scenes[si].cuts[ci].graph.nodes, (#[trigger] roots[t]).0, x.0)),
            None => roots.to_set(),
        },
        None => roots.to_set(),
    }
}

/// `project_step` on a command whose cut is at (si, ci).
pub proof fn lemma_project_step_at(p: ProjectView, cmd: CommandView, si: int, ci: int)
    requires
        scene_pos(p.scenes, cmd.at().scene) == Some(si),
        cut_pos(p.scenes[si].cuts, cmd.at().cut) == Some(ci),
    ensures
        project_step(p, cmd) == (match cut_step(p.scenes[si].cuts[ci], cmd) {
            Err(e) => Err(e),
            Ok(eff) => Ok(ProjectEffect { project: with_cut(p, si, ci, eff.cut), inverse: eff.inverse, roots: eff.roots }),
        }),
{
    reveal(project_step);
}

/// Run commands in order; stop at the first refusal, keeping what applied
/// before it. Returns the state reached, the refusal if any, and the nodes
/// the applied commands invalidated.
pub open spec fn replay_spec(p: ProjectView, cmds: Seq<CommandView>) -> (ProjectView, Option<EngineError>, Set<NodeId>)
    decreases cmds.len(),
{
    if cmds.len() == 0 {
        (p, None, Set::empty())
    } else {
        let (q, e, d) = replay_spec(p, cmds.drop_last());
        if e is Some {
            (q, e, d)
        } else {
            match project_step(q, cmds.last()) {
                Ok(eff) => (eff.project, None, d + closure_spec(eff.project, cmds.last().at(), eff.roots)),
                Err(err) => (q, Some(err), d),
            }
        }
    }
}

/// Run commands in order, skipping any that are refused.
pub open spec fn rollback_spec(p: ProjectView, cmds: Seq<CommandView>) -> ProjectView
    decreases cmds.len(),
{
    if cmds.len() == 0 {
        p
    } else {
        let q = rollback_spec(p, cmds.drop_last());
        match project_step(q, cmds.last()) {
            Ok(eff) => eff.project,
            Err(_) => q,
        }
    }
}

/// How a batch stopped: the index of the refused command, its refusal, the
/// state just before it, and the undo list of what had applied.
pub struct BatchFailure {
    pub index: int,
    pub error: EngineError,
    pub state: ProjectView,
    pub undo: Seq<CommandView>,
}

/// A batch applied in order, each step's inverse prepended to the undo
/// list: (state, undo list, invalidated nodes) after the whole batch, or
/// how it stopped.
pub open spec fn batch_spec(p: ProjectView, cmds: Seq<CommandView>) -> Result<(ProjectView, Seq<CommandView>, Set<NodeId>), BatchFailure>
    decreases cmds.len(),
{
    if cmds.len() == 0 {
        Ok((p, Seq::empty(), Set::empty()))
    } else {
        match batch_spec(p, cmds.drop_last()) {
            Err(f) => Err(f),
            Ok((q, inv, d)) => match project_step(q, cmds.last()) {
                Ok(eff) => Ok((eff.project, eff.inverse + inv, d + closure_spec(eff.project, cmds.last().at(), eff.roots))),
                Err(err) => Err(BatchFailure { index: cmds.len() - 1, error: err, state: q, undo: inv }),
            },
        }
    }
}

// ---- What commands never change -------------------------------------------------

/// Same cut id and the same column ids, in order.
pub open spec fn cut_shape_eq(a: CutView, b: CutView) -> bool {
    &&& a.id == b.id
    &&& a.columns.len() == b.columns.len()
    &&& forall|k: int| 0 <= k < a.columns.len() ==> (#[trigger] a.columns[k]).id == b.columns[k].id
}

pub open spec fn scene_shape_eq(a: SceneView, b: SceneView) -> bool {
    &&& a.id == b.id
    &&& a.cuts.len() == b.cuts.len()
    &&& forall|ci: int| 0 <= ci < a.cuts.len() ==> cut_shape_eq(#[trigger] a.cuts[ci], b.cuts[ci])
}

/// The same scenes, cuts and columns (by id, in order) and the same id
/// counter.
pub open spec fn same_shape(p: ProjectView, q: ProjectView) -> bool {
    &&& p.next_id == q.next_id
    &&& p.scenes.len() == q.scenes.len()
    &&& forall|si: int| 0 <= si < p.scenes.len() ==> scene_shape_eq(#[trigger] p.scenes[si], q.scenes[si])
}

pub proof fn lemma_same_shape_refl(p: ProjectView)
    ensures
        same_shape(p, p),
{
}

pub proof fn lemma_same_shape_trans(p: ProjectView, q: ProjectView, r: ProjectView)
    requires
        same_shape(p, q),
        same_shape(q, r),
    ensures
        same_shape(p, r),
{
    assert forall|si: int| 0 <= si < p.scenes.len() implies scene_shape_eq(#[trigger] p.scenes[si], r.scenes[si]) by {
        assert(scene_shape_eq(p.scenes[si], q.scenes[si]));
        assert(scene_shape_eq(q.scenes[si], r.scenes[si]));
        assert forall|ci: int| 0 <= ci < p.scenes[si].cuts.len() implies cut_shape_eq(#[trigger] p.scenes[si].cuts[ci], r.scenes[si].cuts[ci]) by {
            assert(cut_shape_eq(p.scenes[si].cuts[ci], q.scenes[si].cuts[ci]));
            assert(cut_shape_eq(q.scenes[si].cuts[ci], r.scenes[si].cuts[ci]));
        }
    }
}

/// No command renumbers a cut or its columns.
pub proof fn lemma_cut_step_shape(c: CutView, cmd: CommandView)
    requires
        cut_step(c, cmd) is Ok,
    ensures
        cut_shape_eq(c, cut_step(c, cmd)->Ok_0.cut),
{
    reveal(cut_step);
    let e = cut_step(c, cmd)->Ok_0;
    match cmd {
        CommandView::SetCell { column, .. } => {
            lemma_column_pos_props(c.columns, column);
            let i = column_pos(c.columns, column)->Some_0;
            assert forall|k: int| 0 <= k < c.columns.len() implies (#[trigger] c.columns[k]).id == e.cut.columns[k].id by {
                if k == i {
                } else {
                }
            }
        },
        _ => {},
    }
}

/// No command renumbers scenes, cuts or columns, or touches the id counter.
pub proof fn lemma_project_step_shape(p: ProjectView, cmd: CommandView)
    requires
        project_step(p, cmd) is Ok,
    ensures
        same_shape(p, project_step(p, cmd)->Ok_0.project),
{
    reveal(project_step);
    let at = cmd.at();
    lemma_scene_pos_props(p.scenes, at.scene);
    let si = scene_pos(p.scenes, at.scene)->Some_0;
    lemma_cut_pos_props(p.scenes[si].cuts, at.cut);
    let ci = cut_pos(p.scenes[si].cuts, at.cut)->Some_0;
    let c = p.scenes[si].cuts[ci];
    lemma_cut_step_shape(c, cmd);
    let q = project_step(p, cmd)->Ok_0.project;
    assert(q == with_cut(p, si, ci, cut_step(c, cmd)->Ok_0.cut));
    assert forall|a: int| 0 <= a < p.scenes.len() implies scene_shape_eq(#[trigger] p.scenes[a], q.scenes[a]) by {
        if a == si {
            assert forall|b: int| 0 <= b < p.scenes[a].cuts.len() implies cut_shape_eq(#[trigger] p.scenes[a].cuts[b], q.scenes[a].cuts[b]) by {
                if b != ci {
                    assert(q.scenes[a].cuts[b] == p.scenes[a].cuts[b]);
                }
            }
        } else {
            assert(q.scenes[a] == p.scenes[a]);
            assert forall|b: int| 0 <= b < p.scenes[a].cuts.len() implies cut_shape_eq(#[trigger] p.scenes[a].cuts[b], q.scenes[a].cuts[b]) by {
            }
        }
    }
}

} // verus!
