//! Why dropping the downstream closure of an edit's invalidation roots
//! keeps every other memoized value right: each command changes nothing
//! that a node outside its roots reads.

use vstd::prelude::*;
use crate::command::CommandView;
use crate::laws::{cut_view_wf, project_view_wf};
use crate::eval::{
    cache_agrees, closure_of, entry_agrees, input_recipe, lemma_retain_agrees, lemma_retained, node_recipe, node_value, lookup_column, lookup_node, retain_spec, root_ids,
    same_outside, source_recipe, CacheKey,
};
use crate::graph::{
    has_node, ids_ascending, ids_where, is_source_of_column, pin_links, sever_all, sever_node, sever_slot,
    severed_spec, NodeKind, NodeView, OutPin,
};
use crate::ids::{ColumnId, DrawingId, NodeId};
use crate::model::{column_ids_unique, cut_pos, keys_resolve, scene_pos, CutView, ProjectView};
use crate::sparse::is_floor_key;
use crate::step::{
    closure_spec, column_pos, cut_step, exposes, exposing_roots, lemma_cut_step_shape, project_step, strip_column,
    strip_keys, with_cut, Effect,
};
use crate::value::ValueView;
use crate::xsheet::{hold_at, ColumnView, Exposure};

verus! {

// ---- Lookups under edits ---------------------------------------------------

proof fn lemma_lookup_at(gs: Seq<NodeView>, k: u64, i: int)
    requires
        ids_ascending(gs),
        0 <= i < gs.len(),
        gs[i].id == k,
    ensures
        lookup_node(gs, k) == Some(gs[i]),
{
    let j = choose|j: int| 0 <= j < gs.len() && #[trigger] gs[j].id == k;
    if j < i {
        assert(gs[j].id < gs[i].id);
    } else if j > i {
        assert(gs[i].id < gs[j].id);
    }
}

proof fn lemma_column_at(cols: Seq<ColumnView>, c: u64, i: int)
    requires
        column_ids_unique(cols),
        0 <= i < cols.len(),
        cols[i].id == c,
    ensures
        lookup_column(cols, c) == Some(cols[i]),
{
    let j = choose|j: int| 0 <= j < cols.len() && #[trigger] cols[j].id == c;
    if j < i {
        assert(cols[j].id != cols[i].id);
    } else if j > i {
        assert(cols[i].id != cols[j].id);
    }
}

/// A node of `gs` whose kind meets `pred` is listed by `ids_where`.
proof fn lemma_ids_where_has(gs: Seq<NodeView>, pred: spec_fn(NodeKind) -> bool, j: int)
    requires
        0 <= j < gs.len(),
        pred(gs[j].kind),
    ensures
        ids_where(gs, pred).contains(NodeId(gs[j].id)),
    decreases gs.len(),
{
    if j < gs.len() - 1 {
        lemma_ids_where_has(gs.drop_last(), pred, j);
        let r = ids_where(gs.drop_last(), pred);
        let w = choose|w: int| 0 <= w < r.len() && r[w] == NodeId(gs[j].id);
        if pred(gs.last().kind) {
            assert(r.push(NodeId(gs.last().id))[w] == NodeId(gs[j].id));
        }
    } else {
        let r = ids_where(gs.drop_last(), pred);
        assert(r.push(NodeId(gs.last().id))[r.len() as int] == NodeId(gs[j].id));
    }
}

/// Every DrawingSource of a column that exposes `id` is among the roots a
/// change to that drawing reports.
proof fn lemma_exposing_has(cols: Seq<ColumnView>, gs: Seq<NodeView>, id: DrawingId, c: int, j: int)
    requires
        0 <= c < cols.len(),
        exposes(cols[c].keys, id),
        0 <= j < gs.len(),
        gs[j].kind == (NodeKind::DrawingSource { column: ColumnId(cols[c].id) }),
    ensures
        exposing_roots(cols, gs, id).contains(NodeId(gs[j].id)),
    decreases cols.len(),
{
    let rest = exposing_roots(cols.drop_last(), gs, id);
    let mine = ids_where(gs, is_source_of_column(ColumnId(cols.last().id)));
    if c < cols.len() - 1 {
        lemma_exposing_has(cols.drop_last(), gs, id, c, j);
        let w = choose|w: int| 0 <= w < rest.len() && rest[w] == NodeId(gs[j].id);
        if exposes(cols.last().keys, id) {
            assert((rest + mine)[w] == NodeId(gs[j].id));
        }
    } else {
        lemma_ids_where_has(gs, is_source_of_column(ColumnId(cols.last().id)), j);
        let w = choose|w: int| 0 <= w < mine.len() && mine[w] == NodeId(gs[j].id);
        assert((rest + mine)[rest.len() + w] == NodeId(gs[j].id));
    }
}

/// The drawing a column holds at a frame is one of its keys.
proof fn lemma_hold_is_key(keys: Map<u32, Exposure>, frame: u32)
    requires
        hold_at(keys, frame) is Some,
    ensures
        exists|f: u32| #[trigger] keys.contains_key(f) && keys[f] == Exposure::Drawing(hold_at(keys, frame)->Some_0),
{
    let f = choose|f: u32| is_floor_key(keys, frame, f);
    assert(keys.contains_key(f));
}

// ---- Drawing edits -----------------------------------------------------------

/// The DrawingSources outside the roots of an edit to drawing `id` read
/// columns that never show it, so only `id`'s entry may differ.
proof fn lemma_drawing_edit(c1: CutView, c2: CutView, id: DrawingId, roots: Seq<NodeId>)
    requires
        cut_view_wf(c1),
        c2.graph == c1.graph,
        c2.images == c1.images,
        forall|k: DrawingId| k != id ==> (#[trigger] c2.drawings.contains_key(k)) == c1.drawings.contains_key(k),
        forall|k: DrawingId| k != id && c1.drawings.contains_key(k) ==> #[trigger] c2.drawings[k] == c1.drawings[k],
        c2.columns.len() == c1.columns.len(),
        forall|i: int| 0 <= i < c1.columns.len() && !exposes(c1.columns[i].keys, id) ==> #[trigger] c2.columns[i] == c1.columns[i],
        forall|i: int| 0 <= i < c1.columns.len() ==> #[trigger] c2.columns[i].id == c1.columns[i].id,
        forall|a: int, j: int|
            0 <= a < c1.columns.len() && exposes(c1.columns[a].keys, id) && 0 <= j < c1.graph.nodes.len()
                && #[trigger] c1.graph.nodes[j].kind == (NodeKind::DrawingSource { column: ColumnId(#[trigger] c1.columns[a].id) })
                ==> root_ids(roots).contains(c1.graph.nodes[j].id),
    ensures
        same_outside(c1, c2, root_ids(roots)),
{
    let gs = c2.graph.nodes;
    let s = root_ids(roots);
    assert forall|i: int, f: u32|
        #![trigger c2.graph.nodes[i], source_recipe(c2, c2.graph.nodes[i].kind->column, f)]
        0 <= i < gs.len() && !s.contains(gs[i].id) && gs[i].kind is DrawingSource implies source_recipe(
        c1,
        gs[i].kind->column,
        f,
    ) == source_recipe(c2, gs[i].kind->column, f) by {
        let col = gs[i].kind->column;
        assert(column_ids_unique(c2.columns)) by {
            assert forall|a: int, b: int| 0 <= a < b < c2.columns.len() implies #[trigger] c2.columns[a].id
                != #[trigger] c2.columns[b].id by {
                assert(c1.columns[a].id != c1.columns[b].id);
            }
        }
        if exists|a: int| 0 <= a < c1.columns.len() && #[trigger] c1.columns[a].id == col.0 {
            let a = choose|a: int| 0 <= a < c1.columns.len() && #[trigger] c1.columns[a].id == col.0;
            lemma_column_at(c1.columns, col.0, a);
            lemma_column_at(c2.columns, col.0, a);
            if exposes(c1.columns[a].keys, id) {
                assert(c1.graph.nodes[i].kind == (NodeKind::DrawingSource { column: ColumnId(c1.columns[a].id) }));
                assert(s.contains(gs[i].id));
            }
            assert(c2.columns[a] == c1.columns[a]);
            let keys = c1.columns[a].keys;
            if hold_at(keys, f) is Some {
                let d = hold_at(keys, f)->Some_0;
                lemma_hold_is_key(keys, f);
                let g = choose|g: u32| #[trigger] keys.contains_key(g) && keys[g] == Exposure::Drawing(d);
                if d == id {
                    assert(exposes(keys, id));
                }
                assert(keys[g] is Drawing);
                assert(c1.drawings.contains_key(keys[g]->Drawing_0));
            }
        } else {
            assert forall|b: int| 0 <= b < c2.columns.len() implies #[trigger] c2.columns[b].id != col.0 by {
                assert(c1.columns[b].id != col.0);
            }
        }
    }
}

// ---- The sheet -----------------------------------------------------------------

proof fn lemma_set_cell(c1: CutView, c2: CutView, column: ColumnId, i: int, roots: Seq<NodeId>)
    requires
        cut_view_wf(c1),
        0 <= i < c1.columns.len(),
        c1.columns[i].id == column.0,
        c2 == (CutView { columns: c1.columns.update(i, ColumnView { keys: c2.columns[i].keys, ..c1.columns[i] }), ..c1 }),
        roots == ids_where(c1.graph.nodes, is_source_of_column(column)),
    ensures
        same_outside(c1, c2, root_ids(roots)),
{
    let gs = c2.graph.nodes;
    let s = root_ids(roots);
    assert forall|j: int, f: u32|
        #![trigger c2.graph.nodes[j], source_recipe(c2, c2.graph.nodes[j].kind->column, f)]
        0 <= j < gs.len() && !s.contains(gs[j].id) && gs[j].kind is DrawingSource implies source_recipe(
        c1,
        gs[j].kind->column,
        f,
    ) == source_recipe(c2, gs[j].kind->column, f) by {
        let col = gs[j].kind->column;
        if col == column {
            lemma_ids_where_has(c1.graph.nodes, is_source_of_column(column), j);
            let w = choose|w: int| 0 <= w < roots.len() && roots[w] == NodeId(gs[j].id);
            assert(roots[w].0 == gs[j].id);
        }
        assert(column_ids_unique(c2.columns)) by {
            assert forall|a: int, b: int| 0 <= a < b < c2.columns.len() implies #[trigger] c2.columns[a].id
                != #[trigger] c2.columns[b].id by {
                assert(c1.columns[a].id != c1.columns[b].id);
            }
        }
        if exists|a: int| 0 <= a < c1.columns.len() && #[trigger] c1.columns[a].id == col.0 {
            let a = choose|a: int| 0 <= a < c1.columns.len() && #[trigger] c1.columns[a].id == col.0;
            assert(a != i);
            lemma_column_at(c1.columns, col.0, a);
            lemma_column_at(c2.columns, col.0, a);
        } else {
            assert forall|b: int| 0 <= b < c2.columns.len() implies #[trigger] c2.columns[b].id != col.0 by {
                assert(c1.columns[b].id != col.0);
            }
        }
    }
}

// ---- Graph edits -------------------------------------------------------------------

/// A graph edit that touches only the nodes of `s` and leaves the sheet,
/// the drawings and the images alone.
proof fn lemma_graph_edit(c1: CutView, c2: CutView, s: Set<u64>)
    requires
        c2.columns == c1.columns,
        c2.drawings == c1.drawings,
        c2.images == c1.images,
        forall|k: u64| !s.contains(k) ==> #[trigger] lookup_node(c2.graph.nodes, k) == lookup_node(c1.graph.nodes, k),
    ensures
        same_outside(c1, c2, s),
{
}

/// Wires into `id` in `gs` show up among the links a removal severs.
proof fn lemma_pin_links_some(inputs: Seq<Option<OutPin>>, id: u64, p: int)
    requires
        0 <= p < inputs.len(),
        inputs[p] is Some,
        inputs[p].unwrap().0.0 == id,
    ensures
        pin_links(inputs, id).len() > 0,
    decreases inputs.len(),
{
    if p < inputs.len() - 1 {
        lemma_pin_links_some(inputs.drop_last(), id, p);
    }
}

proof fn lemma_severed_has(gs: Seq<NodeView>, id: u64, j: int, p: int)
    requires
        0 <= j < gs.len(),
        0 <= p < gs[j].inputs.len(),
        gs[j].inputs[p] is Some,
        gs[j].inputs[p].unwrap().0.0 == id,
    ensures
        exists|l: int| 0 <= l < severed_spec(gs, id).len() && (#[trigger] severed_spec(gs, id)[l]).0 == NodeId(gs[j].id),
    decreases gs.len(),
{
    let rest = severed_spec(gs.drop_last(), id);
    let last = gs.last();
    let mine = pin_links(last.inputs, id).map_values(|l: (u16, u16)| (NodeId(last.id), l.0, l.1));
    assert(severed_spec(gs, id) =~= rest + mine);
    if j < gs.len() - 1 {
        lemma_severed_has(gs.drop_last(), id, j, p);
        let l = choose|l: int| 0 <= l < rest.len() && (#[trigger] rest[l]).0 == NodeId(gs[j].id);
        assert((rest + mine)[l] == rest[l]);
    } else {
        lemma_pin_links_some(last.inputs, id, p);
        assert((rest + mine)[rest.len() as int].0 == NodeId(gs[j].id));
    }
}

proof fn lemma_remove_node(gs: Seq<NodeView>, id: u64, kpos: int, k: u64)
    requires
        ids_ascending(gs),
        0 <= kpos < gs.len(),
        gs[kpos].id == id,
        k != id,
        forall|l: int| 0 <= l < severed_spec(gs.remove(kpos), id).len() ==> (#[trigger] severed_spec(gs.remove(kpos), id)[l]).0 != NodeId(k),
    ensures
        lookup_node(sever_all(gs.remove(kpos), id), k) == lookup_node(gs, k),
{
    let rest = gs.remove(kpos);
    let g2 = sever_all(rest, id);
    assert(ids_ascending(rest)) by {
        assert forall|a: int, b: int| 0 <= a < b < rest.len() implies #[trigger] rest[a].id < #[trigger] rest[b].id by {
            let a0 = if a < kpos { a } else { a + 1 };
            let b0 = if b < kpos { b } else { b + 1 };
            assert(rest[a] == gs[a0] && rest[b] == gs[b0]);
        }
    }
    assert(ids_ascending(g2)) by {
        assert forall|a: int, b: int| 0 <= a < b < g2.len() implies #[trigger] g2[a].id < #[trigger] g2[b].id by {
            assert(g2[a].id == rest[a].id && g2[b].id == rest[b].id);
        }
    }
    if has_node(gs, k) {
        let i = choose|i: int| 0 <= i < gs.len() && #[trigger] gs[i].id == k;
        assert(i != kpos);
        let j = if i < kpos { i } else { i - 1 };
        assert(rest[j] == gs[i]);
        assert forall|p: int| 0 <= p < rest[j].inputs.len() implies #[trigger] sever_slot(rest[j].inputs[p], id)
            == rest[j].inputs[p] by {
            if rest[j].inputs[p] is Some && rest[j].inputs[p].unwrap().0.0 == id {
                lemma_severed_has(rest, id, j, p);
            }
        }
        assert(rest[j].inputs.map_values(|o: Option<OutPin>| sever_slot(o, id)) =~= rest[j].inputs);
        assert(g2[j] == gs[i]);
        lemma_lookup_at(gs, k, i);
        lemma_lookup_at(g2, k, j);
    } else if has_node(g2, k) {
        let j = choose|j: int| 0 <= j < g2.len() && #[trigger] g2[j].id == k;
        let i = if j < kpos { j } else { j + 1 };
        assert(rest[j] == gs[i]);
        assert(gs[i].id == k);
    }
}


/// The roots a change to drawing `id` reports hold every DrawingSource of
/// every column that exposes it.
proof fn lemma_exposing_roots_cover(cols: Seq<ColumnView>, gs: Seq<NodeView>, id: DrawingId)
    ensures
        forall|a: int, j: int|
            0 <= a < cols.len() && exposes(cols[a].keys, id) && 0 <= j < gs.len()
                && #[trigger] gs[j].kind == (NodeKind::DrawingSource { column: ColumnId(#[trigger] cols[a].id) })
                ==> root_ids(exposing_roots(cols, gs, id)).contains(gs[j].id),
{
    let roots = exposing_roots(cols, gs, id);
    assert forall|a: int, j: int|
        0 <= a < cols.len() && exposes(cols[a].keys, id) && 0 <= j < gs.len()
            && #[trigger] gs[j].kind == (NodeKind::DrawingSource { column: ColumnId(#[trigger] cols[a].id) })
            implies root_ids(roots).contains(gs[j].id) by {
        lemma_exposing_has(cols, gs, id, a, j);
        let w = choose|w: int| 0 <= w < roots.len() && roots[w] == NodeId(gs[j].id);
        assert(roots[w].0 == gs[j].id);
    }
}

proof fn lemma_lookup_update(gs: Seq<NodeView>, i: int, nv: NodeView, k: u64)
    requires
        ids_ascending(gs),
        0 <= i < gs.len(),
        nv.id == gs[i].id,
        k != gs[i].id,
    ensures
        lookup_node(gs.update(i, nv), k) == lookup_node(gs, k),
{
    let g2 = gs.update(i, nv);
    assert(ids_ascending(g2)) by {
        assert forall|a: int, b: int| 0 <= a < b < g2.len() implies #[trigger] g2[a].id < #[trigger] g2[b].id by {
            assert(g2[a].id == gs[a].id && g2[b].id == gs[b].id);
        }
    }
    if has_node(gs, k) {
        let j = choose|j: int| 0 <= j < gs.len() && #[trigger] gs[j].id == k;
        lemma_lookup_at(gs, k, j);
        lemma_lookup_at(g2, k, j);
    } else if has_node(g2, k) {
        let j = choose|j: int| 0 <= j < g2.len() && #[trigger] g2[j].id == k;
        assert(gs[j].id == k);
    }
}

proof fn lemma_lookup_insert(gs: Seq<NodeView>, p: int, nv: NodeView, k: u64)
    requires
        ids_ascending(gs),
        ids_ascending(gs.insert(p, nv)),
        0 <= p <= gs.len(),
        k != nv.id,
    ensures
        lookup_node(gs.insert(p, nv), k) == lookup_node(gs, k),
{
    let g2 = gs.insert(p, nv);
    if has_node(gs, k) {
        let j = choose|j: int| 0 <= j < gs.len() && #[trigger] gs[j].id == k;
        let j2 = if j < p { j } else { j + 1 };
        assert(g2[j2] == gs[j]);
        lemma_lookup_at(gs, k, j);
        lemma_lookup_at(g2, k, j2);
    } else if has_node(g2, k) {
        let j2 = choose|j2: int| 0 <= j2 < g2.len() && #[trigger] g2[j2].id == k;
        assert(j2 != p);
        let j = if j2 < p { j2 } else { j2 - 1 };
        assert(g2[j2] == gs[j]);
    }
}

/// Each accepted command leaves alone everything that a node outside its
/// invalidation roots reads.
pub proof fn lemma_step_same_outside(c: CutView, cmd: CommandView)
    requires
        cut_view_wf(c),
        cut_step(c, cmd) is Ok,
        cut_view_wf(cut_step(c, cmd)->Ok_0.cut),
    ensures
        same_outside(c, cut_step(c, cmd)->Ok_0.cut, root_ids(cut_step(c, cmd)->Ok_0.roots)),
{
    reveal(cut_step);
    let e = cut_step(c, cmd)->Ok_0;
    let c2 = e.cut;
    let gs = c.graph.nodes;
    match cmd {
        CommandView::AddDrawing { at, id, name, strokes, layers } => {
            assert forall|a: int| 0 <= a < c.columns.len() implies !exposes(#[trigger] c.columns[a].keys, id) by {
                if exposes(c.columns[a].keys, id) {
                    let f = choose|f: u32| #[trigger] c.columns[a].keys.contains_key(f) && c.columns[a].keys[f] == Exposure::Drawing(id);
                    assert(c.drawings.contains_key(c.columns[a].keys[f]->Drawing_0));
                }
            }
            lemma_drawing_edit(c, c2, id, e.roots);
        },
        CommandView::InsertDrawing { at, id, index, name, strokes, layers } => {
            assert forall|a: int| 0 <= a < c.columns.len() implies !exposes(#[trigger] c.columns[a].keys, id) by {
                if exposes(c.columns[a].keys, id) {
                    let f = choose|f: u32| #[trigger] c.columns[a].keys.contains_key(f) && c.columns[a].keys[f] == Exposure::Drawing(id);
                    assert(c.drawings.contains_key(c.columns[a].keys[f]->Drawing_0));
                }
            }
            lemma_drawing_edit(c, c2, id, e.roots);
        },
        CommandView::AddStroke { at, id, stroke } => {
            lemma_exposing_roots_cover(c.columns, gs, id);
            lemma_drawing_edit(c, c2, id, e.roots);
        },
        CommandView::PopStroke { at, id } => {
            lemma_exposing_roots_cover(c.columns, gs, id);
            lemma_drawing_edit(c, c2, id, e.roots);
        },
        CommandView::PaintTiles { at, id, layer, diff } => {
            lemma_exposing_roots_cover(c.columns, gs, id);
            lemma_drawing_edit(c, c2, id, e.roots);
        },
        CommandView::RemoveDrawing { at, id } => {
            lemma_exposing_roots_cover(c.columns, gs, id);
            assert forall|i: int| 0 <= i < c.columns.len() && !exposes(c.columns[i].keys, id) implies #[trigger] c2.columns[i]
                == c.columns[i] by {
                assert(strip_keys(c.columns[i].keys, id) =~= c.columns[i].keys);
            }
            lemma_drawing_edit(c, c2, id, e.roots);
        },
        CommandView::SetCell { at, column, frame, key } => {
            crate::step::lemma_column_pos_props(c.columns, column);
            let i = column_pos(c.columns, column)->Some_0;
            lemma_set_cell(c, c2, column, i, e.roots);
        },
        CommandView::AddNode { at, id, kind } => {
            let s = root_ids(e.roots);
            assert forall|k: u64| !s.contains(k) implies #[trigger] lookup_node(c2.graph.nodes, k) == lookup_node(gs, k) by {
                assert(e.roots[0].0 == id.0);
                crate::laws::lemma_split_exists(gs, id.0);
                assert(crate::step::splits_at(gs, id.0, crate::step::insert_pos(gs, id.0)));
                lemma_lookup_insert(gs, crate::step::insert_pos(gs, id.0), crate::step::fresh_node(id, kind), k);
            }
            lemma_graph_edit(c, c2, s);
        },
        CommandView::RemoveNode { at, id } => {
            let s = root_ids(e.roots);
            let kpos = crate::step::node_pos(gs, id.0);
            let rest = gs.remove(kpos);
            let links = severed_spec(rest, id.0);
            assert forall|k: u64| !s.contains(k) implies #[trigger] lookup_node(c2.graph.nodes, k) == lookup_node(gs, k) by {
                assert(e.roots[links.len() as int].0 == id.0);
                assert forall|l: int| 0 <= l < links.len() implies (#[trigger] links[l]).0 != NodeId(k) by {
                    if links[l].0 == NodeId(k) {
                        assert(e.roots[l] == links[l].0);
                        assert(e.roots[l].0 == k);
                        assert(s.contains(k));
                    }
                }
                lemma_remove_node(gs, id.0, kpos, k);
            }
            lemma_graph_edit(c, c2, s);
        },
        CommandView::Connect { at, from, from_pin, to, to_pin } => {
            let s = root_ids(e.roots);
            let i = crate::step::node_pos(gs, to.0);
            assert forall|k: u64| !s.contains(k) implies #[trigger] lookup_node(c2.graph.nodes, k) == lookup_node(gs, k) by {
                assert(e.roots[0].0 == to.0);
                lemma_lookup_update(gs, i, crate::graph::with_input(gs[i], to_pin as int, Some((from, from_pin))), k);
            }
            lemma_graph_edit(c, c2, s);
        },
        CommandView::Disconnect { at, to, to_pin } => {
            let s = root_ids(e.roots);
            let i = crate::step::node_pos(gs, to.0);
            assert forall|k: u64| !s.contains(k) implies #[trigger] lookup_node(c2.graph.nodes, k) == lookup_node(gs, k) by {
                assert(e.roots[0].0 == to.0);
                lemma_lookup_update(gs, i, crate::graph::with_input(gs[i], to_pin as int, None), k);
            }
            lemma_graph_edit(c, c2, s);
        },
        CommandView::SetNodeKind { at, id, kind } => {
            let s = root_ids(e.roots);
            let i = crate::step::node_pos(gs, id.0);
            assert forall|k: u64| !s.contains(k) implies #[trigger] lookup_node(c2.graph.nodes, k) == lookup_node(gs, k) by {
                assert(e.roots[0].0 == id.0);
                lemma_lookup_update(
                    gs,
                    i,
                    NodeView { id: id.0, kind, inputs: crate::graph::resized(gs[i].inputs, crate::graph::input_count_spec(kind)) },
                    k,
                );
            }
            lemma_graph_edit(c, c2, s);
        },
        CommandView::SetOutput { at, node } => {
            lemma_graph_edit(c, c2, root_ids(e.roots));
        },
    }
}

/// Downstream-only invalidation: after an accepted command, dropping the
/// memoized values of its roots and everything downstream of them (in the
/// cut as it now is) leaves only values that are still right.
pub proof fn lemma_step_keeps_cache(c: CutView, cmd: CommandView, t: Seq<(u32, Seq<char>)>, cache: Seq<(CacheKey, ValueView)>)
    requires
        cut_view_wf(c),
        cut_step(c, cmd) is Ok,
        cut_view_wf(cut_step(c, cmd)->Ok_0.cut),
        cache_agrees(cache, c, t),
    ensures
        cache_agrees(
            retain_spec(cache, closure_of(cut_step(c, cmd)->Ok_0.cut.graph.nodes, cut_step(c, cmd)->Ok_0.roots)),
            cut_step(c, cmd)->Ok_0.cut,
            t,
        ),
{
    lemma_step_same_outside(c, cmd);
    let e = cut_step(c, cmd)->Ok_0;
    lemma_retain_agrees(c, e.cut, t, e.roots, cache);
}


/// Dropping values never makes the rest wrong.
proof fn lemma_retain_more(s: Seq<(CacheKey, ValueView)>, nodes: Set<NodeId>, cut: CutView, t: Seq<(u32, Seq<char>)>)
    requires
        cache_agrees(s, cut, t),
    ensures
        cache_agrees(retain_spec(s, nodes), cut, t),
{
    let kept = retain_spec(s, nodes);
    assert forall|i: int| 0 <= i < kept.len() && has_node(cut.graph.nodes, kept[i].0.0.0) implies #[trigger] entry_agrees(
        kept[i],
        cut,
        t,
    ) by {
        lemma_retained(s, nodes, i);
        let j = choose|j: int| 0 <= j < s.len() && s[j] == kept[i];
        assert(entry_agrees(s[j], cut, t));
    }
}

/// Dropping two sets in turn is dropping their union.
pub proof fn lemma_retain_union(s: Seq<(CacheKey, ValueView)>, a: Set<NodeId>, b: Set<NodeId>)
    ensures
        retain_spec(s, a + b) == retain_spec(retain_spec(s, a), b),
    decreases s.len(),
{
    if s.len() > 0 {
        lemma_retain_union(s.drop_last(), a, b);
        let ra = retain_spec(s.drop_last(), a);
        if !a.contains(s.last().0.0) {
            assert(ra.push(s.last()).drop_last() =~= ra);
            assert(ra.push(s.last()).last() == s.last());
        }
    }
}

/// One accepted command on a project: dropping the closure of its roots in
/// the cut it edited leaves every cut's memoized values right.
pub proof fn lemma_project_step_keeps_cache(
    q: ProjectView,
    cmd: CommandView,
    cache: Seq<(CacheKey, ValueView)>,
    t: Seq<(u32, Seq<char>)>,
    si: int,
    ci: int,
)
    requires
        project_view_wf(q),
        project_step(q, cmd) is Ok,
        project_view_wf(project_step(q, cmd)->Ok_0.project),
        0 <= si < q.scenes.len(),
        0 <= ci < q.scenes[si].cuts.len(),
        cache_agrees(cache, q.scenes[si].cuts[ci], t),
    ensures
        cache_agrees(
            retain_spec(cache, closure_spec(project_step(q, cmd)->Ok_0.project, cmd.at(), project_step(q, cmd)->Ok_0.roots)),
            project_step(q, cmd)->Ok_0.project.scenes[si].cuts[ci],
            t,
        ),
{
    reveal(project_step);
    let at = cmd.at();
    let si2 = scene_pos(q.scenes, at.scene)->Some_0;
    let ci2 = cut_pos(q.scenes[si2].cuts, at.cut)->Some_0;
    crate::model::lemma_scene_pos_props(q.scenes, at.scene);
    crate::model::lemma_cut_pos_props(q.scenes[si2].cuts, at.cut);
    let c = q.scenes[si2].cuts[ci2];
    let e = cut_step(c, cmd)->Ok_0;
    let pe = project_step(q, cmd)->Ok_0;
    let q2 = pe.project;
    assert(q2 == with_cut(q, si2, ci2, e.cut));
    lemma_cut_step_shape(c, cmd);
    crate::laws::lemma_with_cut_positions(q, at, si2, ci2, e.cut);
    assert(closure_spec(q2, at, pe.roots) =~= closure_of(e.cut.graph.nodes, e.roots));
    assert(cut_view_wf(q.scenes[si2].cuts[ci2]));
    assert(cut_view_wf(q2.scenes[si2].cuts[ci2]));
    if si == si2 && ci == ci2 {
        lemma_step_keeps_cache(c, cmd, t, cache);
    } else {
        assert(q2.scenes[si].cuts[ci] == q.scenes[si].cuts[ci]);
        lemma_retain_more(cache, closure_spec(q2, at, pe.roots), q.scenes[si].cuts[ci], t);
    }
}


/// Once the values of the `dropped` nodes are gone, every cut of `p1`
/// agrees with whatever memoized values agreed with the same cut of `p0`.
pub open spec fn keeps_cache(p0: ProjectView, p1: ProjectView, dropped: Set<NodeId>) -> bool {
    forall|c0: Seq<(CacheKey, ValueView)>, t: Seq<(u32, Seq<char>)>, si: int, ci: int|
        0 <= si < p0.scenes.len() && 0 <= ci < p0.scenes[si].cuts.len() && #[trigger] cache_agrees(
            c0,
            p0.scenes[si].cuts[ci],
            t,
        ) ==> cache_agrees(retain_spec(c0, dropped), p1.scenes[si].cuts[ci], t)
}

proof fn lemma_retain_none(s: Seq<(CacheKey, ValueView)>)
    ensures
        retain_spec(s, Set::<NodeId>::empty()) == s,
    decreases s.len(),
{
    if s.len() > 0 {
        lemma_retain_none(s.drop_last());
        assert(s.drop_last().push(s.last()) =~= s);
    }
}

/// Nothing applied keeps every cut's memoized values right.
pub proof fn lemma_keeps_cache_start(p: ProjectView)
    ensures
        keeps_cache(p, p, Set::<NodeId>::empty()),
{
    assert forall|c0: Seq<(CacheKey, ValueView)>, t: Seq<(u32, Seq<char>)>, si: int, ci: int|
        0 <= si < p.scenes.len() && 0 <= ci < p.scenes[si].cuts.len() && #[trigger] cache_agrees(
            c0,
            p.scenes[si].cuts[ci],
            t,
        ) implies cache_agrees(retain_spec(c0, Set::<NodeId>::empty()), p.scenes[si].cuts[ci], t) by {
        lemma_retain_none(c0);
    }
}

/// One more accepted command, with the closure of its roots dropped too,
/// still keeps every cut's memoized values right.
pub proof fn lemma_keeps_cache_step(p0: ProjectView, q: ProjectView, cmd: CommandView, d: Set<NodeId>)
    requires
        keeps_cache(p0, q, d),
        crate::step::same_shape(p0, q),
        project_view_wf(q),
        project_step(q, cmd) is Ok,
        project_view_wf(project_step(q, cmd)->Ok_0.project),
    ensures
        keeps_cache(
            p0,
            project_step(q, cmd)->Ok_0.project,
            d + closure_spec(project_step(q, cmd)->Ok_0.project, cmd.at(), project_step(q, cmd)->Ok_0.roots),
        ),
{
    let pe = project_step(q, cmd)->Ok_0;
    let x = closure_spec(pe.project, cmd.at(), pe.roots);
    assert forall|c0: Seq<(CacheKey, ValueView)>, t: Seq<(u32, Seq<char>)>, si: int, ci: int|
        0 <= si < p0.scenes.len() && 0 <= ci < p0.scenes[si].cuts.len() && #[trigger] cache_agrees(
            c0,
            p0.scenes[si].cuts[ci],
            t,
        ) implies cache_agrees(retain_spec(c0, d + x), pe.project.scenes[si].cuts[ci], t) by {
        assert(crate::step::scene_shape_eq(p0.scenes[si], q.scenes[si]));
        assert(cache_agrees(retain_spec(c0, d), q.scenes[si].cuts[ci], t));
        lemma_project_step_keeps_cache(q, cmd, retain_spec(c0, d), t, si, ci);
        lemma_retain_union(c0, d, x);
    }
}


/// Wherever a cut of `p0` agreed with the cache `c0`, the same cut of `p1`
/// agrees with the cache `c1`.
pub open spec fn cache_stays_right(
    p0: ProjectView,
    c0: Seq<(CacheKey, ValueView)>,
    p1: ProjectView,
    c1: Seq<(CacheKey, ValueView)>,
) -> bool {
    forall|t: Seq<(u32, Seq<char>)>, si: int, ci: int|
        0 <= si < p0.scenes.len() && 0 <= ci < p0.scenes[si].cuts.len() && #[trigger] cache_agrees(
            c0,
            p0.scenes[si].cuts[ci],
            t,
        ) ==> cache_agrees(c1, p1.scenes[si].cuts[ci], t)
}

pub proof fn lemma_keeps_cache_use(p0: ProjectView, p1: ProjectView, d: Set<NodeId>, c0: Seq<(CacheKey, ValueView)>)
    requires
        keeps_cache(p0, p1, d),
    ensures
        cache_stays_right(p0, c0, p1, retain_spec(c0, d)),
{
    assert forall|t: Seq<(u32, Seq<char>)>, si: int, ci: int|
        0 <= si < p0.scenes.len() && 0 <= ci < p0.scenes[si].cuts.len() && #[trigger] cache_agrees(
            c0,
            p0.scenes[si].cuts[ci],
            t,
        ) implies cache_agrees(retain_spec(c0, d), p1.scenes[si].cuts[ci], t) by {
    }
}


// ---- A new, empty sheet column ------------------------------------------------

/// A column whose id no column of the cut has leaves every value that did
/// evaluate alone: a node that read a missing column was an error.
proof fn lemma_new_column_value(
    c1: CutView,
    c2: CutView,
    col: ColumnView,
    t: Seq<(u32, Seq<char>)>,
    k: u64,
    frame: u32,
    f: nat,
)
    requires
        column_ids_unique(c1.columns),
        forall|i: int| 0 <= i < c1.columns.len() ==> #[trigger] c1.columns[i].id != col.id,
        c2 == (CutView { columns: c1.columns.push(col), ..c1 }),
        node_recipe(c1, t, k, frame, f) is Ok,
    ensures
        node_recipe(c2, t, k, frame, f) == node_recipe(c1, t, k, frame, f),
    decreases f,
{
    if f > 0 {
        if let Some(n) = lookup_node(c1.graph.nodes, k) {
            if n.kind is DrawingSource {
                let column = n.kind->column;
                assert(source_recipe(c1, column, frame) is Ok);
                let a = choose|a: int| 0 <= a < c1.columns.len() && #[trigger] c1.columns[a].id == column.0;
                lemma_column_at(c1.columns, column.0, a);
                assert(column_ids_unique(c2.columns)) by {
                    assert forall|x: int, y: int| 0 <= x < y < c2.columns.len() implies #[trigger] c2.columns[x].id
                        != #[trigger] c2.columns[y].id by {
                        if y < c1.columns.len() {
                            assert(c1.columns[x].id != c1.columns[y].id);
                        } else {
                            assert(c2.columns[y] == col);
                            assert(c1.columns[x].id != col.id);
                        }
                    }
                }
                assert(c2.columns[a] == c1.columns[a]);
                lemma_column_at(c2.columns, column.0, a);
            }
            assert forall|slot: int| 0 <= slot < 2 && #[trigger] input_recipe(c1, t, n.inputs, slot, frame, (f - 1) as nat) is Ok
                implies input_recipe(c2, t, n.inputs, slot, frame, (f - 1) as nat) == input_recipe(
                c1,
                t,
                n.inputs,
                slot,
                frame,
                (f - 1) as nat,
            ) by {
                if let Some(src) = crate::eval::input_src(n.inputs, slot) {
                    lemma_new_column_value(c1, c2, col, t, src, frame, (f - 1) as nat);
                }
            }
            let i0 = input_recipe(c1, t, n.inputs, 0, frame, (f - 1) as nat);
            let i1 = input_recipe(c1, t, n.inputs, 1, frame, (f - 1) as nat);
            if i0 is Ok {
                assert(input_recipe(c2, t, n.inputs, 0, frame, (f - 1) as nat) == i0);
            }
            if i0 is Ok && i1 is Ok {
                assert(input_recipe(c2, t, n.inputs, 1, frame, (f - 1) as nat) == i1);
            }
        }
    }
}

/// Adding a column with a fresh id to a cut keeps every memoized value of
/// that cut right.
pub proof fn lemma_new_column_keeps_cache(
    c1: CutView,
    col: ColumnView,
    t: Seq<(u32, Seq<char>)>,
    cache: Seq<(CacheKey, ValueView)>,
)
    requires
        column_ids_unique(c1.columns),
        forall|i: int| 0 <= i < c1.columns.len() ==> #[trigger] c1.columns[i].id != col.id,
        cache_agrees(cache, c1, t),
    ensures
        cache_agrees(cache, CutView { columns: c1.columns.push(col), ..c1 }, t),
{
    let c2 = CutView { columns: c1.columns.push(col), ..c1 };
    assert forall|i: int| 0 <= i < cache.len() && has_node(c2.graph.nodes, cache[i].0.0.0) implies #[trigger] entry_agrees(
        cache[i],
        c2,
        t,
    ) by {
        assert(entry_agrees(cache[i], c1, t));
        lemma_new_column_value(c1, c2, col, t, cache[i].0.0.0, cache[i].0.1, c1.graph.nodes.len());
    }
}


// ---- Edits that do not touch what evaluation reads -------------------------------

/// Two cuts with the same graph, sheet columns, drawings and images
/// evaluate alike: a cache right for one is right for the other.
pub proof fn lemma_same_reads_keep_cache(c1: CutView, c2: CutView, t: Seq<(u32, Seq<char>)>, cache: Seq<(CacheKey, ValueView)>)
    requires
        c2.graph == c1.graph,
        c2.columns == c1.columns,
        c2.drawings == c1.drawings,
        c2.images == c1.images,
        cache_agrees(cache, c1, t),
    ensures
        cache_agrees(cache, c2, t),
{
    let none = Seq::<NodeId>::empty();
    assert(same_outside(c1, c2, root_ids(none)));
    assert forall|i: int| 0 <= i < cache.len() && has_node(c2.graph.nodes, cache[i].0.0.0) implies #[trigger] entry_agrees(
        cache[i],
        c2,
        t,
    ) by {
        assert(entry_agrees(cache[i], c1, t));
        assert(!closure_of(c2.graph.nodes, none).contains(cache[i].0.0));
        crate::eval::lemma_local(c1, c2, t, none, cache[i].0.0.0, cache[i].0.1, c1.graph.nodes.len());
    }
}

/// Cuts that read the same at every old position, with scenes and cuts
/// only added after them: the same cache stays right.
pub proof fn lemma_same_reads_everywhere(p0: ProjectView, p1: ProjectView, cache: Seq<(CacheKey, ValueView)>)
    requires
        p0.scenes.len() <= p1.scenes.len(),
        forall|si: int| 0 <= si < p0.scenes.len() ==> (#[trigger] p0.scenes[si]).cuts.len() <= p1.scenes[si].cuts.len(),
        forall|si: int, ci: int|
            0 <= si < p0.scenes.len() && 0 <= ci < p0.scenes[si].cuts.len() ==> {
                let a = #[trigger] p0.scenes[si].cuts[ci];
                let b = p1.scenes[si].cuts[ci];
                &&& b.graph == a.graph
                &&& b.columns == a.columns
                &&& b.drawings == a.drawings
                &&& b.images == a.images
            },
    ensures
        cache_stays_right(p0, cache, p1, cache),
{
    assert forall|t: Seq<(u32, Seq<char>)>, si: int, ci: int|
        0 <= si < p0.scenes.len() && 0 <= ci < p0.scenes[si].cuts.len() && #[trigger] cache_agrees(
            cache,
            p0.scenes[si].cuts[ci],
            t,
        ) implies cache_agrees(cache, p1.scenes[si].cuts[ci], t) by {
        lemma_same_reads_keep_cache(p0.scenes[si].cuts[ci], p1.scenes[si].cuts[ci], t, cache);
    }
}

/// An emptied cache is right for every cut.
pub proof fn lemma_empty_cache(p0: ProjectView, c0: Seq<(CacheKey, ValueView)>, p1: ProjectView)
    ensures
        cache_stays_right(p0, c0, p1, Seq::<(CacheKey, ValueView)>::empty()),
{
}

} // verus!
