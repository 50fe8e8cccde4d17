//! Laws of editing: every accepted command's inverse restores the cut it
//! changed, exactly.

use vstd::prelude::*;
use crate::command::{CommandView, CutRef, TileChangeView};
use crate::graph::{
    GraphView, NodeKind, NodeView, OutPin, acyclic, feeds, has_node, ids_ascending, input_count_spec, inputs_exist,
    lemma_feeds_at, lemma_feeds_update, lemma_has_node_update, lemma_upstream_mono, node_feeds, pins_match, resized,
    sever_all, sever_node, sever_slot, upstream, upstream_within, with_input,
};
use crate::ids::{ColumnId, DrawingId, LayerId, NodeId};
use crate::model::{
    CelLayerView, Cut, CutView, DrawingView, column_ids_unique, columns_view, drawing_map, drawing_pos, has_drawing,
    keys_resolve, layer_pos, lemma_drawing_pos, lemma_layer_pos_props,
};
use crate::raster::{TileCoord, TileView};
use crate::step::{
    apply_change, apply_diff, column_pos, cut_step, fresh_node, insert_pos, inverse_diff, key_at, lemma_column_pos,
    lemma_column_pos_props, lemma_insert_pos, lemma_node_pos, node_pos, pin_restores, splits_at, step_add_drawing,
    step_add_node, step_add_stroke, step_connect, step_disconnect, step_insert_drawing, step_pop_stroke, step_remove_drawing, insert_slot,
    step_paint_tiles, step_remove_node, step_set_cell, step_set_node_kind, step_set_output, strip_column, strip_keys,
    tile_at, with_graph, ascending_u32, ref_frames, restore_cells, with_columns, severed_restores,
};
use crate::graph::{pin_links, severed_spec};
use crate::model::{ProjectView, SceneView, cut_pos, scene_pos, lemma_cut_pos_props, lemma_scene_pos_props};
use crate::step::{project_step, replay_spec, rollback_spec, batch_spec, with_cut, closure_spec, lemma_cut_step_shape, cut_shape_eq};
use crate::xsheet::{ColumnView, Exposure};

verus! {

// ---- Running commands on one cut --------------------------------------------

/// Commands run in order on one cut; `None` if one is refused.
pub open spec fn cut_run(c: CutView, cmds: Seq<CommandView>) -> Option<CutView>
    decreases cmds.len(),
{
    if cmds.len() == 0 {
        Some(c)
    } else {
        match cut_run(c, cmds.drop_last()) {
            None => None,
            Some(d) => match cut_step(d, cmds.last()) {
                Ok(e) => Some(e.cut),
                Err(_) => None,
            },
        }
    }
}

proof fn lemma_cut_run_concat(c: CutView, a: Seq<CommandView>, b: Seq<CommandView>)
    ensures
        cut_run(c, a + b) == (match cut_run(c, a) {
            None => None,
            Some(d) => cut_run(d, b),
        }),
    decreases b.len(),
{
    if b.len() == 0 {
        assert(a + b =~= a);
    } else {
        assert((a + b).drop_last() =~= a + b.drop_last());
        assert((a + b).last() == b.last());
        lemma_cut_run_concat(c, a, b.drop_last());
    }
}

proof fn lemma_cut_run_one(c: CutView, x: CommandView)
    ensures
        cut_run(c, seq![x]) == (match cut_step(c, x) {
            Ok(e) => Some(e.cut),
            Err(_) => None::<CutView>,
        }),
{
    assert(seq![x].drop_last() =~= Seq::<CommandView>::empty());
    assert(cut_run(c, Seq::<CommandView>::empty()) == Some(c));
    assert(seq![x].last() == x);
}

// ---- Well-formed cuts, abstractly -----------------------------------------------

/// The abstract form of a well-formed cut: ids ascending, wires name
/// existing nodes, no cycles, pins as the kinds say, the output exists,
/// column ids unique with finitely many keys, and every exposed drawing in
/// the library.
pub open spec fn cut_view_wf(c: CutView) -> bool {
    &&& ids_ascending(c.graph.nodes)
    &&& inputs_exist(c.graph.nodes)
    &&& acyclic(c.graph.nodes)
    &&& pins_match(c.graph.nodes)
    &&& (c.graph.output matches Some(o) ==> has_node(c.graph.nodes, o.0))
    &&& column_ids_unique(c.columns)
    &&& forall|k: int| 0 <= k < c.columns.len() ==> (#[trigger] c.columns[k]).keys.dom().finite()
    &&& keys_resolve(c.columns, c.drawings)
    &&& c.order.no_duplicates()
    &&& c.order.len() <= usize::MAX
    &&& forall|id: DrawingId|
        #![trigger c.drawings.contains_key(id)]
        #![trigger c.order.contains(id)]
        c.drawings.contains_key(id) <==> c.order.contains(id)
}

/// A well-formed cut's view is well formed.
proof fn lemma_cut_wf_view(cut: Cut)
    requires
        cut.wf(),
    ensures
        cut_view_wf(cut.view()),
{
    let cols = columns_view(cut.xsheet.columns@);
    assert forall|k: int| 0 <= k < cols.len() implies (#[trigger] cols[k]).keys.dom().finite() by {
        cut.xsheet.columns@[k].keys.lemma_finite();
    }
    let s = cut.drawings@;
    let o = cut.view().order;
    assert(cut.drawings.len() == s.len());
    assert forall|i: int, j: int| 0 <= i < o.len() && 0 <= j < o.len() && i != j implies o[i] != o[j] by {
        if i < j {
            assert(s[i].id != s[j].id);
        } else {
            assert(s[j].id != s[i].id);
        }
    }
    assert forall|id: DrawingId| cut.view().drawings.contains_key(id) <==> o.contains(id) by {
        if has_drawing(s, id) {
            let i = choose|i: int| 0 <= i < s.len() && #[trigger] s[i].id == id;
            assert(o[i] == id);
        }
        if o.contains(id) {
            let i = choose|i: int| 0 <= i < o.len() && o[i] == id;
            assert(s[i].id == id);
        }
    }
}

// ---- Per-command laws --------------------------------------------------------------

proof fn undo_add_drawing(c: CutView, at: CutRef, id: DrawingId, d: DrawingView)
    requires
        cut_view_wf(c),
        step_add_drawing(c, at, id, d) is Ok,
    ensures
        cut_run(step_add_drawing(c, at, id, d)->Ok_0.cut, step_add_drawing(c, at, id, d)->Ok_0.inverse) == Some(c),
{
    reveal(cut_step);
    let e = step_add_drawing(c, at, id, d)->Ok_0;
    let c1 = e.cut;
    lemma_cut_run_one(c1, CommandView::RemoveDrawing { at, id });
    let back = step_remove_drawing(c1, at, id)->Ok_0.cut;
    assert(back.drawings =~= c.drawings);
    assert forall|k: int| 0 <= k < c.columns.len() implies #[trigger] strip_column(c.columns[k], id) == c.columns[k] by {
        assert(strip_keys(c.columns[k].keys, id) =~= c.columns[k].keys);
    }
    assert(back.columns =~= c.columns);
    assert(!c.order.contains(id));
    lemma_drawing_pos(c.order.push(id), id, c.order.len() as int);
    assert(back.order =~= c.order);
}

proof fn undo_insert_drawing(c: CutView, at: CutRef, id: DrawingId, index: usize, d: DrawingView)
    requires
        cut_view_wf(c),
        step_insert_drawing(c, at, id, index, d) is Ok,
    ensures
        cut_run(step_insert_drawing(c, at, id, index, d)->Ok_0.cut, step_insert_drawing(c, at, id, index, d)->Ok_0.inverse)
            == Some(c),
{
    reveal(cut_step);
    let e = step_insert_drawing(c, at, id, index, d)->Ok_0;
    let c1 = e.cut;
    lemma_cut_run_one(c1, CommandView::RemoveDrawing { at, id });
    let back = step_remove_drawing(c1, at, id)->Ok_0.cut;
    assert(back.drawings =~= c.drawings);
    assert forall|k: int| 0 <= k < c.columns.len() implies #[trigger] strip_column(c.columns[k], id) == c.columns[k] by {
        assert(strip_keys(c.columns[k].keys, id) =~= c.columns[k].keys);
    }
    assert(back.columns =~= c.columns);
    assert(!c.order.contains(id));
    let k = insert_slot(c.order, index);
    let o1 = c.order.insert(k, id);
    assert forall|j: int| 0 <= j < k implies #[trigger] o1[j] != id by {
        assert(o1[j] == c.order[j]);
    }
    lemma_drawing_pos(o1, id, k);
    assert(back.order =~= c.order);
}

proof fn undo_add_stroke(c: CutView, at: CutRef, id: DrawingId, s: crate::model::StrokeView)
    requires
        cut_view_wf(c),
        step_add_stroke(c, at, id, s) is Ok,
    ensures
        cut_run(step_add_stroke(c, at, id, s)->Ok_0.cut, step_add_stroke(c, at, id, s)->Ok_0.inverse) == Some(c),
{
    reveal(cut_step);
    let c1 = step_add_stroke(c, at, id, s)->Ok_0.cut;
    lemma_cut_run_one(c1, CommandView::PopStroke { at, id });
    let back = step_pop_stroke(c1, at, id)->Ok_0.cut;
    let d = c.drawings[id];
    assert(d.strokes.push(s).drop_last() =~= d.strokes);
    assert(back.drawings =~= c.drawings);
}

proof fn undo_pop_stroke(c: CutView, at: CutRef, id: DrawingId)
    requires
        cut_view_wf(c),
        step_pop_stroke(c, at, id) is Ok,
    ensures
        cut_run(step_pop_stroke(c, at, id)->Ok_0.cut, step_pop_stroke(c, at, id)->Ok_0.inverse) == Some(c),
{
    reveal(cut_step);
    let e = step_pop_stroke(c, at, id)->Ok_0;
    let d = c.drawings[id];
    lemma_cut_run_one(e.cut, CommandView::AddStroke { at, id, stroke: d.strokes.last() });
    let back = step_add_stroke(e.cut, at, id, d.strokes.last())->Ok_0.cut;
    assert(d.strokes.drop_last().push(d.strokes.last()) =~= d.strokes);
    assert(back.drawings =~= c.drawings);
}

proof fn undo_set_cell(c: CutView, at: CutRef, column: ColumnId, frame: u32, key: Option<Exposure>)
    requires
        cut_view_wf(c),
        step_set_cell(c, at, column, frame, key) is Ok,
    ensures
        cut_run(step_set_cell(c, at, column, frame, key)->Ok_0.cut, step_set_cell(c, at, column, frame, key)->Ok_0.inverse) == Some(c),
{
    reveal(cut_step);
    lemma_column_pos_props(c.columns, column);
    let i = column_pos(c.columns, column)->Some_0;
    let col = c.columns[i];
    let e = step_set_cell(c, at, column, frame, key)->Ok_0;
    let prev = key_at(col.keys, frame);
    let c1 = e.cut;
    lemma_cut_run_one(c1, CommandView::SetCell { at, column, frame, key: prev });
    assert(c1.columns[i].id == column.0);
    assert forall|j: int| 0 <= j < i implies #[trigger] c1.columns[j].id != column.0 by {
        assert(c.columns[j].id != column.0);
    }
    lemma_column_pos(c1.columns, column, i);
    if prev matches Some(Exposure::Drawing(dd)) {
        assert(col.keys.contains_key(frame));
        assert(c.columns[i].keys.contains_key(frame));
    }
    let back = step_set_cell(c1, at, column, frame, prev)->Ok_0.cut;
    let k1 = c1.columns[i].keys;
    match prev {
        Some(pe) => {
            assert(k1.insert(frame, pe) =~= col.keys);
        },
        None => {
            assert(k1.remove(frame) =~= col.keys);
        },
    }
    assert(back.columns =~= c.columns);
}

proof fn undo_set_output(c: CutView, at: CutRef, node: Option<NodeId>)
    requires
        cut_view_wf(c),
        step_set_output(c, at, node) is Ok,
    ensures
        cut_run(step_set_output(c, at, node)->Ok_0.cut, step_set_output(c, at, node)->Ok_0.inverse) == Some(c),
{
    reveal(cut_step);
    let c1 = step_set_output(c, at, node)->Ok_0.cut;
    lemma_cut_run_one(c1, CommandView::SetOutput { at, node: c.graph.output });
}

// ---- Graph helpers -------------------------------------------------------------------

/// Paths that end at `t` and only use wires into other nodes that `g2`
/// also has, exist in `g2`.
proof fn lemma_upstream_to(g1: Seq<NodeView>, g2: Seq<NodeView>, a: u64, t: u64, n: nat)
    requires
        forall|s: u64, c: u64| c != t && #[trigger] feeds(g1, s, c) ==> feeds(g2, s, c),
        upstream_within(g1, a, t, n),
    ensures
        upstream_within(g2, a, t, n),
    decreases n,
{
    if a != t {
        let m = choose|m: u64| #[trigger] feeds(g1, m, a) && upstream_within(g1, m, t, (n - 1) as nat);
        lemma_upstream_to(g1, g2, m, t, (n - 1) as nat);
        assert(feeds(g2, m, a) && upstream_within(g2, m, t, (n - 1) as nat));
    }
}

/// `cur` has `gt`'s nodes (same ids, in order) and a subset of its wires.
pub open spec fn sub_of(cur: Seq<NodeView>, gt: Seq<NodeView>) -> bool {
    &&& cur.len() == gt.len()
    &&& forall|j: int| 0 <= j < cur.len() ==> (#[trigger] cur[j]).id == gt[j].id
    &&& forall|s: u64, c: u64| #[trigger] feeds(cur, s, c) ==> feeds(gt, s, c)
}

pub open spec fn graph_ok(gs: Seq<NodeView>) -> bool {
    &&& ids_ascending(gs)
    &&& inputs_exist(gs)
    &&& acyclic(gs)
}

proof fn lemma_sub_of_ids(cur: Seq<NodeView>, gt: Seq<NodeView>)
    requires
        sub_of(cur, gt),
        ids_ascending(gt),
    ensures
        ids_ascending(cur),
        forall|x: u64| #[trigger] has_node(cur, x) == has_node(gt, x),
{
    assert forall|a: int, b: int| 0 <= a < b < cur.len() implies #[trigger] cur[a].id < #[trigger] cur[b].id by {
        assert(gt[a].id < gt[b].id);
    }
    assert forall|x: u64| #[trigger] has_node(cur, x) == has_node(gt, x) by {
        if has_node(cur, x) {
            let j = choose|j: int| 0 <= j < cur.len() && #[trigger] cur[j].id == x;
            assert(gt[j].id == x);
        }
        if has_node(gt, x) {
            let j = choose|j: int| 0 <= j < gt.len() && #[trigger] gt[j].id == x;
            assert(cur[j].id == x);
        }
    }
}

/// Connecting `src -> gt[i]` at a pin where `gt` has that wire is accepted
/// on a sub-graph of an acyclic `gt`.
proof fn lemma_restore_ok(cur: Seq<NodeView>, gt: Seq<NodeView>, i: int, q: int)
    requires
        sub_of(cur, gt),
        graph_ok(gt),
        0 <= i < gt.len(),
        0 <= q < gt[i].inputs.len(),
        gt[i].inputs[q] is Some,
    ensures
        has_node(cur, gt[i].inputs[q]->Some_0.0.0),
        !upstream(cur, gt[i].inputs[q]->Some_0.0.0, gt[i].id),
{
    lemma_sub_of_ids(cur, gt);
    let src = gt[i].inputs[q]->Some_0.0.0;
    assert(gt[i].inputs[q] is Some);
    assert(feeds(gt, src, gt[i].id));
    if upstream(cur, src, gt[i].id) {
        let n = choose|n: nat| upstream_within(cur, src, gt[i].id, n);
        lemma_upstream_mono(cur, gt, src, gt[i].id, n);
    }
}

// ---- Restoring the pins of one node ------------------------------------------------------

/// The inputs `inputs` with pins at and after `m` cleared.
pub open spec fn cleared_from(inputs: Seq<Option<OutPin>>, m: int) -> Seq<Option<OutPin>> {
    Seq::new(inputs.len(), |q: int| if q < m { inputs[q] } else { None::<OutPin> })
}

/// Running the pin restores of node `gt[i]` (pins `lo..m`) on a cut whose
/// node `i` has only pins below `lo` wired, as `gt` has them, wires pins
/// below `m` as `gt` has them.
proof fn lemma_restore_pins(c: CutView, at: CutRef, gt: Seq<NodeView>, i: int, lo: nat, m: nat)
    requires
        graph_ok(gt),
        sub_of(c.graph.nodes, gt),
        0 <= i < gt.len(),
        lo <= m <= gt[i].inputs.len() <= 65536,
        c.graph.nodes[i].inputs == cleared_from(gt[i].inputs, lo as int),
    ensures
        cut_run(c, pin_restores(at, NodeId(gt[i].id), gt[i].inputs.take(m as int), lo)) == Some(with_graph(c, GraphView {
            nodes: c.graph.nodes.update(i, NodeView { inputs: cleared_from(gt[i].inputs, m as int), ..c.graph.nodes[i] }),
            ..c.graph
        })),
    decreases m,
{
    let inputs = gt[i].inputs;
    let id = NodeId(gt[i].id);
    let cur = c.graph.nodes;
    if m == lo {
        assert(pin_restores(at, id, inputs.take(m as int), lo) =~= Seq::<CommandView>::empty());
        assert(c.graph.nodes.update(i, NodeView { inputs: cleared_from(inputs, m as int), ..c.graph.nodes[i] }) =~= c.graph.nodes);
        assert(cut_run(c, Seq::<CommandView>::empty()) == Some(c));
    } else {
        let m1 = (m - 1) as nat;
        lemma_restore_pins(c, at, gt, i, lo, m1);
        let t = inputs.take(m as int);
        assert(t.drop_last() =~= inputs.take(m1 as int));
        assert(t.last() == inputs[m1 as int]);
        let c1 = with_graph(c, GraphView {
            nodes: cur.update(i, NodeView { inputs: cleared_from(inputs, m1 as int), ..cur[i] }),
            ..c.graph
        });
        let g1 = c1.graph.nodes;
        // g1 is still a sub-graph of gt.
        assert(g1[i].inputs == cleared_from(inputs, m1 as int));
        assert(sub_of(g1, gt)) by {
            lemma_sub_of_ids(cur, gt);
            lemma_feeds_update(cur, i, g1[i]);
            assert forall|j: int| 0 <= j < g1.len() implies (#[trigger] g1[j]).id == gt[j].id by {
                assert(cur[j].id == gt[j].id);
            }
            assert forall|s: u64, cc: u64| #[trigger] feeds(g1, s, cc) implies feeds(gt, s, cc) by {
                if cc == g1[i].id {
                    let p = choose|p: int| 0 <= p < g1[i].inputs.len() && (#[trigger] g1[i].inputs[p]) is Some && g1[i].inputs[p].unwrap().0.0 == s;
                    assert(gt[i].inputs[p] is Some);
                    assert(node_feeds(gt[i], s));
                    lemma_feeds_at(gt, i, s);
                } else {
                    assert(feeds(cur, s, cc));
                }
            }
        }
        let pre = pin_restores(at, id, inputs.take(m1 as int), lo);
        let whole = pin_restores(at, id, t, lo);
        let c2_nodes = cur.update(i, NodeView { inputs: cleared_from(inputs, m as int), ..cur[i] });
        if inputs[m1 as int] is Some {
            let src = inputs[m1 as int]->Some_0;
            let x = CommandView::Connect { at, from: src.0, from_pin: src.1, to: id, to_pin: m1 as u16 };
            assert(whole =~= pre.push(x));
            assert(whole =~= pre + seq![x]);
            lemma_cut_run_concat(c, pre, seq![x]);
            lemma_cut_run_one(c1, x);
            lemma_sub_of_ids(g1, gt);
            lemma_restore_ok(g1, gt, i, m1 as int);
            lemma_node_pos(g1, id.0, i);
            reveal(cut_step);
            assert(g1.update(i, with_input(g1[i], m1 as int, Some(src))) =~= c2_nodes) by {
                assert(with_input(g1[i], m1 as int, Some(src)).inputs =~= cleared_from(inputs, m as int));
            }
        } else {
            assert(whole =~= pre);
            assert(cleared_from(inputs, m as int) =~= cleared_from(inputs, m1 as int));
        }
    }
}

// ---- Graph command laws -------------------------------------------------------------------

proof fn undo_connect(c: CutView, at: CutRef, from: NodeId, from_pin: u16, to: NodeId, to_pin: u16)
    requires
        cut_view_wf(c),
        step_connect(c, at, from, from_pin, to, to_pin) is Ok,
    ensures
        cut_run(step_connect(c, at, from, from_pin, to, to_pin)->Ok_0.cut, step_connect(c, at, from, from_pin, to, to_pin)->Ok_0.inverse) == Some(c),
{
    reveal(cut_step);
    let gs = c.graph.nodes;
    let i = node_pos(gs, to.0);
    assert(gs[i].id == to.0);
    let nv = with_input(gs[i], to_pin as int, Some((from, from_pin)));
    let g1 = gs.update(i, nv);
    let e = step_connect(c, at, from, from_pin, to, to_pin)->Ok_0;
    let c1 = e.cut;
    assert(c1.graph.nodes == g1);
    lemma_feeds_update(gs, i, nv);
    lemma_has_node_update(gs, i, nv);
    lemma_node_pos(g1, to.0, i);
    let prev = gs[i].inputs[to_pin as int];
    match prev {
        Some(pv) => {
            let x = CommandView::Connect { at, from: pv.0, from_pin: pv.1, to, to_pin };
            lemma_cut_run_one(c1, x);
            assert(gs[i].inputs[to_pin as int] is Some);
            assert(has_node(gs, pv.0.0));
            assert(feeds(gs, pv.0.0, to.0));
            if upstream(g1, pv.0.0, to.0) {
                let n = choose|n: nat| upstream_within(g1, pv.0.0, to.0, n);
                lemma_upstream_to(g1, gs, pv.0.0, to.0, n);
            }
            assert(g1.update(i, with_input(g1[i], to_pin as int, Some(pv))) =~= gs) by {
                assert(with_input(g1[i], to_pin as int, Some(pv)).inputs =~= gs[i].inputs);
            }
        },
        None => {
            let x = CommandView::Disconnect { at, to, to_pin };
            lemma_cut_run_one(c1, x);
            assert(g1.update(i, with_input(g1[i], to_pin as int, None)) =~= gs) by {
                assert(with_input(g1[i], to_pin as int, None).inputs =~= gs[i].inputs);
            }
        },
    }
}

proof fn undo_disconnect(c: CutView, at: CutRef, to: NodeId, to_pin: u16)
    requires
        cut_view_wf(c),
        step_disconnect(c, at, to, to_pin) is Ok,
    ensures
        cut_run(step_disconnect(c, at, to, to_pin)->Ok_0.cut, step_disconnect(c, at, to, to_pin)->Ok_0.inverse) == Some(c),
{
    reveal(cut_step);
    let gs = c.graph.nodes;
    let i = node_pos(gs, to.0);
    assert(gs[i].id == to.0);
    let nv = with_input(gs[i], to_pin as int, None);
    let g1 = gs.update(i, nv);
    let e = step_disconnect(c, at, to, to_pin)->Ok_0;
    let c1 = e.cut;
    assert(c1.graph.nodes == g1);
    lemma_feeds_update(gs, i, nv);
    lemma_has_node_update(gs, i, nv);
    lemma_node_pos(g1, to.0, i);
    let prev = gs[i].inputs[to_pin as int];
    match prev {
        Some(pv) => {
            let x = CommandView::Connect { at, from: pv.0, from_pin: pv.1, to, to_pin };
            lemma_cut_run_one(c1, x);
            assert(gs[i].inputs[to_pin as int] is Some);
            assert(has_node(gs, pv.0.0));
            assert(feeds(gs, pv.0.0, to.0));
            assert(sub_of(g1, gs)) by {
                assert forall|s: u64, cc: u64| #[trigger] feeds(g1, s, cc) implies feeds(gs, s, cc) by {
                    if cc == to.0 {
                        let p = choose|p: int| 0 <= p < nv.inputs.len() && (#[trigger] nv.inputs[p]) is Some && nv.inputs[p].unwrap().0.0 == s;
                        assert(gs[i].inputs[p] is Some);
                        assert(node_feeds(gs[i], s));
                        lemma_feeds_at(gs, i, s);
                    }
                }
            }
            lemma_restore_ok(g1, gs, i, to_pin as int);
            assert(g1.update(i, with_input(g1[i], to_pin as int, Some(pv))) =~= gs) by {
                assert(with_input(g1[i], to_pin as int, Some(pv)).inputs =~= gs[i].inputs);
            }
        },
        None => {
            assert(e.inverse =~= Seq::<CommandView>::empty());
            assert(g1 =~= gs) by {
                assert(nv.inputs =~= gs[i].inputs);
            }
            assert(c1 == c);
        },
    }
}

/// In an ascending graph without `id`, some position splits it by `id`.
pub(crate) proof fn lemma_split_exists(gs: Seq<NodeView>, id: u64)
    requires
        ids_ascending(gs),
        !has_node(gs, id),
    ensures
        exists|p: int| #[trigger] splits_at(gs, id, p),
    decreases gs.len(),
{
    if gs.len() == 0 {
        assert(splits_at(gs, id, 0));
    } else if gs.last().id < id {
        assert(splits_at(gs, id, gs.len() as int));
    } else {
        let d = gs.drop_last();
        assert(ids_ascending(d));
        assert(!has_node(d, id)) by {
            if has_node(d, id) {
                let j = choose|j: int| 0 <= j < d.len() && #[trigger] d[j].id == id;
                assert(gs[j].id == id);
            }
        }
        lemma_split_exists(d, id);
        let p = choose|p: int| #[trigger] splits_at(d, id, p);
        assert(gs.last().id != id) by {
            assert(gs[gs.len() - 1].id == gs.last().id);
            if gs.last().id == id {
                assert(has_node(gs, id));
            }
        }
        assert forall|j: int| 0 <= j < p implies #[trigger] gs[j].id < id by {
            assert(d[j].id < id);
        }
        assert forall|j: int| p <= j < gs.len() implies #[trigger] gs[j].id > id by {
            if j < d.len() {
                assert(d[j].id > id);
            }
        }
        assert(splits_at(gs, id, p));
    }
}

/// Nothing is wired from a node the graph lacks.
proof fn lemma_sever_absent(gs: Seq<NodeView>, id: u64)
    requires
        inputs_exist(gs),
        !has_node(gs, id),
    ensures
        sever_all(gs, id) == gs,
{
    assert forall|j: int| 0 <= j < gs.len() implies #[trigger] sever_node(gs[j], id) == gs[j] by {
        assert(gs[j].inputs.map_values(|o: Option<OutPin>| sever_slot(o, id)) =~= gs[j].inputs) by {
            assert forall|p: int| 0 <= p < gs[j].inputs.len() implies #[trigger] sever_slot(gs[j].inputs[p], id) == gs[j].inputs[p] by {
                if gs[j].inputs[p] is Some && gs[j].inputs[p].unwrap().0.0 == id {
                    assert(has_node(gs, gs[j].inputs[p].unwrap().0.0));
                }
            }
        }
    }
    assert(sever_all(gs, id) =~= gs);
}

proof fn undo_add_node(c: CutView, at: CutRef, id: NodeId, kind: NodeKind)
    requires
        cut_view_wf(c),
        step_add_node(c, at, id, kind) is Ok,
    ensures
        cut_run(step_add_node(c, at, id, kind)->Ok_0.cut, step_add_node(c, at, id, kind)->Ok_0.inverse) == Some(c),
{
    reveal(cut_step);
    let gs = c.graph.nodes;
    lemma_split_exists(gs, id.0);
    let p0 = choose|p: int| #[trigger] splits_at(gs, id.0, p);
    lemma_insert_pos(gs, id.0, p0);
    let pos = insert_pos(gs, id.0);
    let g1 = gs.insert(pos, fresh_node(id, kind));
    let c1 = step_add_node(c, at, id, kind)->Ok_0.cut;
    assert(c1.graph.nodes == g1);
    assert(g1[pos].id == id.0);
    assert(ids_ascending(g1)) by {
        assert forall|a: int, b: int| 0 <= a < b < g1.len() implies #[trigger] g1[a].id < #[trigger] g1[b].id by {
            if b < pos {
                assert(gs[a].id < gs[b].id);
            } else if b == pos {
                assert(gs[a].id < id.0);
            } else if a < pos {
                assert(g1[b] == gs[b - 1]);
                assert(gs[a].id < id.0);
                assert(gs[b - 1].id > id.0);
            } else if a == pos {
                assert(gs[b - 1].id > id.0);
            } else {
                assert(gs[a - 1].id < gs[b - 1].id);
            }
        }
    }
    assert(has_node(g1, id.0));
    lemma_node_pos(g1, id.0, pos);
    assert(g1.remove(pos) =~= gs);
    lemma_sever_absent(gs, id.0);
    lemma_cut_run_one(c1, CommandView::RemoveNode { at, id });
    if c.graph.output == Some(id) {
        assert(has_node(gs, id.0));
    }
}

proof fn undo_set_node_kind(c: CutView, at: CutRef, id: NodeId, kind: NodeKind)
    requires
        cut_view_wf(c),
        step_set_node_kind(c, at, id, kind) is Ok,
    ensures
        cut_run(step_set_node_kind(c, at, id, kind)->Ok_0.cut, step_set_node_kind(c, at, id, kind)->Ok_0.inverse) == Some(c),
{
    reveal(cut_step);
    let gs = c.graph.nodes;
    let i = node_pos(gs, id.0);
    assert(gs[i].id == id.0);
    let nv = gs[i];
    let inputs = nv.inputs;
    let count = input_count_spec(kind);
    let len = inputs.len();
    assert(len == input_count_spec(nv.kind));
    assert(len <= 2);
    let n1 = NodeView { id: id.0, kind, inputs: resized(inputs, count) };
    let g1 = gs.update(i, n1);
    let e = step_set_node_kind(c, at, id, kind)->Ok_0;
    let c1 = e.cut;
    assert(c1.graph.nodes == g1);
    lemma_feeds_update(gs, i, n1);
    lemma_has_node_update(gs, i, n1);
    lemma_node_pos(g1, id.0, i);
    let first = CommandView::SetNodeKind { at, id, kind: nv.kind };
    let rest = pin_restores(at, id, inputs, count);
    assert(e.inverse == seq![first] + rest);
    lemma_cut_run_concat(c1, seq![first], rest);
    lemma_cut_run_one(c1, first);
    let n2 = NodeView { id: id.0, kind: nv.kind, inputs: resized(resized(inputs, count), len) };
    let g2 = g1.update(i, n2);
    let c2 = with_graph(c1, GraphView { nodes: g2, ..c1.graph });
    assert(step_set_node_kind(c1, at, id, nv.kind)->Ok_0.cut == c2);
    if count >= len {
        assert(resized(resized(inputs, count), len) =~= inputs);
        assert(g2 =~= gs);
        assert(rest =~= Seq::<CommandView>::empty());
        assert(c2 == c);
    } else {
        assert(n2.inputs =~= cleared_from(inputs, count as int));
        assert(sub_of(g2, gs)) by {
            assert forall|j: int| 0 <= j < g2.len() implies (#[trigger] g2[j]).id == gs[j].id by {}
            lemma_feeds_update(gs, i, n2);
            assert forall|s: u64, cc: u64| #[trigger] feeds(g2, s, cc) implies feeds(gs, s, cc) by {
                assert(g2 == gs.update(i, n2));
                if cc == id.0 {
                    let p = choose|p: int| 0 <= p < n2.inputs.len() && (#[trigger] n2.inputs[p]) is Some && n2.inputs[p].unwrap().0.0 == s;
                    assert(gs[i].inputs[p] is Some);
                    assert(node_feeds(gs[i], s));
                    lemma_feeds_at(gs, i, s);
                }
            }
        }
        assert(inputs.take(len as int) =~= inputs);
        lemma_restore_pins(c2, at, gs, i, count, len);
        assert(cleared_from(inputs, len as int) =~= inputs);
        assert(g2.update(i, NodeView { inputs: cleared_from(inputs, len as int), ..g2[i] }) =~= gs);
    }
}

// ---- Raster paint law ------------------------------------------------------------------------

proof fn lemma_apply_diff_front(m: Map<TileCoord, TileView>, x: TileChangeView, r: Seq<TileChangeView>)
    ensures
        apply_diff(m, seq![x] + r) == apply_diff(apply_change(m, x), r),
    decreases r.len(),
{
    if r.len() == 0 {
        assert(seq![x] + r =~= seq![x]);
        assert(seq![x].drop_last() =~= Seq::<TileChangeView>::empty());
        assert(apply_diff(m, Seq::<TileChangeView>::empty()) == m);
        assert(seq![x].last() == x);
        assert(apply_diff(apply_change(m, x), r) == apply_change(m, x));
    } else {
        assert((seq![x] + r).drop_last() =~= seq![x] + r.drop_last());
        assert((seq![x] + r).last() == r.last());
        lemma_apply_diff_front(m, x, r.drop_last());
    }
}

/// A tile diff followed by its inverse leaves the tiles as they were.
pub proof fn lemma_diff_undo(m: Map<TileCoord, TileView>, diff: Seq<TileChangeView>)
    ensures
        apply_diff(apply_diff(m, diff), inverse_diff(m, diff)) == m,
    decreases diff.len(),
{
    if diff.len() == 0 {
    } else {
        let d = diff.drop_last();
        let e = diff.last();
        let big_m = apply_diff(m, d);
        let x = (e.0, e.2, tile_at(big_m, e.0));
        lemma_apply_diff_front(apply_diff(m, diff), x, inverse_diff(m, d));
        assert(apply_change(apply_change(big_m, e), x) =~= big_m);
        lemma_diff_undo(m, d);
    }
}

proof fn undo_paint_tiles(c: CutView, at: CutRef, id: DrawingId, layer: LayerId, diff: Seq<TileChangeView>)
    requires
        cut_view_wf(c),
        step_paint_tiles(c, at, id, layer, diff) is Ok,
    ensures
        cut_run(step_paint_tiles(c, at, id, layer, diff)->Ok_0.cut, step_paint_tiles(c, at, id, layer, diff)->Ok_0.inverse) == Some(c),
{
    reveal(cut_step);
    let d = c.drawings[id];
    lemma_layer_pos_props(d.layers, layer);
    let k = layer_pos(d.layers, layer)->Some_0;
    let l = d.layers[k];
    let e = step_paint_tiles(c, at, id, layer, diff)->Ok_0;
    let c1 = e.cut;
    let d1 = c1.drawings[id];
    assert(d1.layers[k].id == layer);
    lemma_layer_pos_props(d1.layers, layer);
    assert forall|j: int| 0 <= j < k implies #[trigger] d1.layers[j].id != layer by {
        assert(d.layers[j].id != layer);
    }
    let k1 = layer_pos(d1.layers, layer)->Some_0;
    if k1 < k {
        assert(d1.layers[k1].id != layer);
    }
    if k1 > k {
        assert(d1.layers[k].id == layer);
    }
    assert(k1 == k);
    let inv = inverse_diff(l.tiles, diff);
    lemma_cut_run_one(c1, CommandView::PaintTiles { at, id, layer, diff: inv });
    lemma_diff_undo(l.tiles, diff);
    let back = step_paint_tiles(c1, at, id, layer, inv)->Ok_0.cut;
    assert(back.drawings[id].layers =~= d.layers);
    assert(back.drawings =~= c.drawings);
}

// ---- Ascending listings --------------------------------------------------------------------

proof fn lemma_insert_ascending(l: Seq<u32>, x: u32)
    requires
        ascending_u32(l),
        !l.contains(x),
    ensures
        exists|r: Seq<u32>| ascending_u32(r) && forall|f: u32| #[trigger] r.contains(f) <==> (l.contains(f) || f == x),
    decreases l.len(),
{
    if l.len() == 0 {
        let r = seq![x];
        assert forall|f: u32| #[trigger] r.contains(f) <==> (l.contains(f) || f == x) by {
            if r.contains(f) {
                let k = choose|k: int| 0 <= k < r.len() && r[k] == f;
            }
            if f == x {
                assert(r[0] == f);
            }
        }
        assert(ascending_u32(r));
    } else if l.last() < x {
        let r = l.push(x);
        assert(ascending_u32(r)) by {
            assert forall|i: int, j: int| 0 <= i < j < r.len() implies #[trigger] r[i] < #[trigger] r[j] by {
                if j == l.len() {
                    if i < l.len() - 1 {
                        assert(l[i] < l[l.len() - 1]);
                    }
                } else {
                    assert(l[i] < l[j]);
                }
            }
        }
        assert forall|f: u32| #[trigger] r.contains(f) <==> (l.contains(f) || f == x) by {
            if r.contains(f) {
                let k = choose|k: int| 0 <= k < r.len() && r[k] == f;
                if k < l.len() {
                    assert(l[k] == f);
                }
            }
            if l.contains(f) {
                let k = choose|k: int| 0 <= k < l.len() && l[k] == f;
                assert(r[k] == f);
            }
            if f == x {
                assert(r[l.len() as int] == f);
            }
        }
    } else {
        let d = l.drop_last();
        let last = l.last();
        assert(l.contains(last)) by {
            assert(l[l.len() - 1] == last);
        }
        assert(last != x);
        assert(ascending_u32(d));
        assert(!d.contains(x)) by {
            if d.contains(x) {
                let k = choose|k: int| 0 <= k < d.len() && d[k] == x;
                assert(l[k] == x);
            }
        }
        lemma_insert_ascending(d, x);
        let r0 = choose|r: Seq<u32>| ascending_u32(r) && forall|f: u32| #[trigger] r.contains(f) <==> (d.contains(f) || f == x);
        let r = r0.push(last);
        assert forall|f: u32| #[trigger] r0.contains(f) implies f < last by {
            if d.contains(f) {
                let k = choose|k: int| 0 <= k < d.len() && d[k] == f;
                assert(l[k] < l[l.len() - 1]);
            }
        }
        assert(ascending_u32(r)) by {
            assert forall|i: int, j: int| 0 <= i < j < r.len() implies #[trigger] r[i] < #[trigger] r[j] by {
                if j == r0.len() {
                    assert(r0.contains(r0[i]));
                } else {
                    assert(r0[i] < r0[j]);
                }
            }
        }
        assert forall|f: u32| #[trigger] r.contains(f) <==> (l.contains(f) || f == x) by {
            if r.contains(f) {
                let k = choose|k: int| 0 <= k < r.len() && r[k] == f;
                if k < r0.len() {
                    assert(r0.contains(f));
                    if d.contains(f) {
                        let k2 = choose|k2: int| 0 <= k2 < d.len() && d[k2] == f;
                        assert(l[k2] == f);
                    }
                }
            }
            if l.contains(f) {
                let k = choose|k: int| 0 <= k < l.len() && l[k] == f;
                if k < d.len() {
                    assert(d[k] == f);
                    assert(r0.contains(f));
                    let k2 = choose|k2: int| 0 <= k2 < r0.len() && r0[k2] == f;
                    assert(r[k2] == f);
                } else {
                    assert(r[r0.len() as int] == f);
                }
            }
            if f == x {
                assert(r0.contains(f));
                let k2 = choose|k2: int| 0 <= k2 < r0.len() && r0[k2] == f;
                assert(r[k2] == f);
            }
        }
    }
}

/// A finite set of frames has an ascending listing.
proof fn lemma_ascending_listing(s: Set<u32>)
    requires
        s.finite(),
    ensures
        exists|l: Seq<u32>| ascending_u32(l) && forall|f: u32| #[trigger] l.contains(f) <==> s.contains(f),
    decreases s.len(),
{
    if s.len() == 0 {
        let l = Seq::<u32>::empty();
        assert(s =~= Set::<u32>::empty()) by {
            if exists|f: u32| s.contains(f) {
                let f = choose|f: u32| s.contains(f);
                assert(s.remove(f).len() < s.len());
            }
        }
        assert(ascending_u32(l));
        assert forall|f: u32| #[trigger] l.contains(f) <==> s.contains(f) by {}
    } else {
        let x = s.choose();
        assert(s.contains(x)) by {
            if !s.contains(x) {
                assert(s =~= Set::<u32>::empty()) by {
                    if exists|f: u32| s.contains(f) {
                        let f = choose|f: u32| s.contains(f);
                    }
                }
            }
        }
        let s2 = s.remove(x);
        lemma_ascending_listing(s2);
        let l2 = choose|l: Seq<u32>| ascending_u32(l) && forall|f: u32| #[trigger] l.contains(f) <==> s2.contains(f);
        assert(!l2.contains(x));
        lemma_insert_ascending(l2, x);
        let l = choose|r: Seq<u32>| ascending_u32(r) && forall|f: u32| #[trigger] r.contains(f) <==> (l2.contains(f) || f == x);
        assert forall|f: u32| #[trigger] l.contains(f) <==> s.contains(f) by {
            assert(l.contains(f) <==> (l2.contains(f) || f == x));
        }
    }
}

/// The frames of a column with finitely many keys that expose `id` have
/// an ascending listing, and `ref_frames` is it.
proof fn lemma_ref_frames_props(keys: Map<u32, Exposure>, id: DrawingId)
    requires
        keys.dom().finite(),
    ensures
        ascending_u32(ref_frames(keys, id)),
        forall|f: u32| #[trigger] ref_frames(keys, id).contains(f) <==> (keys.contains_key(f) && keys[f] == Exposure::Drawing(id)),
{
    let s = keys.dom().filter(|f: u32| keys[f] == Exposure::Drawing(id));
    vstd::set_lib::lemma_len_subset(s, keys.dom());
    lemma_ascending_listing(s);
    let l = choose|l: Seq<u32>| ascending_u32(l) && forall|f: u32| #[trigger] l.contains(f) <==> s.contains(f);
    assert(ascending_u32(l) && forall|f: u32| #[trigger] l.contains(f) <==> (keys.contains_key(f) && keys[f] == Exposure::Drawing(id)));
}

// ---- Removing a drawing, and putting it back --------------------------------------------

/// `base` with the frames `l[..t]` set to expose `id`.
pub open spec fn with_frames(base: Map<u32, Exposure>, l: Seq<u32>, t: int, id: DrawingId) -> Map<u32, Exposure> {
    Map::new(
        |f: u32| base.contains_key(f) || l.take(t).contains(f),
        |f: u32| if l.take(t).contains(f) { Exposure::Drawing(id) } else { base[f] },
    )
}

pub open spec fn cell_cmd(at: CutRef, column: ColumnId, id: DrawingId) -> spec_fn(u32) -> CommandView {
    |f: u32| CommandView::SetCell { at, column, frame: f, key: Some(Exposure::Drawing(id)) }
}

/// Setting the cells `l[..t]` of column `k` to expose `id`.
proof fn lemma_restore_frames(c: CutView, at: CutRef, id: DrawingId, k: int, base: Map<u32, Exposure>, l: Seq<u32>, t: nat)
    requires
        column_ids_unique(c.columns),
        0 <= k < c.columns.len(),
        c.drawings.contains_key(id),
        c.columns[k].keys == base,
        t <= l.len(),
    ensures
        cut_run(c, l.take(t as int).map_values(cell_cmd(at, ColumnId(c.columns[k].id), id))) == Some(with_columns(c,
            c.columns.update(k, ColumnView { keys: with_frames(base, l, t as int, id), ..c.columns[k] }))),
    decreases t,
{
    let col_id = ColumnId(c.columns[k].id);
    let fcmd = cell_cmd(at, col_id, id);
    if t == 0 {
        assert(l.take(0).map_values(fcmd) =~= Seq::<CommandView>::empty());
        assert(with_frames(base, l, 0, id) =~= base);
        assert(c.columns.update(k, ColumnView { keys: base, ..c.columns[k] }) =~= c.columns);
        assert(cut_run(c, Seq::<CommandView>::empty()) == Some(c));
    } else {
        let t1 = (t - 1) as nat;
        lemma_restore_frames(c, at, id, k, base, l, t1);
        let ct = with_columns(c, c.columns.update(k, ColumnView { keys: with_frames(base, l, t1 as int, id), ..c.columns[k] }));
        let x = fcmd(l[t1 as int]);
        assert(l.take(t as int).map_values(fcmd) =~= l.take(t1 as int).map_values(fcmd).push(x));
        assert(l.take(t as int).map_values(fcmd) =~= l.take(t1 as int).map_values(fcmd) + seq![x]);
        lemma_cut_run_concat(c, l.take(t1 as int).map_values(fcmd), seq![x]);
        lemma_cut_run_one(ct, x);
        reveal(cut_step);
        assert(ct.columns[k].id == col_id.0);
        assert forall|j: int| 0 <= j < k implies #[trigger] ct.columns[j].id != col_id.0 by {
            assert(c.columns[j].id != c.columns[k].id);
        }
        lemma_column_pos(ct.columns, col_id, k);
        let f = l[t1 as int];
        assert(with_frames(base, l, t1 as int, id).insert(f, Exposure::Drawing(id)) =~= with_frames(base, l, t as int, id)) by {
            assert forall|g: u32| #[trigger] l.take(t as int).contains(g) <==> (l.take(t1 as int).contains(g) || g == f) by {
                let a = l.take(t as int);
                let b = l.take(t1 as int);
                if a.contains(g) {
                    let i = choose|i: int| 0 <= i < a.len() && a[i] == g;
                    if i < t1 {
                        assert(b[i] == g);
                    }
                }
                if b.contains(g) {
                    let i = choose|i: int| 0 <= i < b.len() && b[i] == g;
                    assert(a[i] == g);
                }
                if g == f {
                    assert(a[t1 as int] == g);
                }
            }
        }
        let back = step_set_cell(ct, at, col_id, f, Some(Exposure::Drawing(id)))->Ok_0.cut;
        assert(back.columns =~= c.columns.update(k, ColumnView { keys: with_frames(base, l, t as int, id), ..c.columns[k] }));
    }
}

/// Columns before `m` as in `cols`, the rest with `id` stripped.
pub open spec fn mixed(cols: Seq<ColumnView>, m: int, id: DrawingId) -> Seq<ColumnView> {
    Seq::new(cols.len(), |j: int| if j < m { cols[j] } else { strip_column(cols[j], id) })
}

proof fn lemma_restore_columns(c: CutView, at: CutRef, id: DrawingId, cols: Seq<ColumnView>, m: nat)
    requires
        column_ids_unique(cols),
        forall|j: int| 0 <= j < cols.len() ==> (#[trigger] cols[j]).keys.dom().finite(),
        c.drawings.contains_key(id),
        c.columns == mixed(cols, 0, id),
        m <= cols.len(),
    ensures
        cut_run(c, restore_cells(at, cols.take(m as int), id)) == Some(with_columns(c, mixed(cols, m as int, id))),
    decreases m,
{
    if m == 0 {
        assert(restore_cells(at, cols.take(0), id) =~= Seq::<CommandView>::empty());
        assert(mixed(cols, 0, id) =~= c.columns);
        assert(cut_run(c, Seq::<CommandView>::empty()) == Some(c));
    } else {
        let m1 = (m - 1) as nat;
        lemma_restore_columns(c, at, id, cols, m1);
        let cm = with_columns(c, mixed(cols, m1 as int, id));
        let t = cols.take(m as int);
        assert(t.drop_last() =~= cols.take(m1 as int));
        assert(t.last() == cols[m1 as int]);
        let col = cols[m1 as int];
        let l = ref_frames(col.keys, id);
        let fcmd = cell_cmd(at, ColumnId(col.id), id);
        assert(l.map_values(|f: u32| CommandView::SetCell { at, column: ColumnId(col.id), frame: f, key: Some(Exposure::Drawing(id)) })
            =~= l.map_values(fcmd));
        assert(restore_cells(at, t, id) == restore_cells(at, cols.take(m1 as int), id) + l.map_values(fcmd));
        lemma_cut_run_concat(c, restore_cells(at, cols.take(m1 as int), id), l.map_values(fcmd));
        let mc = mixed(cols, m1 as int, id);
        assert(column_ids_unique(mc)) by {
            assert forall|a: int, b: int| 0 <= a < b < mc.len() implies #[trigger] mc[a].id != #[trigger] mc[b].id by {
                assert(cols[a].id != cols[b].id);
            }
        }
        assert(mc[m1 as int] == strip_column(col, id));
        assert(l.take(l.len() as int) =~= l);
        lemma_restore_frames(cm, at, id, m1 as int, strip_keys(col.keys, id), l, l.len());
        lemma_ref_frames_props(col.keys, id);
        assert(with_frames(strip_keys(col.keys, id), l, l.len() as int, id) =~= col.keys) by {
            assert forall|f: u32| #[trigger] l.take(l.len() as int).contains(f) <==> l.contains(f) by {}
        }
        assert(mc.update(m1 as int, ColumnView { keys: col.keys, ..mc[m1 as int] }) =~= mixed(cols, m as int, id));
    }
}

proof fn undo_remove_drawing(c: CutView, at: CutRef, id: DrawingId)
    requires
        cut_view_wf(c),
        step_remove_drawing(c, at, id) is Ok,
    ensures
        cut_run(step_remove_drawing(c, at, id)->Ok_0.cut, step_remove_drawing(c, at, id)->Ok_0.inverse) == Some(c),
{
    reveal(cut_step);
    let d = c.drawings[id];
    let e = step_remove_drawing(c, at, id)->Ok_0;
    let c1 = e.cut;
    assert(c.order.contains(id));
    let i = choose|i: int| 0 <= i < c.order.len() && c.order[i] == id;
    assert forall|j: int| 0 <= j < i implies #[trigger] c.order[j] != id by {}
    lemma_drawing_pos(c.order, id, i);
    let p = drawing_pos(c.order, id);
    let first = CommandView::InsertDrawing { at, id, index: p as usize, name: d.name, strokes: d.strokes, layers: d.layers };
    let rest = restore_cells(at, c.columns, id);
    lemma_cut_run_concat(c1, seq![first], rest);
    lemma_cut_run_one(c1, first);
    let c2 = step_insert_drawing(c1, at, id, p as usize, DrawingView { name: d.name, strokes: d.strokes, layers: d.layers })->Ok_0.cut;
    assert(c2.drawings =~= c.drawings);
    assert(c2.order =~= c.order);
    assert(c2.columns =~= mixed(c.columns, 0, id));
    assert(c.columns.take(c.columns.len() as int) =~= c.columns);
    lemma_restore_columns(c2, at, id, c.columns, c.columns.len());
    assert(mixed(c.columns, c.columns.len() as int, id) =~= c.columns);
}

// ---- Removing a node, and putting it back ---------------------------------------------

/// A graph whose pins are each either `gt`'s or unwired is a sub-graph.
proof fn lemma_sub_of_pins(cur: Seq<NodeView>, gt: Seq<NodeView>)
    requires
        ids_ascending(gt),
        cur.len() == gt.len(),
        forall|j: int| 0 <= j < cur.len() ==> (#[trigger] cur[j]).id == gt[j].id && cur[j].inputs.len() == gt[j].inputs.len(),
        forall|j: int, p: int| 0 <= j < cur.len() && 0 <= p < cur[j].inputs.len() ==> (#[trigger] cur[j].inputs[p]) is None
            || cur[j].inputs[p] == gt[j].inputs[p],
    ensures
        sub_of(cur, gt),
{
    assert forall|s: u64, c: u64| #[trigger] feeds(cur, s, c) implies feeds(gt, s, c) by {
        let (j, p) = choose|j: int, p: int|
            0 <= j < cur.len() && cur[j].id == c && 0 <= p < cur[j].inputs.len()
                && (#[trigger] cur[j].inputs[p]) is Some && cur[j].inputs[p].unwrap().0.0 == s;
        assert(gt[j].inputs[p] is Some);
    }
}

/// The inputs with pins at and after `q` cut from `id`.
pub open spec fn severed_from(inputs: Seq<Option<OutPin>>, id: u64, q: int) -> Seq<Option<OutPin>> {
    Seq::new(inputs.len(), |p: int| if p < q { inputs[p] } else { sever_slot(inputs[p], id) })
}

/// `gs` with the node at `k` in place, the nodes of `gs` other than `k`
/// before rest-index `r` whole, node `r` whole below pin `q`, and the rest
/// cut from `id`.
pub open spec fn regrown(gs: Seq<NodeView>, k: int, id: u64, r: int, q: int) -> Seq<NodeView> {
    Seq::new(gs.len(), |j: int|
        if j == k {
            gs[k]
        } else {
            let jr = if j < k { j } else { j - 1 };
            if jr < r {
                gs[j]
            } else if jr == r {
                NodeView { inputs: severed_from(gs[j].inputs, id, q), ..gs[j] }
            } else {
                sever_node(gs[j], id)
            }
        })
}

pub open spec fn link_cmd(at: CutRef, id: NodeId) -> spec_fn((NodeId, u16, u16)) -> CommandView {
    |l: (NodeId, u16, u16)| CommandView::Connect { at, from: id, from_pin: l.2, to: l.0, to_pin: l.1 }
}

proof fn lemma_regrown_sub(gs: Seq<NodeView>, k: int, id: u64, r: int, q: int)
    requires
        ids_ascending(gs),
        0 <= k < gs.len(),
    ensures
        sub_of(regrown(gs, k, id, r, q), gs),
        forall|j: int| 0 <= j < gs.len() ==> (#[trigger] regrown(gs, k, id, r, q)[j]).id == gs[j].id
            && regrown(gs, k, id, r, q)[j].inputs.len() == gs[j].inputs.len()
            && regrown(gs, k, id, r, q)[j].kind == gs[j].kind,
{
    let cur = regrown(gs, k, id, r, q);
    assert forall|j: int, p: int| 0 <= j < cur.len() && 0 <= p < cur[j].inputs.len() implies (#[trigger] cur[j].inputs[p]) is None
        || cur[j].inputs[p] == gs[j].inputs[p] by {}
    lemma_sub_of_pins(cur, gs);
}

/// Re-wiring the pins of rest-node `r` that came from `id`, pins below `q`.
proof fn lemma_regrow_node(c: CutView, at: CutRef, gs: Seq<NodeView>, k: int, id: NodeId, r: int, q: nat)
    requires
        graph_ok(gs),
        pins_match(gs),
        0 <= k < gs.len(),
        gs[k].id == id.0,
        0 <= r < gs.len() - 1,
        q <= gs.remove(k)[r].inputs.len(),
        c.graph.nodes == regrown(gs, k, id.0, r, 0),
    ensures
        cut_run(c, pin_links(gs.remove(k)[r].inputs.take(q as int), id.0).map_values(
            |l: (u16, u16)| (NodeId(gs.remove(k)[r].id), l.0, l.1),
        ).map_values(link_cmd(at, id))) == Some(with_graph(c, GraphView { nodes: regrown(gs, k, id.0, r, q as int), ..c.graph })),
    decreases q,
{
    let rest = gs.remove(k);
    let j = if r < k { r } else { r + 1 };
    assert(rest[r] == gs[j]);
    let inputs = gs[j].inputs;
    let to = NodeId(gs[j].id);
    let f = |l: (u16, u16)| (to, l.0, l.1);
    let cmds_of = |t: Seq<Option<OutPin>>| pin_links(t, id.0).map_values(f).map_values(link_cmd(at, id));
    if q == 0 {
        assert(pin_links(inputs.take(0), id.0) =~= Seq::<(u16, u16)>::empty());
        assert(pin_links(inputs.take(0), id.0).map_values(f).map_values(link_cmd(at, id)) =~= Seq::<CommandView>::empty());
        assert(cut_run(c, Seq::<CommandView>::empty()) == Some(c));
        assert(regrown(gs, k, id.0, r, 0) =~= c.graph.nodes);
    } else {
        let q1 = (q - 1) as nat;
        lemma_regrow_node(c, at, gs, k, id, r, q1);
        let t = inputs.take(q as int);
        assert(t.drop_last() =~= inputs.take(q1 as int));
        assert(t.last() == inputs[q1 as int]);
        assert(t.len() == q);
        let pre = pin_links(inputs.take(q1 as int), id.0).map_values(f).map_values(link_cmd(at, id));
        let whole = pin_links(t, id.0).map_values(f).map_values(link_cmd(at, id));
        let c1 = with_graph(c, GraphView { nodes: regrown(gs, k, id.0, r, q1 as int), ..c.graph });
        let g1 = c1.graph.nodes;
        assert(inputs.len() <= 2) by {
            assert(inputs.len() == input_count_spec(gs[j].kind));
        }
        let o = inputs[q1 as int];
        if o is Some && o->Some_0.0.0 == id.0 {
            let fp = o->Some_0.1;
            let x = CommandView::Connect { at, from: id, from_pin: fp, to, to_pin: q1 as u16 };
            assert(pin_links(t, id.0) == pin_links(inputs.take(q1 as int), id.0).push((q1 as u16, fp)));
            assert(whole =~= pre.push(x));
            assert(whole =~= pre + seq![x]);
            lemma_cut_run_concat(c, pre, seq![x]);
            lemma_cut_run_one(c1, x);
            lemma_regrown_sub(gs, k, id.0, r, q1 as int);
            lemma_sub_of_ids(g1, gs);
            assert(gs[j].inputs[q1 as int] is Some);
            lemma_restore_ok(g1, gs, j, q1 as int);
            assert(g1[k].id == id.0);
            assert(has_node(g1, id.0));
            assert(g1[j].id == to.0);
            lemma_node_pos(g1, to.0, j);
            reveal(cut_step);
            assert(g1.update(j, with_input(g1[j], q1 as int, Some((id, fp)))) =~= regrown(gs, k, id.0, r, q as int)) by {
                assert(with_input(g1[j], q1 as int, Some((id, fp))).inputs =~= severed_from(inputs, id.0, q as int));
            }
        } else {
            assert(pin_links(t, id.0) == pin_links(inputs.take(q1 as int), id.0));
            assert(whole =~= pre);
            assert(regrown(gs, k, id.0, r, q as int) =~= regrown(gs, k, id.0, r, q1 as int)) by {
                assert(severed_from(inputs, id.0, q as int) =~= severed_from(inputs, id.0, q1 as int));
            }
        }
    }
}

/// Re-wiring every pin from `id` of the rest-nodes before `r`.
proof fn lemma_regrow(c: CutView, at: CutRef, gs: Seq<NodeView>, k: int, id: NodeId, r: nat)
    requires
        graph_ok(gs),
        pins_match(gs),
        0 <= k < gs.len(),
        gs[k].id == id.0,
        r <= gs.len() - 1,
        c.graph.nodes == regrown(gs, k, id.0, 0, 0),
    ensures
        cut_run(c, severed_restores(at, id, severed_spec(gs.remove(k).take(r as int), id.0)))
            == Some(with_graph(c, GraphView { nodes: regrown(gs, k, id.0, r as int, 0), ..c.graph })),
    decreases r,
{
    let rest = gs.remove(k);
    if r == 0 {
        assert(severed_spec(rest.take(0), id.0) =~= Seq::<(NodeId, u16, u16)>::empty());
        assert(severed_restores(at, id, Seq::<(NodeId, u16, u16)>::empty()) =~= Seq::<CommandView>::empty());
        assert(cut_run(c, Seq::<CommandView>::empty()) == Some(c));
        assert(regrown(gs, k, id.0, 0, 0) =~= c.graph.nodes);
    } else {
        let r1 = (r - 1) as nat;
        lemma_regrow(c, at, gs, k, id, r1);
        let t = rest.take(r as int);
        assert(t.drop_last() =~= rest.take(r1 as int));
        assert(t.last() == rest[r1 as int]);
        let node = rest[r1 as int];
        let f = |l: (u16, u16)| (NodeId(node.id), l.0, l.1);
        let links_r = pin_links(node.inputs, id.0).map_values(f);
        assert(severed_spec(t, id.0) == severed_spec(rest.take(r1 as int), id.0) + links_r);
        let pre = severed_restores(at, id, severed_spec(rest.take(r1 as int), id.0));
        let add = links_r.map_values(link_cmd(at, id));
        assert(severed_restores(at, id, severed_spec(t, id.0)) =~= pre + add);
        lemma_cut_run_concat(c, pre, add);
        let c1 = with_graph(c, GraphView { nodes: regrown(gs, k, id.0, r1 as int, 0), ..c.graph });
        assert(node.inputs.take(node.inputs.len() as int) =~= node.inputs);
        lemma_regrow_node(c1, at, gs, k, id, r1 as int, node.inputs.len());
        let jj: int = if r1 < k { r1 as int } else { r1 as int + 1 };
        assert(rest[r1 as int] == gs[jj]);
        assert(regrown(gs, k, id.0, r1 as int, node.inputs.len() as int) =~= regrown(gs, k, id.0, r as int, 0)) by {
            assert(severed_from(node.inputs, id.0, node.inputs.len() as int) =~= node.inputs);
            assert forall|j: int| 0 <= j < gs.len() implies #[trigger] regrown(gs, k, id.0, r1 as int, node.inputs.len() as int)[j]
                == regrown(gs, k, id.0, r as int, 0)[j] by {
                if j != k {
                    let jr = if j < k { j } else { j - 1 };
                    if jr == r1 {
                        assert(j == jj);
                        assert(NodeView { inputs: gs[j].inputs, ..gs[j] } == gs[j]);
                    } else if jr == r {
                        assert(severed_from(gs[j].inputs, id.0, 0) =~= sever_node(gs[j], id.0).inputs);
                    }
                }
            }
        }
    }
}

#[verifier::rlimit(100)]
proof fn undo_remove_node(c: CutView, at: CutRef, id: NodeId)
    requires
        cut_view_wf(c),
        step_remove_node(c, at, id) is Ok,
    ensures
        cut_run(step_remove_node(c, at, id)->Ok_0.cut, step_remove_node(c, at, id)->Ok_0.inverse) == Some(c),
{
    reveal(cut_step);
    let gs = c.graph.nodes;
    let k = node_pos(gs, id.0);
    assert(gs[k].id == id.0);
    let nv = gs[k];
    let rest = gs.remove(k);
    let links = severed_spec(rest, id.0);
    let was_output = c.graph.output == Some(id);
    let out1 = if was_output { None } else { c.graph.output };
    let g1 = sever_all(rest, id.0);
    let e = step_remove_node(c, at, id)->Ok_0;
    let c1 = e.cut;
    assert(c1 == with_graph(c, GraphView { nodes: g1, output: out1 }));
    let len = nv.inputs.len();
    assert(len == input_count_spec(nv.kind));
    assert(len <= 2);
    // The pieces of the inverse.
    let add = CommandView::AddNode { at, id, kind: nv.kind };
    let own = pin_restores(at, id, nv.inputs, 0);
    let wires = severed_restores(at, id, links);
    let tail: Seq<CommandView> = if was_output { seq![CommandView::SetOutput { at, node: Some(id) }] } else { Seq::empty() };
    assert(e.inverse == seq![add] + own + wires + tail);
    lemma_cut_run_concat(c1, seq![add] + own + wires, tail);
    lemma_cut_run_concat(c1, seq![add] + own, wires);
    lemma_cut_run_concat(c1, seq![add], own);
    lemma_cut_run_one(c1, add);
    // AddNode puts the node back where it was, with no wires.
    assert(g1.len() == rest.len());
    assert forall|j: int| 0 <= j < g1.len() implies (#[trigger] g1[j]).id == rest[j].id by {}
    assert(!has_node(g1, id.0)) by {
        if has_node(g1, id.0) {
            let j = choose|j: int| 0 <= j < g1.len() && #[trigger] g1[j].id == id.0;
            let j2 = if j < k { j } else { j + 1 };
            assert(gs[j2].id == id.0);
            if j2 < k {
                assert(gs[j2].id < gs[k].id);
            } else {
                assert(gs[k].id < gs[j2].id);
            }
        }
    }
    assert(splits_at(g1, id.0, k)) by {
        assert forall|j: int| 0 <= j < k implies #[trigger] g1[j].id < id.0 by {
            assert(gs[j].id < gs[k].id);
        }
        assert forall|j: int| k <= j < g1.len() implies #[trigger] g1[j].id > id.0 by {
            assert(gs[k].id < gs[j + 1].id);
        }
    }
    lemma_insert_pos(g1, id.0, k);
    let g2 = g1.insert(k, fresh_node(id, nv.kind));
    let c2 = with_graph(c1, GraphView { nodes: g2, ..c1.graph });
    assert(step_add_node(c1, at, id, nv.kind)->Ok_0.cut == c2);
    // Its own inputs come back.
    assert(sub_of(g2, gs)) by {
        assert forall|j: int| 0 <= j < g2.len() implies (#[trigger] g2[j]).id == gs[j].id && g2[j].inputs.len() == gs[j].inputs.len() by {
            if j == k {
                assert(g2[j].inputs.len() == input_count_spec(nv.kind));
            } else if j < k {
                assert(g2[j] == sever_node(gs[j], id.0));
            } else {
                assert(g2[j] == sever_node(gs[j], id.0));
            }
        }
        assert forall|j: int, p: int| 0 <= j < g2.len() && 0 <= p < g2[j].inputs.len() implies (#[trigger] g2[j].inputs[p]) is None
            || g2[j].inputs[p] == gs[j].inputs[p] by {
            if j != k {
                assert(g2[j] == sever_node(gs[j], id.0));
            }
        }
        lemma_sub_of_pins(g2, gs);
    }
    assert(g2[k].inputs =~= cleared_from(nv.inputs, 0));
    assert(nv.inputs.take(len as int) =~= nv.inputs);
    assert(NodeId(gs[k].id) == id);
    lemma_restore_pins(c2, at, gs, k, 0, len);
    let g3 = g2.update(k, NodeView { inputs: cleared_from(nv.inputs, len as int), ..g2[k] });
    let c3 = with_graph(c2, GraphView { nodes: g3, ..c2.graph });
    assert(g3 =~= regrown(gs, k, id.0, 0, 0)) by {
        assert(cleared_from(nv.inputs, len as int) =~= nv.inputs);
        assert forall|j: int| 0 <= j < gs.len() implies #[trigger] g3[j] == regrown(gs, k, id.0, 0, 0)[j] by {
            if j != k {
                let jr = if j < k { j } else { j - 1 };
                assert(g3[j] == sever_node(gs[j], id.0));
                if jr == 0 {
                    assert(severed_from(gs[j].inputs, id.0, 0) =~= sever_node(gs[j], id.0).inputs);
                }
            }
        }
    }
    // Then every wire it fed.
    assert(rest.take(rest.len() as int) =~= rest);
    lemma_regrow(c3, at, gs, k, id, rest.len());
    assert(regrown(gs, k, id.0, rest.len() as int, 0) =~= gs);
    let c4 = with_graph(c3, GraphView { nodes: gs, ..c3.graph });
    assert(c4.graph.output == out1);
    if was_output {
        lemma_cut_run_one(c4, CommandView::SetOutput { at, node: Some(id) });
        assert(has_node(gs, id.0));
    } else {
        assert(cut_run(c4, tail) == Some(c4));
    }
}

// ---- Every accepted command's inverse restores the cut -----------------------------------

/// Every command in the list addresses `at`.
pub open spec fn all_at(cmds: Seq<CommandView>, at: CutRef) -> bool {
    forall|i: int| 0 <= i < cmds.len() ==> (#[trigger] cmds[i]).at() == at
}

proof fn lemma_pin_restores_at(at: CutRef, id: NodeId, inputs: Seq<Option<OutPin>>, lo: nat)
    ensures
        all_at(pin_restores(at, id, inputs, lo), at),
    decreases inputs.len(),
{
    if inputs.len() > lo {
        lemma_pin_restores_at(at, id, inputs.drop_last(), lo);
    }
}

proof fn lemma_restore_cells_at(at: CutRef, cols: Seq<ColumnView>, id: DrawingId)
    ensures
        all_at(restore_cells(at, cols, id), at),
    decreases cols.len(),
{
    if cols.len() > 0 {
        lemma_restore_cells_at(at, cols.drop_last(), id);
        let r = restore_cells(at, cols, id);
        let a = restore_cells(at, cols.drop_last(), id);
        assert forall|i: int| 0 <= i < r.len() implies (#[trigger] r[i]).at() == at by {
            if i < a.len() {
                assert(r[i] == a[i]);
            }
        }
    }
}

/// Every inverse command addresses the cut the command did.
proof fn lemma_inverse_at(c: CutView, cmd: CommandView)
    requires
        cut_step(c, cmd) is Ok,
    ensures
        all_at(cut_step(c, cmd)->Ok_0.inverse, cmd.at()),
{
    reveal(cut_step);
    let inv = cut_step(c, cmd)->Ok_0.inverse;
    match cmd {
        CommandView::RemoveDrawing { at, id } => {
            lemma_restore_cells_at(at, c.columns, id);
            let a = restore_cells(at, c.columns, id);
            assert forall|i: int| 0 <= i < inv.len() implies (#[trigger] inv[i]).at() == at by {
                if i > 0 {
                    assert(inv[i] == a[i - 1]);
                }
            }
        },
        CommandView::RemoveNode { at, id } => {
            let gs = c.graph.nodes;
            let k = node_pos(gs, id.0);
            let nv = gs[k];
            let own = pin_restores(at, id, nv.inputs, 0);
            let wires = severed_restores(at, id, severed_spec(gs.remove(k), id.0));
            lemma_pin_restores_at(at, id, nv.inputs, 0);
            assert forall|i: int| 0 <= i < inv.len() implies (#[trigger] inv[i]).at() == at by {
                if 1 <= i < 1 + own.len() {
                    assert(inv[i] == own[i - 1]);
                } else if 1 + own.len() <= i < 1 + own.len() + wires.len() {
                    assert(inv[i] == wires[i - 1 - own.len()]);
                }
            }
        },
        CommandView::SetNodeKind { at, id, kind } => {
            let gs = c.graph.nodes;
            let i0 = node_pos(gs, id.0);
            let rest = pin_restores(at, id, gs[i0].inputs, input_count_spec(kind));
            lemma_pin_restores_at(at, id, gs[i0].inputs, input_count_spec(kind));
            assert forall|i: int| 0 <= i < inv.len() implies (#[trigger] inv[i]).at() == at by {
                if i > 0 {
                    assert(inv[i] == rest[i - 1]);
                }
            }
        },
        CommandView::Connect { .. } => {},
        CommandView::Disconnect { .. } => {},
        _ => {},
    }
}

/// The undo law of editing: on a well-formed cut, the inverse of every
/// accepted command is accepted and gives back exactly the cut before it.
pub proof fn lemma_command_undo(c: CutView, cmd: CommandView)
    requires
        cut_view_wf(c),
        cut_step(c, cmd) is Ok,
    ensures
        cut_run(cut_step(c, cmd)->Ok_0.cut, cut_step(c, cmd)->Ok_0.inverse) == Some(c),
        all_at(cut_step(c, cmd)->Ok_0.inverse, cmd.at()),
{
    reveal(cut_step);
    lemma_inverse_at(c, cmd);
    match cmd {
        CommandView::AddDrawing { at, id, name, strokes, layers } => undo_add_drawing(c, at, id, DrawingView { name, strokes, layers }),
        CommandView::RemoveDrawing { at, id } => undo_remove_drawing(c, at, id),
        CommandView::InsertDrawing { at, id, index, name, strokes, layers } => undo_insert_drawing(
            c,
            at,
            id,
            index,
            DrawingView { name, strokes, layers },
        ),
        CommandView::AddStroke { at, id, stroke } => undo_add_stroke(c, at, id, stroke),
        CommandView::PopStroke { at, id } => undo_pop_stroke(c, at, id),
        CommandView::SetCell { at, column, frame, key } => undo_set_cell(c, at, column, frame, key),
        CommandView::AddNode { at, id, kind } => undo_add_node(c, at, id, kind),
        CommandView::RemoveNode { at, id } => undo_remove_node(c, at, id),
        CommandView::Connect { at, from, from_pin, to, to_pin } => undo_connect(c, at, from, from_pin, to, to_pin),
        CommandView::Disconnect { at, to, to_pin } => undo_disconnect(c, at, to, to_pin),
        CommandView::SetNodeKind { at, id, kind } => undo_set_node_kind(c, at, id, kind),
        CommandView::SetOutput { at, node } => undo_set_output(c, at, node),
        CommandView::PaintTiles { at, id, layer, diff } => undo_paint_tiles(c, at, id, layer, diff),
    }
}

// ---- On the project --------------------------------------------------------------------

/// Every cut of the project is well formed, abstractly.
pub open spec fn project_view_wf(p: ProjectView) -> bool {
    forall|si: int, ci: int| 0 <= si < p.scenes.len() && 0 <= ci < p.scenes[si].cuts.len()
        ==> cut_view_wf(#[trigger] p.scenes[si].cuts[ci])
}

/// A well-formed project's view is well formed.
pub(crate) proof fn lemma_project_wf_view(p: crate::model::Project)
    requires
        p.wf(),
    ensures
        project_view_wf(p.view()),
{
    let pv = p.view();
    assert forall|si: int, ci: int| 0 <= si < pv.scenes.len() && 0 <= ci < pv.scenes[si].cuts.len()
        implies cut_view_wf(#[trigger] pv.scenes[si].cuts[ci]) by {
        assert(p.scenes@[si].wf());
        assert(p.scenes@[si].cuts@[ci].wf());
        assert(pv.scenes[si].cuts[ci] == p.scenes@[si].cuts@[ci].view());
        lemma_cut_wf_view(p.scenes@[si].cuts@[ci]);
    }
}

proof fn lemma_scene_pos_same_ids(s1: Seq<SceneView>, s2: Seq<SceneView>, id: crate::ids::SceneId)
    requires
        s1.len() == s2.len(),
        forall|j: int| 0 <= j < s1.len() ==> (#[trigger] s1[j]).id == s2[j].id,
    ensures
        scene_pos(s1, id) == scene_pos(s2, id),
{
    lemma_scene_pos_props(s1, id);
    lemma_scene_pos_props(s2, id);
    if scene_pos(s1, id) is Some {
        let i1 = scene_pos(s1, id)->Some_0;
        assert(s2[i1].id == id);
        let i2 = scene_pos(s2, id)->Some_0;
        if i1 < i2 {
            assert(s2[i1].id != id);
        }
        if i2 < i1 {
            assert(s1[i2].id == s2[i2].id);
            assert(s1[i2].id != id);
        }
    } else if scene_pos(s2, id) is Some {
        let i2 = scene_pos(s2, id)->Some_0;
        assert(s1[i2].id == id);
    }
}

proof fn lemma_cut_pos_same_ids(s1: Seq<CutView>, s2: Seq<CutView>, id: crate::ids::CutId)
    requires
        s1.len() == s2.len(),
        forall|j: int| 0 <= j < s1.len() ==> (#[trigger] s1[j]).id == s2[j].id,
    ensures
        cut_pos(s1, id) == cut_pos(s2, id),
{
    lemma_cut_pos_props(s1, id);
    lemma_cut_pos_props(s2, id);
    if cut_pos(s1, id) is Some {
        let i1 = cut_pos(s1, id)->Some_0;
        assert(s2[i1].id == id);
        let i2 = cut_pos(s2, id)->Some_0;
        if i1 < i2 {
            assert(s2[i1].id != id);
        }
        if i2 < i1 {
            assert(s1[i2].id == s2[i2].id);
            assert(s1[i2].id != id);
        }
    } else if cut_pos(s2, id) is Some {
        let i2 = cut_pos(s2, id)->Some_0;
        assert(s1[i2].id == id);
    }
}

/// Running commands that all address one cut runs them on that cut.
proof fn lemma_replay_in_cut(p: ProjectView, at: CutRef, si: int, ci: int, cmds: Seq<CommandView>)
    requires
        0 <= si < p.scenes.len(),
        0 <= ci < p.scenes[si].cuts.len(),
        scene_pos(p.scenes, at.scene) == Some(si),
        cut_pos(p.scenes[si].cuts, at.cut) == Some(ci),
        all_at(cmds, at),
        cut_run(p.scenes[si].cuts[ci], cmds) is Some,
    ensures
        replay_spec(p, cmds).0 == with_cut(p, si, ci, cut_run(p.scenes[si].cuts[ci], cmds)->Some_0),
        replay_spec(p, cmds).1 is None,
        cut_run(p.scenes[si].cuts[ci], cmds)->Some_0.id == p.scenes[si].cuts[ci].id,
    decreases cmds.len(),
{
    let c = p.scenes[si].cuts[ci];
    if cmds.len() == 0 {
        assert(p.scenes[si].cuts.update(ci, c) =~= p.scenes[si].cuts);
        assert(p.scenes.update(si, SceneView { cuts: p.scenes[si].cuts, ..p.scenes[si] }) =~= p.scenes);
    } else {
        let pre = cmds.drop_last();
        let x = cmds.last();
        assert(all_at(pre, at)) by {
            assert forall|i: int| 0 <= i < pre.len() implies (#[trigger] pre[i]).at() == at by {
                assert(pre[i] == cmds[i]);
            }
        }
        assert(x.at() == at) by {
            assert(cmds[cmds.len() - 1] == x);
        }
        let d1 = cut_run(c, pre)->Some_0;
        lemma_replay_in_cut(p, at, si, ci, pre);
        assert(cut_step(d1, x) is Ok);
        lemma_step_in_cut(p, at, si, ci, d1, x);
    }
}

/// Editing a cut in place keeps every scene and cut where it was found.
pub(crate) proof fn lemma_with_cut_positions(p: ProjectView, at: CutRef, si: int, ci: int, d1: CutView)
    requires
        0 <= si < p.scenes.len(),
        0 <= ci < p.scenes[si].cuts.len(),
        d1.id == p.scenes[si].cuts[ci].id,
    ensures
        scene_pos(with_cut(p, si, ci, d1).scenes, at.scene) == scene_pos(p.scenes, at.scene),
        cut_pos(with_cut(p, si, ci, d1).scenes[si].cuts, at.cut) == cut_pos(p.scenes[si].cuts, at.cut),
        with_cut(p, si, ci, d1).scenes[si].cuts[ci] == d1,
{
    let q = with_cut(p, si, ci, d1);
    assert forall|j: int| 0 <= j < p.scenes.len() implies (#[trigger] p.scenes[j]).id == q.scenes[j].id by {}
    lemma_scene_pos_same_ids(p.scenes, q.scenes, at.scene);
    assert forall|j: int| 0 <= j < p.scenes[si].cuts.len() implies (#[trigger] p.scenes[si].cuts[j]).id == q.scenes[si].cuts[j].id by {}
    lemma_cut_pos_same_ids(p.scenes[si].cuts, q.scenes[si].cuts, at.cut);
}

proof fn lemma_with_cut_twice(p: ProjectView, si: int, ci: int, d1: CutView, d2: CutView)
    requires
        0 <= si < p.scenes.len(),
        0 <= ci < p.scenes[si].cuts.len(),
    ensures
        with_cut(with_cut(p, si, ci, d1), si, ci, d2) == with_cut(p, si, ci, d2),
{
    let q = with_cut(p, si, ci, d1);
    assert(q.scenes[si].cuts.update(ci, d2) =~= p.scenes[si].cuts.update(ci, d2));
    assert(q.scenes.update(si, SceneView { cuts: q.scenes[si].cuts.update(ci, d2), ..q.scenes[si] })
        =~= p.scenes.update(si, SceneView { cuts: p.scenes[si].cuts.update(ci, d2), ..p.scenes[si] }));
}

/// One command on a cut of a project that has been edited in place.
proof fn lemma_step_in_cut(p: ProjectView, at: CutRef, si: int, ci: int, d1: CutView, x: CommandView)
    requires
        0 <= si < p.scenes.len(),
        0 <= ci < p.scenes[si].cuts.len(),
        scene_pos(p.scenes, at.scene) == Some(si),
        cut_pos(p.scenes[si].cuts, at.cut) == Some(ci),
        d1.id == p.scenes[si].cuts[ci].id,
        x.at() == at,
        cut_step(d1, x) is Ok,
    ensures
        project_step(with_cut(p, si, ci, d1), x) is Ok,
        project_step(with_cut(p, si, ci, d1), x)->Ok_0.project == with_cut(p, si, ci, cut_step(d1, x)->Ok_0.cut),
        cut_step(d1, x)->Ok_0.cut.id == d1.id,
{
    let q = with_cut(p, si, ci, d1);
    lemma_cut_step_shape(d1, x);
    lemma_with_cut_positions(p, at, si, ci, d1);
    crate::step::lemma_project_step_at(q, x, si, ci);
    lemma_with_cut_twice(p, si, ci, d1, cut_step(d1, x)->Ok_0.cut);
}

/// The undo law on a project: the inverse of an accepted command, replayed,
/// is accepted and gives back exactly the project before it.
pub proof fn lemma_project_undo(p: ProjectView, cmd: CommandView)
    requires
        project_view_wf(p),
        project_step(p, cmd) is Ok,
    ensures
        replay_spec(project_step(p, cmd)->Ok_0.project, project_step(p, cmd)->Ok_0.inverse).0 == p,
        replay_spec(project_step(p, cmd)->Ok_0.project, project_step(p, cmd)->Ok_0.inverse).1 is None,
{
    reveal(project_step);
    let at = cmd.at();
    lemma_scene_pos_props(p.scenes, at.scene);
    let si = scene_pos(p.scenes, at.scene)->Some_0;
    lemma_cut_pos_props(p.scenes[si].cuts, at.cut);
    let ci = cut_pos(p.scenes[si].cuts, at.cut)->Some_0;
    let c = p.scenes[si].cuts[ci];
    let e = cut_step(c, cmd)->Ok_0;
    lemma_command_undo(c, cmd);
    lemma_cut_step_shape(c, cmd);
    let q = with_cut(p, si, ci, e.cut);
    assert forall|j: int| 0 <= j < p.scenes.len() implies (#[trigger] p.scenes[j]).id == q.scenes[j].id by {}
    lemma_scene_pos_same_ids(p.scenes, q.scenes, at.scene);
    assert forall|j: int| 0 <= j < p.scenes[si].cuts.len() implies (#[trigger] p.scenes[si].cuts[j]).id == q.scenes[si].cuts[j].id by {}
    lemma_cut_pos_same_ids(p.scenes[si].cuts, q.scenes[si].cuts, at.cut);
    assert(q.scenes[si].cuts[ci] == e.cut);
    lemma_replay_in_cut(q, at, si, ci, e.inverse);
    assert(with_cut(q, si, ci, c) =~= p) by {
        assert(q.scenes.update(si, SceneView { cuts: q.scenes[si].cuts.update(ci, c), ..q.scenes[si] }) =~= p.scenes) by {
            assert(q.scenes[si].cuts.update(ci, c) =~= p.scenes[si].cuts);
        }
    }
}

/// Replaying `a + b` is replaying `a`, then — if nothing was refused —
/// `b` from where it left off.
proof fn lemma_replay_concat(p: ProjectView, a: Seq<CommandView>, b: Seq<CommandView>)
    requires
        replay_spec(p, a).1 is None,
    ensures
        replay_spec(p, a + b).0 == replay_spec(replay_spec(p, a).0, b).0,
        replay_spec(p, a + b).1 == replay_spec(replay_spec(p, a).0, b).1,
        replay_spec(p, a + b).2 == replay_spec(p, a).2 + replay_spec(replay_spec(p, a).0, b).2,
    decreases b.len(),
{
    if b.len() == 0 {
        assert(a + b =~= a);
        assert(replay_spec(p, a).2 + Set::<NodeId>::empty() =~= replay_spec(p, a).2);
    } else {
        assert((a + b).drop_last() =~= a + b.drop_last());
        assert((a + b).last() == b.last());
        lemma_replay_concat(p, a, b.drop_last());
        let q = replay_spec(p, a).0;
        let (r, e, d) = replay_spec(q, b.drop_last());
        if e is None {
            match project_step(r, b.last()) {
                Ok(eff) => {
                    let x = closure_spec(eff.project, b.last().at(), eff.roots);
                    assert(replay_spec(p, a).2 + (d + x) =~= (replay_spec(p, a).2 + d) + x);
                },
                Err(_) => {},
            }
        }
    }
}

/// Prepending an accepted command's inverse to an undo list that restores
/// `p0` from before the command gives an undo list that restores `p0`
/// from after it.
pub(crate) proof fn lemma_undo_extends(q: ProjectView, cmd: CommandView, inv_old: Seq<CommandView>, p0: ProjectView)
    requires
        project_view_wf(q),
        project_step(q, cmd) is Ok,
        replay_spec(q, inv_old).0 == p0,
        replay_spec(q, inv_old).1 is None,
    ensures
        replay_spec(project_step(q, cmd)->Ok_0.project, project_step(q, cmd)->Ok_0.inverse + inv_old).0 == p0,
        replay_spec(project_step(q, cmd)->Ok_0.project, project_step(q, cmd)->Ok_0.inverse + inv_old).1 is None,
{
    let pe = project_step(q, cmd)->Ok_0;
    lemma_project_undo(q, cmd);
    lemma_replay_concat(pe.project, pe.inverse, inv_old);
}

/// When nothing is refused, skipping refusals changes nothing.
pub(crate) proof fn lemma_rollback_is_replay(p: ProjectView, cmds: Seq<CommandView>)
    requires
        replay_spec(p, cmds).1 is None,
    ensures
        rollback_spec(p, cmds) == replay_spec(p, cmds).0,
    decreases cmds.len(),
{
    if cmds.len() > 0 {
        lemma_rollback_is_replay(p, cmds.drop_last());
    }
}

/// Redo law: a batch that was accepted, replayed from the same state, is
/// accepted again and reaches the same state, invalidating the same nodes.
pub proof fn lemma_batch_replays(p: ProjectView, cmds: Seq<CommandView>)
    requires
        batch_spec(p, cmds) is Ok,
    ensures
        replay_spec(p, cmds) == (batch_spec(p, cmds)->Ok_0.0, None::<crate::error::EngineError>, batch_spec(p, cmds)->Ok_0.2),
    decreases cmds.len(),
{
    if cmds.len() > 0 {
        lemma_batch_replays(p, cmds.drop_last());
    }
}

// ---- Timing is separate from artwork ----------------------------------------

/// Retiming never touches artwork: an accepted sheet edit leaves the
/// cut's drawings, graph, images and parameter columns as they were, and
/// changes only the keys of the one column it names.
pub proof fn lemma_retiming_keeps_artwork(
    c: CutView, at: CutRef, column: ColumnId, frame: u32, key: Option<Exposure>,
)
    ensures
        cut_step(c, CommandView::SetCell { at, column, frame, key }) matches Ok(e) ==> {
            &&& e.cut.drawings == c.drawings
            &&& e.cut.graph == c.graph
            &&& e.cut.images == c.images
            &&& e.cut.params == c.params
            &&& e.cut.columns.len() == c.columns.len()
            &&& forall|i: int| 0 <= i < c.columns.len() && c.columns[i].id != column.0
                ==> e.cut.columns[i] == c.columns[i]
        },
{
    reveal(cut_step);
    if let Ok(e) = step_set_cell(c, at, column, frame, key) {
        lemma_column_pos_props(c.columns, column);
    }
}

} // verus!
