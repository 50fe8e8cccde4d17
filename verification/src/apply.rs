//! Applying commands to the document, each proved to do exactly what
//! `step` says.

use vstd::prelude::*;
use crate::command::{Command, CommandView, CutRef, commands_view, commands_wf};
use crate::error::{CommandFault, EngineError};
use crate::ids::{ColumnId, DrawingId, NodeId};
use crate::xsheet::ColumnView;
use crate::model::{
    CelLayer, Cut, Drawing, DrawingView, Stroke, columns_view, drawing_ids, drawing_pos, copy_layers, copy_strokes, drawing_map, has_drawing,
    layers_view, layers_wf, lemma_drawing_at, lemma_drawing_push, lemma_drawing_update, strokes_view,
};
use crate::graph::{Node, NodeKind, NodeView, OutPin, has_node, input_count_spec, pins_match, with_input};
use crate::model::{Project, ProjectView, SceneView, cut_pos, scene_pos};
use crate::step::{
    Effect, ProjectEffect, closure_spec, project_step, with_cut, apply_diff, ascending_u32, column_pos, cut_step, exposes, exposing_roots, fresh_node, inverse_diff,
    lemma_column_pos, lemma_insert_pos, lemma_node_pos, lemma_ref_frames, node_pos, pin_restores, ref_frames,
    restore_cells, severed_restores, splits_at, strip_column, strip_keys, tile_at,
};
use crate::command::{TileChange, copy_tile_opt, diff_view, tile_opt_view};
use crate::graph::{SeveredLink, sever_all, severed_spec};
use crate::ids::LayerId;
use crate::raster::TileMap;
use crate::xsheet::Column;
use crate::xsheet::Exposure;

verus! {

/// Result of applying one command.
#[derive(Debug)]
pub struct AppliedEffect {
    /// Commands that restore the pre-application state, in the order they
    /// must be applied.
    pub inverse: Vec<Command>,
    /// Nodes whose caches must be invalidated (the caller expands their
    /// downstream closure against the post-application graph).
    pub invalidation_roots: Vec<NodeId>,
}

/// `new` is what `cmd` makes of `old` (or `old` itself, if refused), with
/// `r` the effect or refusal that `step` gives.
pub open spec fn applied(old: Cut, new: Cut, cmd: CommandView, r: Result<AppliedEffect, EngineError>) -> bool {
    &&& new.wf()
    &&& match r {
        Ok(e) => cut_step(old.view(), cmd) == Ok::<Effect, EngineError>(Effect {
            cut: new.view(),
            inverse: commands_view(e.inverse@),
            roots: e.invalidation_roots@,
        }) && commands_wf(e.inverse@),
        Err(err) => cut_step(old.view(), cmd) == Err::<Effect, EngineError>(err) && new.view() == old.view(),
    }
}

pub fn one_command(c: Command) -> (v: Vec<Command>)
    ensures
        commands_view(v@) == seq![c.view()],
        c.wf() ==> commands_wf(v@),
{
    let mut v: Vec<Command> = Vec::new();
    v.push(c);
    assert(commands_view(v@) =~= seq![c.view()]);
    v
}

fn apply_add_drawing(
    cut: &mut Cut,
    at: CutRef,
    id: DrawingId,
    name: &String,
    strokes: &Vec<Stroke>,
    layers: &Vec<CelLayer>,
) -> (r: Result<AppliedEffect, EngineError>)
    requires
        old(cut).wf(),
        layers_wf(layers@),
    ensures
        applied(*old(cut), *final(cut), CommandView::AddDrawing {
            at,
            id,
            name: name@,
            strokes: strokes_view(strokes@),
            layers: layers_view(layers@),
        }, r),
{
    proof {
        reveal(cut_step);
    }
    if cut.drawing_index(id).is_some() {
        proof {
            let i = choose|i: int| 0 <= i < cut.drawings@.len() && #[trigger] cut.drawings@[i].id == id;
            lemma_drawing_at(cut.drawings@, i);
        }
        return Err(EngineError::InvalidCommand(CommandFault::DrawingExists(id)));
    }
    let d = Drawing { id, name: name.clone(), strokes: copy_strokes(strokes), layers: copy_layers(layers) };
    proof {
        lemma_drawing_push(cut.drawings@, d);
    }
    let ghost pre = cut.drawings@;
    cut.drawings.push(d);
    proof {
        assert(drawing_ids(cut.drawings@) =~= drawing_ids(pre).push(id));
        assert forall|i: int| 0 <= i < cut.drawings@.len() implies (#[trigger] cut.drawings@[i]).wf() by {
            if i < pre.len() {
                assert(pre[i].wf());
            }
        }
    }
    let inverse = one_command(Command::RemoveDrawing { at, id });
    Ok(AppliedEffect { inverse, invalidation_roots: Vec::new() })
}

fn apply_set_output(cut: &mut Cut, at: CutRef, node: Option<NodeId>) -> (r: Result<AppliedEffect, EngineError>)
    requires
        old(cut).wf(),
    ensures
        applied(*old(cut), *final(cut), CommandView::SetOutput { at, node }, r),
{
    proof {
        reveal(cut_step);
    }
    match cut.graph.set_output(node) {
        Ok(prev) => {
            let inverse = one_command(Command::SetOutput { at, node: prev });
            Ok(AppliedEffect { inverse, invalidation_roots: Vec::new() })
        },
        Err(e) => Err(e),
    }
}

/// Nodes to invalidate when a drawing's artwork changes: the DrawingSource
/// nodes of every column that currently exposes it.
pub fn stroke_invalidation_roots(cut: &Cut, id: DrawingId) -> (r: Vec<NodeId>)
    requires
        cut.xsheet.wf(),
    ensures
        r@ == exposing_roots(columns_view(cut.xsheet.columns@), cut.graph.gs(), id),
{
    let ghost cols = columns_view(cut.xsheet.columns@);
    let mut roots: Vec<NodeId> = Vec::new();
    let mut i: usize = 0;
    while i < cut.xsheet.columns.len()
        invariant
            cols == columns_view(cut.xsheet.columns@),
            cut.xsheet.wf(),
            i <= cols.len(),
            roots@ == exposing_roots(cols.take(i as int), cut.graph.gs(), id),
        decreases cols.len() - i,
    {
        proof {
            assert(cols.take(i as int + 1).drop_last() =~= cols.take(i as int));
            assert(cut.xsheet.columns@[i as int].wf());
        }
        let col = &cut.xsheet.columns[i];
        let frames = col.keys_referencing(id);
        proof {
            let keys = cols[i as int].keys;
            assert(keys == col.key_map());
            if frames@.len() > 0 {
                assert(frames@.contains(frames@[0]));
                assert(keys.contains_key(frames@[0]));
            }
            if exposes(keys, id) {
                let f = choose|f: u32| #[trigger] keys.contains_key(f) && keys[f] == Exposure::Drawing(id);
                assert(frames@.contains(f));
            }
        }
        if frames.len() > 0 {
            let mut src = cut.graph.sources_of_column(col.id);
            roots.append(&mut src);
        }
        i = i + 1;
    }
    proof {
        assert(cols.take(i as int) =~= cols);
    }
    roots
}

fn apply_add_stroke(cut: &mut Cut, at: CutRef, id: DrawingId, stroke: &Stroke) -> (r: Result<AppliedEffect, EngineError>)
    requires
        old(cut).wf(),
    ensures
        applied(*old(cut), *final(cut), CommandView::AddStroke { at, id, stroke: stroke.view() }, r),
{
    proof {
        reveal(cut_step);
    }
    let roots = stroke_invalidation_roots(cut, id);
    let idx = match cut.drawing_index(id) {
        Some(i) => i,
        None => { return Err(EngineError::UnknownDrawing(id)); },
    };
    proof {
        lemma_drawing_at(cut.drawings@, idx as int);
    }
    let ghost pre = cut.drawings@;
    let s = stroke.duplicate();
    cut.drawings[idx].strokes.push(s);
    proof {
        let nd = cut.drawings@[idx as int];
        assert(cut.drawings@ =~= pre.update(idx as int, nd));
        lemma_drawing_update(pre, idx as int, nd);
        assert(strokes_view(nd.strokes@) =~= strokes_view(pre[idx as int].strokes@).push(stroke.view()));
        assert(drawing_ids(cut.drawings@) =~= drawing_ids(pre));
        assert forall|i: int| 0 <= i < cut.drawings@.len() implies (#[trigger] cut.drawings@[i]).wf() by {
            assert(pre[i].wf());
        }
    }
    let inverse = one_command(Command::PopStroke { at, id });
    Ok(AppliedEffect { inverse, invalidation_roots: roots })
}

fn apply_pop_stroke(cut: &mut Cut, at: CutRef, id: DrawingId) -> (r: Result<AppliedEffect, EngineError>)
    requires
        old(cut).wf(),
    ensures
        applied(*old(cut), *final(cut), CommandView::PopStroke { at, id }, r),
{
    proof {
        reveal(cut_step);
    }
    let roots = stroke_invalidation_roots(cut, id);
    let idx = match cut.drawing_index(id) {
        Some(i) => i,
        None => { return Err(EngineError::UnknownDrawing(id)); },
    };
    proof {
        lemma_drawing_at(cut.drawings@, idx as int);
    }
    if cut.drawings[idx].strokes.len() == 0 {
        return Err(EngineError::InvalidCommand(CommandFault::NoStrokesToPop(id)));
    }
    let ghost pre = cut.drawings@;
    let stroke = match cut.drawings[idx].strokes.pop() {
        Some(s) => s,
        None => { return Err(EngineError::InvalidCommand(CommandFault::NoStrokesToPop(id))); },
    };
    proof {
        let nd = cut.drawings@[idx as int];
        assert(cut.drawings@ =~= pre.update(idx as int, nd));
        lemma_drawing_update(pre, idx as int, nd);
        assert(strokes_view(nd.strokes@) =~= strokes_view(pre[idx as int].strokes@).drop_last());
        assert(stroke.view() == strokes_view(pre[idx as int].strokes@).last());
        assert(drawing_ids(cut.drawings@) =~= drawing_ids(pre));
        assert forall|i: int| 0 <= i < cut.drawings@.len() implies (#[trigger] cut.drawings@[i]).wf() by {
            assert(pre[i].wf());
        }
    }
    let inverse = one_command(Command::AddStroke { at, id, stroke });
    Ok(AppliedEffect { inverse, invalidation_roots: roots })
}

fn apply_set_cell(cut: &mut Cut, at: CutRef, column: ColumnId, frame: u32, key: Option<Exposure>) -> (r: Result<AppliedEffect, EngineError>)
    requires
        old(cut).wf(),
    ensures
        applied(*old(cut), *final(cut), CommandView::SetCell { at, column, frame, key }, r),
{
    proof {
        reveal(cut_step);
    }
    // Validate the referenced drawing before touching the column.
    match key {
        Some(Exposure::Drawing(d)) => {
            if cut.drawing_index(d).is_none() {
                return Err(EngineError::UnknownDrawing(d));
            }
            proof {
                let i = choose|i: int| 0 <= i < cut.drawings@.len() && #[trigger] cut.drawings@[i].id == d;
                lemma_drawing_at(cut.drawings@, i);
            }
        },
        _ => {},
    }
    let ghost cols = columns_view(cut.xsheet.columns@);
    let ci = match cut.xsheet.column_index(column) {
        Some(i) => i,
        None => {
            proof {
                if exists|i: int| 0 <= i < cols.len() && #[trigger] cols[i].id == column.0 {
                    let i = choose|i: int| 0 <= i < cols.len() && #[trigger] cols[i].id == column.0;
                    assert(cut.xsheet.columns@[i].id != column);
                }
            }
            return Err(EngineError::UnknownColumn(column));
        },
    };
    proof {
        assert forall|j: int| 0 <= j < ci implies #[trigger] cols[j].id != column.0 by {
            assert(cut.xsheet.columns@[j].id != column);
        }
        lemma_column_pos(cols, column, ci as int);
        assert(cut.xsheet.columns@[ci as int].wf());
    }
    let ghost pre = cut.xsheet.columns@;
    let prev = match key {
        Some(e) => cut.xsheet.columns[ci].set_key(frame, e),
        None => cut.xsheet.columns[ci].clear_key(frame),
    };
    proof {
        let nc = cut.xsheet.columns@[ci as int];
        assert(cut.xsheet.columns@ =~= pre.update(ci as int, nc));
        assert(columns_view(cut.xsheet.columns@) =~= cols.update(ci as int, nc.view()));
        assert forall|i: int| 0 <= i < cut.xsheet.columns@.len() implies (#[trigger] cut.xsheet.columns@[i]).wf() by {
            if i != ci {
                assert(pre[i].wf());
            }
        }
        assert(columns_view(cut.xsheet.columns@)[ci as int].id == cols[ci as int].id);
        assert forall|a: int, b: int| 0 <= a < b < columns_view(cut.xsheet.columns@).len() implies
            #[trigger] columns_view(cut.xsheet.columns@)[a].id != #[trigger] columns_view(cut.xsheet.columns@)[b].id by {
            assert(cols[a].id != cols[b].id);
        }
    }
    let roots = cut.graph.sources_of_column(column);
    let inverse = one_command(Command::SetCell { at, column, frame, key: prev });
    Ok(AppliedEffect { inverse, invalidation_roots: roots })
}

fn apply_connect(cut: &mut Cut, at: CutRef, from: NodeId, from_pin: u16, to: NodeId, to_pin: u16) -> (r: Result<AppliedEffect, EngineError>)
    requires
        old(cut).wf(),
    ensures
        applied(*old(cut), *final(cut), CommandView::Connect { at, from, from_pin, to, to_pin }, r),
{
    proof {
        reveal(cut_step);
    }
    let ghost gs = cut.graph.gs();
    let res = cut.graph.connect(from, from_pin, to, to_pin);
    proof {
        if has_node(gs, from.0) && has_node(gs, to.0) {
            let i = choose|i: int| 0 <= i < gs.len() && #[trigger] gs[i].id == to.0 && (
                if to_pin >= gs[i].inputs.len() {
                    res == Err::<Option<OutPin>, EngineError>(EngineError::PinOutOfRange { node: to, pin: to_pin })
                } else if crate::graph::upstream(gs, from.0, to.0) {
                    res == Err::<Option<OutPin>, EngineError>(EngineError::WouldCycle { from, to })
                } else {
                    res == Ok::<Option<OutPin>, EngineError>(gs[i].inputs[to_pin as int])
                        && cut.graph.gs() == gs.update(i, with_input(gs[i], to_pin as int, Some((from, from_pin))))
                });
            lemma_node_pos(gs, to.0, i);
            assert forall|k: int| 0 <= k < cut.graph.gs().len() implies (#[trigger] cut.graph.gs()[k]).inputs.len()
                == input_count_spec(cut.graph.gs()[k].kind) by {
                assert(gs[k].inputs.len() == input_count_spec(gs[k].kind));
            }
        }
    }
    match res {
        Ok(prev) => {
            let inverse = match prev {
                Some(p) => one_command(Command::Connect { at, from: p.0, from_pin: p.1, to, to_pin }),
                None => one_command(Command::Disconnect { at, to, to_pin }),
            };
            let mut roots: Vec<NodeId> = Vec::new();
            roots.push(to);
            proof {
                assert(roots@ =~= seq![to]);
            }
            Ok(AppliedEffect { inverse, invalidation_roots: roots })
        },
        Err(e) => Err(e),
    }
}

fn apply_disconnect(cut: &mut Cut, at: CutRef, to: NodeId, to_pin: u16) -> (r: Result<AppliedEffect, EngineError>)
    requires
        old(cut).wf(),
    ensures
        applied(*old(cut), *final(cut), CommandView::Disconnect { at, to, to_pin }, r),
{
    proof {
        reveal(cut_step);
    }
    let ghost gs = cut.graph.gs();
    let res = cut.graph.disconnect(to, to_pin);
    proof {
        if has_node(gs, to.0) {
            let i = choose|i: int| 0 <= i < gs.len() && #[trigger] gs[i].id == to.0 && (
                if to_pin >= gs[i].inputs.len() {
                    res == Err::<Option<OutPin>, EngineError>(EngineError::PinOutOfRange { node: to, pin: to_pin })
                } else {
                    res == Ok::<Option<OutPin>, EngineError>(gs[i].inputs[to_pin as int])
                        && cut.graph.gs() == gs.update(i, with_input(gs[i], to_pin as int, None))
                });
            lemma_node_pos(gs, to.0, i);
            assert forall|k: int| 0 <= k < cut.graph.gs().len() implies (#[trigger] cut.graph.gs()[k]).inputs.len()
                == input_count_spec(cut.graph.gs()[k].kind) by {
                assert(gs[k].inputs.len() == input_count_spec(gs[k].kind));
            }
        }
    }
    match res {
        Ok(prev) => {
            let inverse = match prev {
                Some(p) => one_command(Command::Connect { at, from: p.0, from_pin: p.1, to, to_pin }),
                None => {
                    let v: Vec<Command> = Vec::new();
                    assert(commands_view(v@) =~= Seq::<CommandView>::empty());
                    v
                },
            };
            let mut roots: Vec<NodeId> = Vec::new();
            roots.push(to);
            proof {
                assert(roots@ =~= seq![to]);
            }
            Ok(AppliedEffect { inverse, invalidation_roots: roots })
        },
        Err(e) => Err(e),
    }
}

fn apply_add_node(cut: &mut Cut, at: CutRef, id: NodeId, kind: NodeKind) -> (r: Result<AppliedEffect, EngineError>)
    requires
        old(cut).wf(),
    ensures
        applied(*old(cut), *final(cut), CommandView::AddNode { at, id, kind }, r),
{
    proof {
        reveal(cut_step);
    }
    if cut.graph.contains(id) {
        return Err(EngineError::InvalidCommand(CommandFault::NodeExists(id)));
    }
    let ghost gs = cut.graph.gs();
    let node = Node::new(id, kind);
    proof {
        assert(node.view() == fresh_node(id, kind));
    }
    cut.graph.add_node(node);
    proof {
        let pos = choose|pos: int|
            0 <= pos <= gs.len() && cut.graph.gs() == gs.insert(pos, node.view())
                && (forall|j: int| 0 <= j < pos ==> #[trigger] gs[j].id < id.0)
                && (forall|j: int| pos <= j < gs.len() ==> #[trigger] gs[j].id > id.0);
        assert(splits_at(gs, id.0, pos));
        lemma_insert_pos(gs, id.0, pos);
        assert forall|k: int| 0 <= k < cut.graph.gs().len() implies (#[trigger] cut.graph.gs()[k]).inputs.len()
            == input_count_spec(cut.graph.gs()[k].kind) by {
            if k < pos {
                assert(cut.graph.gs()[k] == gs[k]);
            } else if k > pos {
                assert(cut.graph.gs()[k] == gs[k - 1]);
            }
        }
    }
    let inverse = one_command(Command::RemoveNode { at, id });
    let mut roots: Vec<NodeId> = Vec::new();
    roots.push(id);
    proof {
        assert(roots@ =~= seq![id]);
    }
    Ok(AppliedEffect { inverse, invalidation_roots: roots })
}

/// Connects that restore the wired pins `lo..` of node `id`, pin order.
pub fn pin_restore_commands(at: CutRef, id: NodeId, inputs: &Vec<Option<OutPin>>, lo: usize) -> (r: Vec<Command>)
    requires
        inputs@.len() <= 65536,
    ensures
        commands_view(r@) == pin_restores(at, id, inputs@, lo as nat),
        commands_wf(r@),
{
    let mut r: Vec<Command> = Vec::new();
    if lo >= inputs.len() {
        assert(commands_view(r@) =~= Seq::<CommandView>::empty());
        return r;
    }
    let mut p: usize = lo;
    assert(commands_view(r@) =~= pin_restores(at, id, inputs@.take(p as int), lo as nat));
    while p < inputs.len()
        invariant
            lo <= p <= inputs@.len() <= 65536,
            commands_view(r@) == pin_restores(at, id, inputs@.take(p as int), lo as nat),
            commands_wf(r@),
        decreases inputs@.len() - p,
    {
        let ghost pre = r@;
        proof {
            let t = inputs@.take(p as int + 1);
            assert(t.drop_last() =~= inputs@.take(p as int));
            assert(t.last() == inputs@[p as int]);
            assert(t.len() == p + 1);
        }
        match inputs[p] {
            Some(src) => {
                r.push(Command::Connect { at, from: src.0, from_pin: src.1, to: id, to_pin: p as u16 });
                proof {
                    assert(commands_view(r@) =~= commands_view(pre).push(r@.last().view()));
                }
            },
            None => {},
        }
        p = p + 1;
    }
    assert(inputs@.take(p as int) =~= inputs@);
    r
}

fn apply_set_node_kind(cut: &mut Cut, at: CutRef, id: NodeId, kind: NodeKind) -> (r: Result<AppliedEffect, EngineError>)
    requires
        old(cut).wf(),
    ensures
        applied(*old(cut), *final(cut), CommandView::SetNodeKind { at, id, kind }, r),
{
    proof {
        reveal(cut_step);
    }
    let ghost gs = cut.graph.gs();
    match cut.graph.set_kind(id, kind) {
        Ok(prev) => {
            let ghost i = choose|i: int| 0 <= i < gs.len() && #[trigger] gs[i].id == id.0
                && prev.0 == gs[i].kind && prev.1@ == gs[i].inputs
                && cut.graph.gs() == gs.update(i, NodeView {
                    id: id.0,
                    kind,
                    inputs: crate::graph::resized(gs[i].inputs, input_count_spec(kind)),
                });
            proof {
                lemma_node_pos(gs, id.0, i);
                assert(gs[i].inputs.len() == input_count_spec(gs[i].kind));
                assert(input_count_spec(gs[i].kind) <= 2);
                assert forall|k: int| 0 <= k < cut.graph.gs().len() implies (#[trigger] cut.graph.gs()[k]).inputs.len()
                    == input_count_spec(cut.graph.gs()[k].kind) by {
                    assert(gs[k].inputs.len() == input_count_spec(gs[k].kind));
                }
            }
            let count = kind.input_count();
            let first = Command::SetNodeKind { at, id, kind: prev.0 };
            let mut inverse = one_command(first);
            let mut rest = pin_restore_commands(at, id, &prev.1, count);
            let ghost pre = inverse@;
            let ghost rest_v = rest@;
            inverse.append(&mut rest);
            proof {
                assert(commands_view(inverse@) =~= commands_view(pre) + commands_view(rest_v));
                assert forall|k: int| 0 <= k < inverse@.len() implies (#[trigger] inverse@[k]).wf() by {
                    if k >= pre.len() {
                        assert(rest_v[k - pre.len()].wf());
                    }
                }
            }
            let mut roots: Vec<NodeId> = Vec::new();
            roots.push(id);
            proof {
                assert(roots@ =~= seq![id]);
            }
            Ok(AppliedEffect { inverse, invalidation_roots: roots })
        },
        Err(e) => Err(e),
    }
}

/// Clear every key of the column exposing the drawing; returns the cleared
/// frames, ascending.
fn clear_drawing_keys(col: &mut Column, id: DrawingId) -> (frames: Vec<u32>)
    requires
        old(col).wf(),
    ensures
        final(col).wf(),
        final(col).view() == strip_column(old(col).view(), id),
        frames@ == ref_frames(old(col).key_map(), id),
        ascending_u32(frames@),
        forall|f: u32| #[trigger] frames@.contains(f) <==> (old(col).key_map().contains_key(f)
            && old(col).key_map()[f] == Exposure::Drawing(id)),
{
    let frames = col.keys_referencing(id);
    let ghost k0 = col.key_map();
    proof {
        assert(ascending_u32(frames@));
        lemma_ref_frames(k0, id, frames@);
    }
    let mut k: usize = 0;
    while k < frames.len()
        invariant
            col.wf(),
            col.id == old(col).id,
            col.name == old(col).name,
            k <= frames@.len(),
            col.key_map() == Map::new(|f: u32| k0.contains_key(f) && !frames@.take(k as int).contains(f), |f: u32| k0[f]),
        decreases frames@.len() - k,
    {
        let ghost before = col.key_map();
        col.clear_key(frames[k]);
        k = k + 1;
        proof {
            let t = frames@.take(k as int);
            assert forall|f: u32| #[trigger] t.contains(f) <==> (frames@.take(k - 1).contains(f) || f == frames@[k - 1]) by {
                if t.contains(f) {
                    let i = choose|i: int| 0 <= i < t.len() && t[i] == f;
                    if i < k - 1 {
                        assert(frames@.take(k - 1)[i] == f);
                    }
                }
                let tk = frames@.take(k - 1);
                if tk.contains(f) {
                    let i = choose|i: int| 0 <= i < tk.len() && #[trigger] tk[i] == f;
                    assert(t[i] == f);
                }
                if f == frames@[k - 1] {
                    assert(t[k - 1] == f);
                }
            }
            assert(col.key_map() =~= Map::new(|f: u32| k0.contains_key(f) && !frames@.take(k as int).contains(f), |f: u32| k0[f]));
        }
    }
    proof {
        assert(frames@.take(k as int) =~= frames@);
        assert(col.key_map() =~= strip_keys(k0, id));
    }
    frames
}

fn apply_insert_drawing(
    cut: &mut Cut,
    at: CutRef,
    id: DrawingId,
    index: usize,
    name: &String,
    strokes: &Vec<Stroke>,
    layers: &Vec<CelLayer>,
) -> (r: Result<AppliedEffect, EngineError>)
    requires
        old(cut).wf(),
        layers_wf(layers@),
    ensures
        applied(*old(cut), *final(cut), CommandView::InsertDrawing {
            at,
            id,
            index,
            name: name@,
            strokes: strokes_view(strokes@),
            layers: layers_view(layers@),
        }, r),
{
    proof {
        reveal(cut_step);
    }
    if cut.drawing_index(id).is_some() {
        proof {
            let i = choose|i: int| 0 <= i < cut.drawings@.len() && #[trigger] cut.drawings@[i].id == id;
            lemma_drawing_at(cut.drawings@, i);
        }
        return Err(EngineError::InvalidCommand(CommandFault::DrawingExists(id)));
    }
    let k = if index <= cut.drawings.len() { index } else { cut.drawings.len() };
    let d = Drawing { id, name: name.clone(), strokes: copy_strokes(strokes), layers: copy_layers(layers) };
    proof {
        crate::model::lemma_drawing_insert(cut.drawings@, k as int, d);
    }
    let ghost pre = cut.drawings@;
    cut.drawings.insert(k, d);
    proof {
        assert(drawing_ids(cut.drawings@) =~= drawing_ids(pre).insert(k as int, id));
        assert forall|i: int| 0 <= i < cut.drawings@.len() implies (#[trigger] cut.drawings@[i]).wf() by {
            if i < k {
                assert(pre[i].wf());
            } else if i > k {
                assert(pre[i - 1].wf());
            }
        }
    }
    let inverse = one_command(Command::RemoveDrawing { at, id });
    Ok(AppliedEffect { inverse, invalidation_roots: Vec::new() })
}

fn apply_remove_drawing(cut: &mut Cut, at: CutRef, id: DrawingId) -> (r: Result<AppliedEffect, EngineError>)
    requires
        old(cut).wf(),
    ensures
        applied(*old(cut), *final(cut), CommandView::RemoveDrawing { at, id }, r),
{
    proof {
        reveal(cut_step);
    }
    let idx = match cut.drawing_index(id) {
        Some(i) => i,
        None => { return Err(EngineError::UnknownDrawing(id)); },
    };
    proof {
        lemma_drawing_at(cut.drawings@, idx as int);
        crate::model::lemma_drawing_remove(cut.drawings@, idx as int);
        let ids = drawing_ids(cut.drawings@);
        assert forall|j: int| 0 <= j < idx implies #[trigger] ids[j] != id by {
            assert(cut.drawings@[j].id != id);
        }
        let p = drawing_pos(ids, id);
        assert(ids[idx as int] == id);
        assert(ids[p] == id);
        if p < idx {
            assert(ids[p] != id);
        }
        if p > idx {
            assert(ids[idx as int] != id);
        }
    }
    let ghost pre = cut.drawings@;
    let ghost d0 = cut.drawings@[idx as int];
    let drawing = cut.drawings.remove(idx);
    proof {
        assert(drawing_ids(cut.drawings@) =~= drawing_ids(pre).remove(idx as int));
        assert forall|i: int| 0 <= i < cut.drawings@.len() implies (#[trigger] cut.drawings@[i]).wf() by {
            if i < idx {
                assert(pre[i].wf());
            } else {
                assert(pre[i + 1].wf());
            }
        }
        assert(pre[idx as int].wf());
    }
    let ghost cols0 = columns_view(cut.xsheet.columns@);
    let ghost xs0 = cut.xsheet.columns@;
    let mut cells: Vec<Command> = Vec::new();
    let mut roots: Vec<NodeId> = Vec::new();
    let mut ci: usize = 0;
    while ci < cut.xsheet.columns.len()
        invariant
            cols0.len() == cut.xsheet.columns@.len(),
            ci <= cols0.len(),
            idx < old(cut).drawings@.len(),
            cut.graph == old(cut).graph,
            cut.id == old(cut).id,
            cut.name == old(cut).name,
            cut.frame_count == old(cut).frame_count,
            cut.images == old(cut).images,
            cut.drawings@ == old(cut).drawings@.remove(idx as int),
            cols0 == columns_view(old(cut).xsheet.columns@),
            cut.xsheet.params == old(cut).xsheet.params,
            forall|j: int| 0 <= j < cols0.len() ==> (#[trigger] cut.xsheet.columns@[j]).wf(),
            forall|j: int| 0 <= j < ci ==> (#[trigger] cut.xsheet.columns@[j]).view() == strip_column(cols0[j], id),
            forall|j: int| ci <= j < cols0.len() ==> (#[trigger] cut.xsheet.columns@[j]).view() == cols0[j],
            commands_view(cells@) == restore_cells(at, cols0.take(ci as int), id),
            commands_wf(cells@),
            roots@ == exposing_roots(cols0.take(ci as int), cut.graph.gs(), id),
        decreases cols0.len() - ci,
    {
        proof {
            assert(cols0.take(ci as int + 1).drop_last() =~= cols0.take(ci as int));
            assert(cols0.take(ci as int + 1).last() == cols0[ci as int]);
        }
        let col_id = cut.xsheet.columns[ci].id;
        let ghost xs_pre = cut.xsheet.columns@;
        let frames = clear_drawing_keys(&mut cut.xsheet.columns[ci], id);
        proof {
            assert(cut.xsheet.columns@ =~= xs_pre.update(ci as int, cut.xsheet.columns@[ci as int]));
            let keys = cols0[ci as int].keys;
            assert(frames@.len() > 0 ==> frames@.contains(frames@[0]));
            if frames@.len() > 0 {
                assert(frames@.contains(frames@[0]));
                assert(keys.contains_key(frames@[0]));
            }
            if exposes(keys, id) {
                let f = choose|f: u32| #[trigger] keys.contains_key(f) && keys[f] == Exposure::Drawing(id);
                assert(ascending_u32(ref_frames(keys, id)));
                assert(frames@.contains(f));
            }
        }
        if frames.len() > 0 {
            let mut src = cut.graph.sources_of_column(col_id);
            roots.append(&mut src);
        }
        let ghost cells_pre = cells@;
        let mut k: usize = 0;
        while k < frames.len()
            invariant
                k <= frames@.len(),
                commands_view(cells@) == commands_view(cells_pre) + frames@.take(k as int).map_values(
                    |f: u32| CommandView::SetCell { at, column: ColumnId(cols0[ci as int].id), frame: f, key: Some(Exposure::Drawing(id)) },
                ),
                commands_wf(cells@),
                col_id.0 == cols0[ci as int].id,
            decreases frames@.len() - k,
        {
            let ghost cp = cells@;
            cells.push(Command::SetCell { at, column: col_id, frame: frames[k], key: Some(Exposure::Drawing(id)) });
            k = k + 1;
            proof {
                assert(commands_view(cells@) =~= commands_view(cp).push(cells@.last().view()));
                assert(frames@.take(k as int) =~= frames@.take(k - 1).push(frames@[k - 1]));
                assert(commands_view(cells@) =~= commands_view(cells_pre) + frames@.take(k as int).map_values(
                    |f: u32| CommandView::SetCell { at, column: ColumnId(cols0[ci as int].id), frame: f, key: Some(Exposure::Drawing(id)) },
                ));
            }
        }
        proof {
            assert(frames@.take(k as int) =~= frames@);
        }
        ci = ci + 1;
    }
    proof {
        assert(cols0.take(ci as int) =~= cols0);
        assert(columns_view(cut.xsheet.columns@) =~= cols0.map_values(|col: ColumnView| strip_column(col, id)));
        assert forall|a: int, b: int| 0 <= a < b < columns_view(cut.xsheet.columns@).len() implies
            #[trigger] columns_view(cut.xsheet.columns@)[a].id != #[trigger] columns_view(cut.xsheet.columns@)[b].id by {
            assert(cols0[a].id != cols0[b].id);
        }
    }
    let first = Command::InsertDrawing {
        at,
        id,
        index: idx,
        name: drawing.name,
        strokes: drawing.strokes,
        layers: drawing.layers,
    };
    let mut inverse = one_command(first);
    let ghost inv_pre = inverse@;
    let ghost cells_v = cells@;
    inverse.append(&mut cells);
    proof {
        assert(commands_view(inverse@) =~= commands_view(inv_pre) + commands_view(cells_v));
        assert forall|k: int| 0 <= k < inverse@.len() implies (#[trigger] inverse@[k]).wf() by {
            if k >= inv_pre.len() {
                assert(cells_v[k - inv_pre.len()].wf());
            }
        }
    }
    Ok(AppliedEffect { inverse, invalidation_roots: roots })
}

/// Connects that restore wires cut by removing node `id`.
fn severed_commands(at: CutRef, id: NodeId, links: &Vec<SeveredLink>) -> (r: Vec<Command>)
    ensures
        commands_view(r@) == severed_restores(at, id, links@),
        commands_wf(r@),
{
    let mut r: Vec<Command> = Vec::new();
    let mut i: usize = 0;
    while i < links.len()
        invariant
            i <= links@.len(),
            commands_view(r@) == severed_restores(at, id, links@.take(i as int)),
            commands_wf(r@),
        decreases links@.len() - i,
    {
        let l = links[i];
        let ghost pre = r@;
        r.push(Command::Connect { at, from: id, from_pin: l.2, to: l.0, to_pin: l.1 });
        i = i + 1;
        proof {
            assert(commands_view(r@) =~= commands_view(pre).push(r@.last().view()));
            assert(commands_view(r@) =~= severed_restores(at, id, links@.take(i as int)));
        }
    }
    assert(links@.take(i as int) =~= links@);
    r
}

fn apply_remove_node(cut: &mut Cut, at: CutRef, id: NodeId) -> (r: Result<AppliedEffect, EngineError>)
    requires
        old(cut).wf(),
    ensures
        applied(*old(cut), *final(cut), CommandView::RemoveNode { at, id }, r),
{
    proof {
        reveal(cut_step);
    }
    let was_output = match cut.graph.output {
        Some(o) => o == id,
        None => false,
    };
    let ghost gs = cut.graph.gs();
    match cut.graph.remove_node(id) {
        Ok(removed) => {
            let (node, severed) = removed;
            let ghost k = choose|k: int| 0 <= k < gs.len() && #[trigger] gs[k].id == id.0
                && node.view() == gs[k]
                && cut.graph.gs() == sever_all(gs.remove(k), id.0)
                && severed@ == severed_spec(gs.remove(k), id.0);
            proof {
                lemma_node_pos(gs, id.0, k);
                assert(gs[k].inputs.len() == input_count_spec(gs[k].kind));
                assert(input_count_spec(gs[k].kind) <= 2);
                assert forall|j: int| 0 <= j < cut.graph.gs().len() implies (#[trigger] cut.graph.gs()[j]).inputs.len()
                    == input_count_spec(cut.graph.gs()[j].kind) by {
                    let j2 = if j < k { j } else { j + 1 };
                    assert(gs[j2].inputs.len() == input_count_spec(gs[j2].kind));
                    assert(gs.remove(k)[j] == gs[j2]);
                }
            }
            let mut inverse = one_command(Command::AddNode { at, id, kind: node.kind });
            let mut own = pin_restore_commands(at, id, &node.inputs, 0);
            let mut cut_wires = severed_commands(at, id, &severed);
            let ghost v0 = inverse@;
            let ghost v1 = own@;
            let ghost v2 = cut_wires@;
            inverse.append(&mut own);
            inverse.append(&mut cut_wires);
            let ghost v3 = inverse@;
            if was_output {
                inverse.push(Command::SetOutput { at, node: Some(id) });
            }
            proof {
                let tail: Seq<CommandView> = if was_output {
                    seq![CommandView::SetOutput { at, node: Some(id) }]
                } else {
                    Seq::empty()
                };
                assert(v3 == v0 + v1 + v2);
                assert(commands_view(inverse@) =~= commands_view(v0) + commands_view(v1) + commands_view(v2) + tail);
                assert forall|t: int| 0 <= t < inverse@.len() implies (#[trigger] inverse@[t]).wf() by {
                    if t >= v0.len() && t < v0.len() + v1.len() {
                        assert(v1[t - v0.len()].wf());
                    } else if t >= v0.len() + v1.len() && t < v3.len() {
                        assert(v2[t - v0.len() - v1.len()].wf());
                    }
                }
            }
            let mut roots: Vec<NodeId> = Vec::new();
            let mut i: usize = 0;
            while i < severed.len()
                invariant
                    i <= severed@.len(),
                    roots@ == severed@.take(i as int).map_values(|l: SeveredLink| l.0),
                decreases severed@.len() - i,
            {
                roots.push(severed[i].0);
                i = i + 1;
                proof {
                    assert(roots@ =~= severed@.take(i as int).map_values(|l: SeveredLink| l.0));
                }
            }
            proof {
                assert(severed@.take(i as int) =~= severed@);
            }
            roots.push(id);
            Ok(AppliedEffect { inverse, invalidation_roots: roots })
        },
        Err(e) => Err(e),
    }
}

/// Apply a tile diff in order; returns the diff that undoes it.
fn apply_tile_diff(tiles: &mut TileMap, diff: &Vec<TileChange>) -> (inv: Vec<TileChange>)
    requires
        old(tiles).wf(),
    ensures
        final(tiles).wf(),
        final(tiles)@ == apply_diff(old(tiles)@, diff_view(diff@)),
        diff_view(inv@) == inverse_diff(old(tiles)@, diff_view(diff@)),
{
    let ghost m0 = tiles@;
    let ghost dv = diff_view(diff@);
    let mut inv: Vec<TileChange> = Vec::new();
    let mut i: usize = 0;
    proof {
        assert(dv.take(0) =~= Seq::<crate::command::TileChangeView>::empty());
    }
    while i < diff.len()
        invariant
            dv == diff_view(diff@),
            i <= diff@.len(),
            tiles.wf(),
            tiles@ == apply_diff(m0, dv.take(i as int)),
            diff_view(inv@) == inverse_diff(m0, dv.take(i as int)),
        decreases diff@.len() - i,
    {
        proof {
            assert(dv.take(i as int + 1).drop_last() =~= dv.take(i as int));
            assert(dv.take(i as int + 1).last() == dv[i as int]);
        }
        let c = diff[i].0;
        let after = copy_tile_opt(&diff[i].2);
        let kept = copy_tile_opt(&diff[i].2);
        let ghost m_pre = tiles@;
        let prev = match after {
            Some(t) => tiles.insert(c, t),
            None => tiles.remove(c),
        };
        proof {
            assert(tile_opt_view(prev) == tile_at(m_pre, c));
        }
        let ghost inv_pre = inv@;
        inv.insert(0, (c, kept, prev));
        i = i + 1;
        proof {
            assert(diff_view(inv@) =~= seq![(c, tile_opt_view(kept), tile_opt_view(prev))] + diff_view(inv_pre));
        }
    }
    proof {
        assert(dv.take(i as int) =~= dv);
    }
    inv
}

fn apply_paint_tiles(cut: &mut Cut, at: CutRef, id: DrawingId, layer: LayerId, diff: &Vec<TileChange>) -> (r: Result<AppliedEffect, EngineError>)
    requires
        old(cut).wf(),
    ensures
        applied(*old(cut), *final(cut), CommandView::PaintTiles { at, id, layer, diff: diff_view(diff@) }, r),
{
    proof {
        reveal(cut_step);
    }
    let roots = stroke_invalidation_roots(cut, id);
    let di = match cut.drawing_index(id) {
        Some(i) => i,
        None => { return Err(EngineError::UnknownDrawing(id)); },
    };
    proof {
        lemma_drawing_at(cut.drawings@, di as int);
    }
    let li = match cut.drawings[di].layer_index(layer) {
        Some(i) => i,
        None => { return Err(EngineError::UnknownLayer(layer)); },
    };
    let ghost pre = cut.drawings@;
    let ghost d0 = cut.drawings@[di as int];
    proof {
        assert(d0.wf());
        assert(d0.layers@[li as int].raster.wf());
    }
    let inv = apply_tile_diff(&mut cut.drawings[di].layers[li].raster.tiles, diff);
    proof {
        let nd = cut.drawings@[di as int];
        assert(cut.drawings@ =~= pre.update(di as int, nd));
        assert(nd.layers@ =~= d0.layers@.update(li as int, nd.layers@[li as int]));
        lemma_drawing_update(pre, di as int, nd);
        assert(layers_view(nd.layers@) =~= layers_view(d0.layers@).update(li as int, nd.layers@[li as int].view()));
        assert(drawing_ids(cut.drawings@) =~= drawing_ids(pre));
        assert forall|i: int| 0 <= i < nd.layers@.len() implies (#[trigger] nd.layers@[i]).raster.wf() by {
            if i != li {
                assert(d0.layers@[i].raster.wf());
            }
        }
        assert forall|i: int| 0 <= i < cut.drawings@.len() implies (#[trigger] cut.drawings@[i]).wf() by {
            if i != di {
                assert(pre[i].wf());
            }
        }
    }
    let inverse = one_command(Command::PaintTiles { at, id, layer, diff: inv });
    Ok(AppliedEffect { inverse, invalidation_roots: roots })
}

/// Apply one command to a cut.
pub fn apply_to_cut(cut: &mut Cut, cmd: &Command) -> (r: Result<AppliedEffect, EngineError>)
    requires
        old(cut).wf(),
        cmd.wf(),
    ensures
        applied(*old(cut), *final(cut), cmd.view(), r),
{
    match cmd {
        Command::AddDrawing { at, id, name, strokes, layers } => apply_add_drawing(cut, *at, *id, name, strokes, layers),
        Command::RemoveDrawing { at, id } => apply_remove_drawing(cut, *at, *id),
        Command::InsertDrawing { at, id, index, name, strokes, layers } => apply_insert_drawing(
            cut,
            *at,
            *id,
            *index,
            name,
            strokes,
            layers,
        ),
        Command::AddStroke { at, id, stroke } => apply_add_stroke(cut, *at, *id, stroke),
        Command::PopStroke { at, id } => apply_pop_stroke(cut, *at, *id),
        Command::SetCell { at, column, frame, key } => apply_set_cell(cut, *at, *column, *frame, *key),
        Command::AddNode { at, id, kind } => apply_add_node(cut, *at, *id, *kind),
        Command::RemoveNode { at, id } => apply_remove_node(cut, *at, *id),
        Command::Connect { at, from, from_pin, to, to_pin } => apply_connect(cut, *at, *from, *from_pin, *to, *to_pin),
        Command::Disconnect { at, to, to_pin } => apply_disconnect(cut, *at, *to, *to_pin),
        Command::SetNodeKind { at, id, kind } => apply_set_node_kind(cut, *at, *id, *kind),
        Command::SetOutput { at, node } => apply_set_output(cut, *at, *node),
        Command::PaintTiles { at, id, layer, diff } => apply_paint_tiles(cut, *at, *id, *layer, diff),
    }
}

/// `new` is what `cmd` makes of the project `old` (or `old` itself, if
/// refused), with `r` the effect or refusal that `project_step` gives.
pub open spec fn project_applied(old: ProjectView, new: ProjectView, cmd: CommandView, r: Result<AppliedEffect, EngineError>) -> bool {
    match r {
        Ok(e) => project_step(old, cmd) == Ok::<ProjectEffect, EngineError>(ProjectEffect {
            project: new,
            inverse: commands_view(e.inverse@),
            roots: e.invalidation_roots@,
        }) && commands_wf(e.inverse@),
        Err(err) => project_step(old, cmd) == Err::<ProjectEffect, EngineError>(err) && new == old,
    }
}

/// Apply one command to the cut at `ci` of a scene.
fn apply_in_scene(scene: &mut crate::model::Scene, ci: usize, cmd: &Command) -> (r: Result<AppliedEffect, EngineError>)
    requires
        old(scene).wf(),
        ci < old(scene).cuts@.len(),
        cmd.wf(),
    ensures
        final(scene).wf(),
        final(scene).id == old(scene).id,
        final(scene).name == old(scene).name,
        final(scene).cuts@.len() == old(scene).cuts@.len(),
        forall|j: int| 0 <= j < old(scene).cuts@.len() && j != ci ==> #[trigger] final(scene).cuts@[j] == old(scene).cuts@[j],
        applied(old(scene).cuts@[ci as int], final(scene).cuts@[ci as int], cmd.view(), r),
{
    let ghost cuts0 = scene.cuts@;
    proof {
        assert(cuts0[ci as int].wf());
    }
    let r = apply_to_cut(&mut scene.cuts[ci], cmd);
    proof {
        assert forall|j: int| 0 <= j < scene.cuts@.len() implies (#[trigger] scene.cuts@[j]).wf() by {
            if j != ci {
                assert(cuts0[j].wf());
            }
        }
    }
    r
}

pub proof fn lemma_with_cut(p0: Project, p1: Project, si: int, ci: int)
    requires
        0 <= si < p0.scenes@.len(),
        0 <= ci < p0.scenes@[si].cuts@.len(),
        p1.scenes@.len() == p0.scenes@.len(),
        forall|i: int| 0 <= i < p0.scenes@.len() && i != si ==> #[trigger] p1.scenes@[i] == p0.scenes@[i],
        p1.scenes@[si].id == p0.scenes@[si].id,
        p1.scenes@[si].name == p0.scenes@[si].name,
        p1.scenes@[si].cuts@.len() == p0.scenes@[si].cuts@.len(),
        forall|j: int| 0 <= j < p0.scenes@[si].cuts@.len() && j != ci ==> #[trigger] p1.scenes@[si].cuts@[j] == p0.scenes@[si].cuts@[j],
        p1.name == p0.name,
        p1.fps == p0.fps,
        p1.width == p0.width,
        p1.height == p0.height,
        p1.dpi == p0.dpi,
        p1.next_id == p0.next_id,
        p1.app_meta == p0.app_meta,
    ensures
        p1.view() == with_cut(p0.view(), si, ci, p1.scenes@[si].cuts@[ci].view()),
{
    let s0 = p0.scenes@[si];
    let s1 = p1.scenes@[si];
    assert(crate::model::cuts_view(s1.cuts@) =~= crate::model::cuts_view(s0.cuts@).update(ci, s1.cuts@[ci].view()));
    assert(crate::model::scenes_view(p1.scenes@) =~= crate::model::scenes_view(p0.scenes@).update(si, s1.view()));
}

/// Apply one command to the cut it names.
#[verifier::rlimit(60)]
pub fn apply_command(project: &mut Project, cmd: &Command) -> (r: Result<AppliedEffect, EngineError>)
    requires
        old(project).wf(),
        cmd.wf(),
    ensures
        final(project).wf(),
        project_applied(old(project).view(), final(project).view(), cmd.view(), r),
{
    proof {
        reveal(project_step);
    }
    let at = cmd.cut_ref();
    let si = match project.scene_index(at.scene) {
        Some(i) => i,
        None => { return Err(EngineError::UnknownScene(at.scene)); },
    };
    let ci = match project.cut_index(si, at.cut) {
        Some(i) => i,
        None => { return Err(EngineError::UnknownCut(at.cut)); },
    };
    let ghost p0 = *project;
    proof {
        assert(project.scenes@[si as int].wf());
        assert(p0.view().scenes[si as int].cuts[ci as int] == p0.scenes@[si as int].cuts@[ci as int].view());
    }
    let r = apply_in_scene(&mut project.scenes[si], ci, cmd);
    proof {
        lemma_with_cut(p0, *project, si as int, ci as int);
        assert forall|i: int| 0 <= i < project.scenes@.len() implies (#[trigger] project.scenes@[i]).wf() by {
            if i != si {
                assert(p0.scenes@[i].wf());
            }
        }
        if r is Err {
            let sv = p0.view().scenes;
            let sc = sv[si as int];
            assert(sc.cuts[ci as int] == p0.scenes@[si as int].cuts@[ci as int].view());
            assert(sc.cuts.update(ci as int, sc.cuts[ci as int]) =~= sc.cuts);
            assert(sv.update(si as int, SceneView { cuts: sc.cuts, ..sc }) =~= sv);
        }
    }
    r
}

/// The ids of `v`, each once.
pub fn dedup_ids(v: &Vec<NodeId>) -> (r: Vec<NodeId>)
    ensures
        r@.to_set() == v@.to_set(),
        forall|a: int, b: int| 0 <= a < b < r@.len() ==> #[trigger] r@[a] != #[trigger] r@[b],
{
    let mut r: Vec<NodeId> = Vec::new();
    let mut i: usize = 0;
    while i < v.len()
        invariant
            i <= v@.len(),
            forall|x: NodeId| #[trigger] r@.contains(x) <==> v@.take(i as int).contains(x),
            forall|a: int, b: int| 0 <= a < b < r@.len() ==> #[trigger] r@[a] != #[trigger] r@[b],
        decreases v@.len() - i,
    {
        let x = v[i];
        let ghost pre = r@;
        proof {
            assert forall|y: NodeId| #[trigger] v@.take(i as int + 1).contains(y) <==> (v@.take(i as int).contains(y) || y == x) by {
                let t = v@.take(i as int + 1);
                let t0 = v@.take(i as int);
                if t.contains(y) {
                    let k = choose|k: int| 0 <= k < t.len() && t[k] == y;
                    if k < i {
                        assert(t0[k] == y);
                    }
                }
                if t0.contains(y) {
                    let k = choose|k: int| 0 <= k < t0.len() && t0[k] == y;
                    assert(t[k] == y);
                }
                if y == x {
                    assert(t[i as int] == y);
                }
            }
        }
        if !crate::graph::contains_id(&r, x) {
            r.push(x);
            proof {
                assert forall|y: NodeId| #[trigger] r@.contains(y) <==> (pre.contains(y) || y == x) by {
                    if r@.contains(y) {
                        let k = choose|k: int| 0 <= k < r@.len() && r@[k] == y;
                        if k < pre.len() {
                            assert(pre[k] == y);
                        }
                    }
                    if pre.contains(y) {
                        let k = choose|k: int| 0 <= k < pre.len() && pre[k] == y;
                        assert(r@[k] == y);
                    }
                    if y == x {
                        assert(r@[pre.len() as int] == y);
                    }
                }
            }
        }
        i = i + 1;
    }
    proof {
        assert(v@.take(i as int) =~= v@);
        assert(r@.to_set() =~= v@.to_set());
    }
    r
}

/// Expand invalidation roots to their downstream closure in the cut `at`
/// names (just the roots, deduplicated, if there is no such cut).
pub fn invalidation_closure(project: &Project, at: CutRef, roots: &Vec<NodeId>) -> (r: Vec<NodeId>)
    requires
        project.wf(),
    ensures
        r@.to_set() == closure_spec(project.view(), at, roots@),
        forall|a: int, b: int| 0 <= a < b < r@.len() ==> #[trigger] r@[a] != #[trigger] r@[b],
{
    match project.cut(at.scene, at.cut) {
        Some(cut) => {
            let ghost si = scene_pos(project.view().scenes, at.scene)->Some_0;
            let ghost ci = cut_pos(project.view().scenes[si].cuts, at.cut)->Some_0;
            proof {
                assert(project.scenes@[si].wf());
                assert(project.scenes@[si].cuts@[ci].wf());
                assert(project.view().scenes[si] == project.scenes@[si].view());
                assert(project.view().scenes[si].cuts[ci] == project.scenes@[si].cuts@[ci].view());
            }
            let r = cut.graph.downstream_closure(roots.as_slice());
            proof {
                let gs = project.view().scenes[si].cuts[ci].graph.nodes;
                assert(gs == cut.graph.gs());
                assert(closure_spec(project.view(), at, roots@) == Set::new(|x: NodeId| exists|t: int|
                    0 <= t < roots@.len() && crate::graph::downstream(gs, (#[trigger] roots@[t]).0, x.0)));
                assert(r@.to_set() =~= closure_spec(project.view(), at, roots@));
            }
            r
        },
        None => {
            let r = dedup_ids(roots);
            proof {
                let sv = project.view().scenes;
                if scene_pos(sv, at.scene) is Some {
                    assert(cut_pos(sv[scene_pos(sv, at.scene)->Some_0].cuts, at.cut) is None);
                }
            }
            r
        },
    }
}

} // verus!
