//! Command-based editing with exact inverses.
//!
//! Every mutation of a document goes through a `Command`. Applying one
//! returns (a) the inverse command list that restores the prior state, and
//! (b) the "invalidation roots" — nodes whose cached values (and downstream)
//! are no longer valid. The engine owns history stacks built from these.

use vstd::prelude::*;
use crate::graph::NodeKind;
use crate::ids::{ColumnId, CutId, DrawingId, LayerId, NodeId, SceneId};
use crate::model::{CelLayer, CelLayerView, Stroke, StrokeView, copy_layers, layers_view, layers_wf, strokes_view, copy_strokes};
use crate::raster::{TileCoord, TileData, TileView};
use crate::xsheet::Exposure;

verus! {

/// Where a command applies: one cut of one scene.
#[derive(Debug, Clone, Copy, PartialEq, Eq, Structural)]
pub struct CutRef {
    pub scene: SceneId,
    pub cut: CutId,
}

/// One tile of a raster edit: its coordinate, the tile expected there
/// before, and the tile to leave there (`None` = absent, transparent).
pub type TileChange = (TileCoord, Option<TileData>, Option<TileData>);

pub type TileChangeView = (TileCoord, Option<TileView>, Option<TileView>);

#[derive(Debug)]
pub enum Command {
    AddDrawing {
        at: CutRef,
        id: DrawingId,
        name: String,
        /// Usually empty for user-created drawings; carries the full artwork
        /// when this command is the inverse of a RemoveDrawing.
        strokes: Vec<Stroke>,
        layers: Vec<CelLayer>,
    },
    RemoveDrawing { at: CutRef, id: DrawingId },
    /// Put a drawing back at a place in the library (at `index`, or last
    /// when `index` is past the end): the inverse of a RemoveDrawing.
    InsertDrawing {
        at: CutRef,
        id: DrawingId,
        index: usize,
        name: String,
        strokes: Vec<Stroke>,
        layers: Vec<CelLayer>,
    },
    /// Append one pen stroke to a drawing.
    AddStroke { at: CutRef, id: DrawingId, stroke: Stroke },
    /// Remove a drawing's most recent stroke (the exact inverse of AddStroke).
    PopStroke { at: CutRef, id: DrawingId },
    /// `key: Some(exposure)` sets a key at the frame; `None` clears the key
    /// (the previous key's hold then extends over it).
    SetCell { at: CutRef, column: ColumnId, frame: u32, key: Option<Exposure> },
    AddNode { at: CutRef, id: NodeId, kind: NodeKind },
    RemoveNode { at: CutRef, id: NodeId },
    Connect { at: CutRef, from: NodeId, from_pin: u16, to: NodeId, to_pin: u16 },
    Disconnect { at: CutRef, to: NodeId, to_pin: u16 },
    /// Parameter edits replace the node's kind. If the input count shrinks,
    /// truncated connections are recorded in the inverse.
    SetNodeKind { at: CutRef, id: NodeId, kind: NodeKind },
    SetOutput { at: CutRef, node: Option<NodeId> },
    /// A raster edit on one layer of one drawing, as per-tile changes
    /// applied in order.
    PaintTiles { at: CutRef, id: DrawingId, layer: LayerId, diff: Vec<TileChange> },
}

/// Abstract value of a command.
pub enum CommandView {
    AddDrawing { at: CutRef, id: DrawingId, name: Seq<char>, strokes: Seq<StrokeView>, layers: Seq<CelLayerView> },
    RemoveDrawing { at: CutRef, id: DrawingId },
    InsertDrawing {
        at: CutRef,
        id: DrawingId,
        index: usize,
        name: Seq<char>,
        strokes: Seq<StrokeView>,
        layers: Seq<CelLayerView>,
    },
    AddStroke { at: CutRef, id: DrawingId, stroke: StrokeView },
    PopStroke { at: CutRef, id: DrawingId },
    SetCell { at: CutRef, column: ColumnId, frame: u32, key: Option<Exposure> },
    AddNode { at: CutRef, id: NodeId, kind: NodeKind },
    RemoveNode { at: CutRef, id: NodeId },
    Connect { at: CutRef, from: NodeId, from_pin: u16, to: NodeId, to_pin: u16 },
    Disconnect { at: CutRef, to: NodeId, to_pin: u16 },
    SetNodeKind { at: CutRef, id: NodeId, kind: NodeKind },
    SetOutput { at: CutRef, node: Option<NodeId> },
    PaintTiles { at: CutRef, id: DrawingId, layer: LayerId, diff: Seq<TileChangeView> },
}

pub open spec fn tile_opt_view(t: Option<TileData>) -> Option<TileView> {
    match t {
        Some(d) => Some(d.view()),
        None => None,
    }
}

pub open spec fn diff_view(s: Seq<TileChange>) -> Seq<TileChangeView> {
    s.map_values(|e: TileChange| (e.0, tile_opt_view(e.1), tile_opt_view(e.2)))
}

pub open spec fn commands_view(s: Seq<Command>) -> Seq<CommandView> {
    s.map_values(|c: Command| c.view())
}

pub open spec fn commands_wf(s: Seq<Command>) -> bool {
    forall|i: int| 0 <= i < s.len() ==> (#[trigger] s[i]).wf()
}

impl CommandView {
    pub open spec fn at(self) -> CutRef {
        match self {
            CommandView::AddDrawing { at, .. } => at,
            CommandView::RemoveDrawing { at, .. } => at,
            CommandView::InsertDrawing { at, .. } => at,
            CommandView::AddStroke { at, .. } => at,
            CommandView::PopStroke { at, .. } => at,
            CommandView::SetCell { at, .. } => at,
            CommandView::AddNode { at, .. } => at,
            CommandView::RemoveNode { at, .. } => at,
            CommandView::Connect { at, .. } => at,
            CommandView::Disconnect { at, .. } => at,
            CommandView::SetNodeKind { at, .. } => at,
            CommandView::SetOutput { at, .. } => at,
            CommandView::PaintTiles { at, .. } => at,
        }
    }
}

/// A copy of a tile, if any.
pub fn copy_tile_opt(t: &Option<TileData>) -> (r: Option<TileData>)
    ensures
        tile_opt_view(r) == tile_opt_view(*t),
{
    match t {
        Some(d) => Some(d.duplicate()),
        None => None,
    }
}

/// A copy of a tile diff.
pub fn copy_diff(v: &Vec<TileChange>) -> (r: Vec<TileChange>)
    ensures
        diff_view(r@) == diff_view(v@),
{
    let mut r: Vec<TileChange> = Vec::new();
    let mut i: usize = 0;
    while i < v.len()
        invariant
            i <= v@.len(),
            diff_view(r@) == diff_view(v@).take(i as int),
        decreases v@.len() - i,
    {
        let c = v[i].0;
        let b = copy_tile_opt(&v[i].1);
        let a = copy_tile_opt(&v[i].2);
        let ghost pre = r@;
        r.push((c, b, a));
        i = i + 1;
        proof {
            assert(diff_view(r@) =~= diff_view(pre).push((c, tile_opt_view(b), tile_opt_view(a))));
            assert(diff_view(r@) =~= diff_view(v@).take(i as int));
        }
    }
    assert(diff_view(v@).take(i as int) =~= diff_view(v@));
    r
}

impl Command {
    pub open spec fn view(&self) -> CommandView {
        match *self {
            Command::AddDrawing { at, id, name, strokes, layers } => CommandView::AddDrawing {
                at,
                id,
                name: name@,
                strokes: strokes_view(strokes@),
                layers: layers_view(layers@),
            },
            Command::RemoveDrawing { at, id } => CommandView::RemoveDrawing { at, id },
            Command::InsertDrawing { at, id, index, name, strokes, layers } => CommandView::InsertDrawing {
                at,
                id,
                index,
                name: name@,
                strokes: strokes_view(strokes@),
                layers: layers_view(layers@),
            },
            Command::AddStroke { at, id, stroke } => CommandView::AddStroke { at, id, stroke: stroke.view() },
            Command::PopStroke { at, id } => CommandView::PopStroke { at, id },
            Command::SetCell { at, column, frame, key } => CommandView::SetCell { at, column, frame, key },
            Command::AddNode { at, id, kind } => CommandView::AddNode { at, id, kind },
            Command::RemoveNode { at, id } => CommandView::RemoveNode { at, id },
            Command::Connect { at, from, from_pin, to, to_pin } => CommandView::Connect { at, from, from_pin, to, to_pin },
            Command::Disconnect { at, to, to_pin } => CommandView::Disconnect { at, to, to_pin },
            Command::SetNodeKind { at, id, kind } => CommandView::SetNodeKind { at, id, kind },
            Command::SetOutput { at, node } => CommandView::SetOutput { at, node },
            Command::PaintTiles { at, id, layer, diff } => CommandView::PaintTiles { at, id, layer, diff: diff_view(diff@) },
        }
    }

    /// The command's own data is well formed: the tile grids it carries are
    /// ascending.
    pub open spec fn wf(&self) -> bool {
        match *self {
            Command::AddDrawing { layers, .. } => layers_wf(layers@),
            Command::InsertDrawing { layers, .. } => layers_wf(layers@),
            _ => true,
        }
    }

    pub fn cut_ref(&self) -> (r: CutRef)
        ensures
            r == self.view().at(),
    {
        match self {
            Command::AddDrawing { at, .. } => *at,
            Command::RemoveDrawing { at, .. } => *at,
            Command::InsertDrawing { at, .. } => *at,
            Command::AddStroke { at, .. } => *at,
            Command::PopStroke { at, .. } => *at,
            Command::SetCell { at, .. } => *at,
            Command::AddNode { at, .. } => *at,
            Command::RemoveNode { at, .. } => *at,
            Command::Connect { at, .. } => *at,
            Command::Disconnect { at, .. } => *at,
            Command::SetNodeKind { at, .. } => *at,
            Command::SetOutput { at, .. } => *at,
            Command::PaintTiles { at, .. } => *at,
        }
    }

    /// A copy of the command.
    pub fn duplicate(&self) -> (c: Self)
        ensures
            c.view() == self.view(),
            self.wf() ==> c.wf(),
    {
        match self {
            Command::AddDrawing { at, id, name, strokes, layers } => Command::AddDrawing {
                at: *at,
                id: *id,
                name: name.clone(),
                strokes: copy_strokes(strokes),
                layers: copy_layers(layers),
            },
            Command::RemoveDrawing { at, id } => Command::RemoveDrawing { at: *at, id: *id },
            Command::InsertDrawing { at, id, index, name, strokes, layers } => Command::InsertDrawing {
                at: *at,
                id: *id,
                index: *index,
                name: name.clone(),
                strokes: copy_strokes(strokes),
                layers: copy_layers(layers),
            },
            Command::AddStroke { at, id, stroke } => Command::AddStroke { at: *at, id: *id, stroke: stroke.duplicate() },
            Command::PopStroke { at, id } => Command::PopStroke { at: *at, id: *id },
            Command::SetCell { at, column, frame, key } => Command::SetCell { at: *at, column: *column, frame: *frame, key: *key },
            Command::AddNode { at, id, kind } => Command::AddNode { at: *at, id: *id, kind: *kind },
            Command::RemoveNode { at, id } => Command::RemoveNode { at: *at, id: *id },
            Command::Connect { at, from, from_pin, to, to_pin } => Command::Connect {
                at: *at,
                from: *from,
                from_pin: *from_pin,
                to: *to,
                to_pin: *to_pin,
            },
            Command::Disconnect { at, to, to_pin } => Command::Disconnect { at: *at, to: *to, to_pin: *to_pin },
            Command::SetNodeKind { at, id, kind } => Command::SetNodeKind { at: *at, id: *id, kind: *kind },
            Command::SetOutput { at, node } => Command::SetOutput { at: *at, node: *node },
            Command::PaintTiles { at, id, layer, diff } => Command::PaintTiles {
                at: *at,
                id: *id,
                layer: *layer,
                diff: copy_diff(diff),
            },
        }
    }
}

/// A copy of a command list.
pub fn copy_commands(v: &Vec<Command>) -> (r: Vec<Command>)
    ensures
        commands_view(r@) == commands_view(v@),
        commands_wf(v@) ==> commands_wf(r@),
{
    let mut r: Vec<Command> = Vec::new();
    let mut i: usize = 0;
    while i < v.len()
        invariant
            i <= v@.len(),
            r@.len() == i,
            commands_view(r@) == commands_view(v@).take(i as int),
            forall|k: int| 0 <= k < i ==> (#[trigger] v@[k]).wf() ==> r@[k].wf(),
        decreases v@.len() - i,
    {
        let c = v[i].duplicate();
        let ghost pre = r@;
        r.push(c);
        i = i + 1;
        proof {
            assert(commands_view(r@) =~= commands_view(pre).push(c.view()));
            assert(commands_view(r@) =~= commands_view(v@).take(i as int));
        }
    }
    assert(commands_view(v@).take(i as int) =~= commands_view(v@));
    proof {
        if commands_wf(v@) {
            assert forall|k: int| 0 <= k < r@.len() implies (#[trigger] r@[k]).wf() by {
                assert(v@[k].wf());
            }
        }
    }
    r
}

} // verus!
