//! Workspaces: the dockable panes over the one shared document, and the
//! fixed stage spine (Layout -> Drawing -> Finishing -> Edit) whose rooms
//! each re-arm a tool and view state. Switching stage never touches the
//! document.

use vstd::prelude::*;
use crate::text::{decimal, decimal_spec, push_char};

verus! {

/// One dockable interface element; panes are windows onto the document.
#[derive(Clone, Copy, PartialEq, Eq, Debug)]
pub enum Pane {
    Canvas,
    XSheet,
    /// The cel-layers strip.
    Layers,
    /// Brush and tool controls.
    Brush,
    /// Brush preset list.
    Presets,
    /// The brush forge.
    Forge,
    /// Character color palettes.
    Palette,
    /// The cut's compositing node graph.
    NodeGraph,
    /// A read-only composite viewer; the id keeps several viewers apart.
    Viewer(u8),
}

/// The canvas tool a room re-arms.
#[derive(Clone, Copy, PartialEq, Eq, Debug)]
pub enum CanvasTool {
    Paint,
    Fill,
    Select,
}

/// The selection shape a room re-arms.
#[derive(Clone, Copy, PartialEq, Eq, Debug)]
pub enum SelShape {
    Rect,
}

/// A pane's tab title.
pub open spec fn title_spec(p: Pane) -> Seq<char> {
    match p {
        Pane::Canvas => "Canvas"@,
        Pane::XSheet => "X-Sheet"@,
        Pane::Layers => "Cel Layers"@,
        Pane::Brush => "Brush"@,
        Pane::Presets => "Presets"@,
        Pane::Forge => "Brush Forge"@,
        Pane::Palette => "Palette"@,
        Pane::NodeGraph => "Node Graph"@,
        Pane::Viewer(n) => if n == 0 {
            "Viewer"@
        } else {
            "Viewer "@ + decimal_spec(n as nat + 1)
        },
    }
}

impl Pane {
    /// The tab title: the first viewer is "Viewer", the others are
    /// numbered from 2.
    pub fn title(&self) -> (t: String)
        requires
            !(*self matches Pane::Viewer(n) && n == 255),
        ensures
            t@ == title_spec(*self),
    {
        match self {
            Pane::Canvas => String::from_str("Canvas"),
            Pane::XSheet => String::from_str("X-Sheet"),
            Pane::Layers => String::from_str("Cel Layers"),
            Pane::Brush => String::from_str("Brush"),
            Pane::Presets => String::from_str("Presets"),
            Pane::Forge => String::from_str("Brush Forge"),
            Pane::Palette => String::from_str("Palette"),
            Pane::NodeGraph => String::from_str("Node Graph"),
            Pane::Viewer(n) => {
                if *n == 0 {
                    String::from_str("Viewer")
                } else {
                    let mut s = String::from_str("Viewer ");
                    let ds = decimal((*n as u64) + 1);
                    let ghost head = s@;
                    let mut i: usize = 0;
                    while i < ds.len()
                        invariant
                            i <= ds@.len(),
                            s@ == head + ds@.take(i as int),
                        decreases ds@.len() - i,
                    {
                        push_char(&mut s, ds[i]);
                        i = i + 1;
                        assert(s@ =~= head + ds@.take(i as int));
                    }
                    assert(ds@.take(i as int) =~= ds@);
                    s
                }
            },
        }
    }
}

/// The tool and view state a room restores on entry.
#[derive(Clone, Copy, PartialEq, Eq, Debug)]
pub struct WorkspaceView {
    pub tool: CanvasTool,
    pub composite_view: bool,
    pub onion: bool,
    /// Onion-skin only the active layer (a workspace saved before this
    /// field existed reads it as `false`).
    pub onion_layer_only: bool,
    pub sel_shape: SelShape,
    pub fill_ref_cel: bool,
}

/// The workflow stages, in pipeline order.
#[derive(Clone, Copy, PartialEq, Eq, Debug)]
pub enum Stage {
    /// Story and layout: rough the shot against reference.
    Layout,
    /// Keys, inbetweens and supervision merged: the daily drawing room.
    Drawing,
    /// Paint and composite merged.
    Finishing,
    /// Timing and review: the X-sheet is the master artifact.
    Edit,
}

/// Every room starts from this: the brush, no composite view, no onion,
/// rectangle selection, fills against the layer.
pub open spec fn base_view() -> WorkspaceView {
    WorkspaceView {
        tool: CanvasTool::Paint,
        composite_view: false,
        onion: false,
        onion_layer_only: false,
        sel_shape: SelShape::Rect,
        fill_ref_cel: false,
    }
}

/// The room's verb: Drawing turns onion skin on; Finishing holds the fill
/// tool against the whole cel; Edit holds the selection tool.
pub open spec fn stage_view_spec(s: Stage) -> WorkspaceView {
    match s {
        Stage::Layout => base_view(),
        Stage::Drawing => WorkspaceView { onion: true, ..base_view() },
        Stage::Finishing => WorkspaceView { tool: CanvasTool::Fill, fill_ref_cel: true, ..base_view() },
        Stage::Edit => WorkspaceView { tool: CanvasTool::Select, ..base_view() },
    }
}

impl Stage {
    /// Button label: the pipeline term and its English.
    pub fn name(self) -> (n: &'static str)
        ensures
            n@ == (match self {
                Stage::Layout => "layout"@,
                Stage::Drawing => "genga (drawing)"@,
                Stage::Finishing => "shiage (paint)"@,
                Stage::Edit => "henshū (edit)"@,
            }),
    {
        match self {
            Stage::Layout => "layout",
            Stage::Drawing => "genga (drawing)",
            Stage::Finishing => "shiage (paint)",
            Stage::Edit => "henshū (edit)",
        }
    }

    /// Hover text: which pipeline stages the room merges.
    pub fn describes(self) -> (d: &'static str)
        ensures
            d@ == (match self {
                Stage::Layout => "ekonte + layout — storyboard and framing against reference"@,
                Stage::Drawing => "genga + dōga + sakkan — keys, inbetweens, supervision"@,
                Stage::Finishing => "shiage + satsuei — ink & paint with the composite live beside you"@,
                Stage::Edit => "henshū — timing and review; the sheet is the master"@,
            }),
    {
        match self {
            Stage::Layout => "ekonte + layout — storyboard and framing against reference",
            Stage::Drawing => "genga + dōga + sakkan — keys, inbetweens, supervision",
            Stage::Finishing => "shiage + satsuei — ink & paint with the composite live beside you",
            Stage::Edit => "henshū — timing and review; the sheet is the master",
        }
    }

    /// The tool and view state the stage re-arms on entry.
    pub fn view(self) -> (v: WorkspaceView)
        ensures
            v == stage_view_spec(self),
    {
        let base = WorkspaceView {
            tool: CanvasTool::Paint,
            composite_view: false,
            onion: false,
            onion_layer_only: false,
            sel_shape: SelShape::Rect,
            fill_ref_cel: false,
        };
        match self {
            Stage::Layout => base,
            Stage::Drawing => WorkspaceView { onion: true, ..base },
            Stage::Finishing => WorkspaceView { tool: CanvasTool::Fill, fill_ref_cel: true, ..base },
            Stage::Edit => WorkspaceView { tool: CanvasTool::Select, ..base },
        }
    }
}

} // verus!
