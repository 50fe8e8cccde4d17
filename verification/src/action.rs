//! The editor's bindable actions, and the stroke guard over them.

use vstd::prelude::*;

verus! {

/// What a key or menu entry asks of the editor.
#[derive(Debug, Clone, Copy, PartialEq, Eq, Structural)]
pub enum Action {
    PlayPause,
    NextFrame,
    PrevFrame,
    FirstFrame,
    LastFrame,
    PrevKey,
    NextKey,
    MissCheck,
    PrevCut,
    NextCut,
    ToggleLoop,
    NewDrawing,
    ClearCel,
    ClearCelAll,
    ClearFrameKey,
    RemoveColumn,
    ToggleOnion,
    ToggleEraser,
    ToggleAlphaLock,
    ToggleCompositeView,
    SelectTool,
    BrushTool,
    FillTool,
    SelectAll,
    Preset1,
    Preset2,
    Preset3,
    Preset4,
    Preset5,
    Preset6,
    Preset7,
    Preset8,
    CycleCelLayer,
    CycleCelLayerBack,
    Undo,
    Redo,
    Save,
    SaveAs,
    Open,
    NewProject,
}

/// The actions that would retarget or orphan a live stroke's pen-up
/// commit: frame and cut navigation would commit onto the wrong frame, a
/// layer cycle onto the wrong layer, undo and the clears against a
/// vanished target. Tool toggles are not among them: the stroke latches
/// its tool.
pub open spec fn retargets_stroke(a: Action) -> bool {
    match a {
        Action::PlayPause | Action::NextFrame | Action::PrevFrame | Action::FirstFrame | Action::LastFrame
        | Action::NewDrawing | Action::ClearCel | Action::ClearCelAll | Action::CycleCelLayer
        | Action::CycleCelLayerBack | Action::ClearFrameKey | Action::RemoveColumn | Action::Undo
        | Action::Redo | Action::PrevCut | Action::NextCut => true,
        _ => false,
    }
}

/// Whether the editor refuses `a` while a stroke is live (it answers
/// "refused — finish the stroke first" and does nothing).
pub fn refused_mid_stroke(a: Action) -> (r: bool)
    ensures
        r == retargets_stroke(a),
{
    match a {
        Action::PlayPause | Action::NextFrame | Action::PrevFrame | Action::FirstFrame | Action::LastFrame
        | Action::NewDrawing | Action::ClearCel | Action::ClearCelAll | Action::CycleCelLayer
        | Action::CycleCelLayerBack | Action::ClearFrameKey | Action::RemoveColumn | Action::Undo
        | Action::Redo | Action::PrevCut | Action::NextCut => true,
        _ => false,
    }
}

} // verus!
