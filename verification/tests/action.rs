use animstudio::action::{refused_mid_stroke, Action};

#[test]
fn a_live_stroke_refuses_what_would_retarget_it() {
    for a in [
        Action::PlayPause,
        Action::NextFrame,
        Action::PrevFrame,
        Action::FirstFrame,
        Action::LastFrame,
        Action::NewDrawing,
        Action::ClearCel,
        Action::ClearCelAll,
        Action::CycleCelLayer,
        Action::CycleCelLayerBack,
        Action::ClearFrameKey,
        Action::RemoveColumn,
        Action::Undo,
        Action::Redo,
        Action::PrevCut,
        Action::NextCut,
    ] {
        assert!(refused_mid_stroke(a), "{:?}", a);
    }
    for a in [
        Action::PrevKey,
        Action::NextKey,
        Action::ToggleEraser,
        Action::BrushTool,
        Action::FillTool,
        Action::Preset3,
        Action::Save,
        Action::Open,
        Action::ToggleOnion,
        Action::NewProject,
    ] {
        assert!(!refused_mid_stroke(a), "{:?}", a);
    }
}
