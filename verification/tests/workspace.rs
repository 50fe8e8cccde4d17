use animstudio::palette::{CharacterPalette, Palettes};
use animstudio::uidump::{max_frame_index, UiDump};
use animstudio::workspace::{CanvasTool, Pane, SelShape, Stage};

#[test]
fn pane_titles() {
    assert_eq!(Pane::Canvas.title(), "Canvas");
    assert_eq!(Pane::XSheet.title(), "X-Sheet");
    assert_eq!(Pane::Layers.title(), "Cel Layers");
    assert_eq!(Pane::Forge.title(), "Brush Forge");
    assert_eq!(Pane::NodeGraph.title(), "Node Graph");
    assert_eq!(Pane::Viewer(0).title(), "Viewer");
    assert_eq!(Pane::Viewer(1).title(), "Viewer 2");
    assert_eq!(Pane::Viewer(9).title(), "Viewer 10");
}

#[test]
fn stages_name_their_rooms() {
    assert_eq!(Stage::Layout.name(), "layout");
    assert_eq!(Stage::Drawing.name(), "genga (drawing)");
    assert_eq!(Stage::Finishing.name(), "shiage (paint)");
    assert_eq!(Stage::Edit.name(), "henshū (edit)");
    assert!(Stage::Finishing.describes().starts_with("shiage + satsuei"));
}

#[test]
fn stages_rearm_their_verbs() {
    let layout = Stage::Layout.view();
    assert_eq!(layout.tool, CanvasTool::Paint);
    assert!(!layout.onion && !layout.composite_view && !layout.fill_ref_cel && !layout.onion_layer_only);
    assert_eq!(layout.sel_shape, SelShape::Rect);
    assert!(Stage::Drawing.view().onion);
    let fin = Stage::Finishing.view();
    assert_eq!(fin.tool, CanvasTool::Fill);
    assert!(fin.fill_ref_cel && !fin.onion);
    assert_eq!(Stage::Edit.view().tool, CanvasTool::Select);
}

#[test]
fn a_new_character_has_the_standard_triple() {
    let p = CharacterPalette::new("Ami".to_string());
    assert_eq!(p.name, "Ami");
    let roles: Vec<(&str, [u8; 4])> = p.roles.iter().map(|r| (r.name.as_str(), r.color)).collect();
    assert_eq!(
        roles,
        vec![("normal", [222, 178, 140, 255]), ("shadow", [96, 112, 192, 255]), ("highlight", [255, 233, 168, 255])]
    );
    assert!(Palettes::default().characters.is_empty());
}

#[test]
fn dumps_number_after_the_last_one_on_disk() {
    let names: Vec<String> =
        ["state_003.txt", "frame_003.png", "frame_012.png", "frame_x.png", "frame_7.PNG", "frame_.png"]
            .iter()
            .map(|s| s.to_string())
            .collect();
    assert_eq!(max_frame_index(&names), Some(12));
    assert_eq!(max_frame_index(&vec!["notes.txt".to_string()]), None);
    let d = UiDump::new(13);
    assert_eq!(d.seq, 13);
    assert!(d.awaiting.is_none() && d.last.is_none() && !d.auto_done);
}
