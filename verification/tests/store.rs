use animstudio::command::{Command, CutRef};
use animstudio::engine::Engine;
use animstudio::error::EngineError;
use animstudio::graph::{BlendMode, NodeKind, Rgba8};
use animstudio::ids::{CutId, DrawingId, NodeId, SceneId};
use animstudio::model::{CelLayer, Project, Stroke, StrokePoint, DPI_300};
use animstudio::raster::{TileData, TILE_LEN};
use animstudio::store::{project_from_rows, project_rows, ColumnRow, CutRow, NodeRow, ProjectRows, SceneRow};
use animstudio::xsheet::Exposure;

/// A project with a drawing (strokes and a painted layer), a keyed column,
/// a wired graph with an output, and an app-owned entry.
fn sample() -> Engine {
    let mut e = Engine::new("film".to_string());
    let scene = e.add_scene("SC01".to_string());
    let cut = e.add_cut(scene, "C001".to_string(), 24).unwrap();
    let at = CutRef { scene, cut };
    let col = e.add_column(at, "A".to_string()).unwrap();
    let d1 = e.alloc_drawing_id();
    let d2 = e.alloc_drawing_id();
    let layer = e.alloc_layer_id();
    let stroke = Stroke {
        points: vec![StrokePoint { x: 1, y: 2, pressure: 0x3f00_0000, tilt_x: 0, tilt_y: 0 }],
        base_width: 0x4000_0000,
        color: Rgba8 { r: 9, g: 8, b: 7, a: 255 },
    };
    e.apply(
        "art".to_string(),
        vec![
            Command::AddDrawing {
                at,
                id: d1,
                name: "A1".to_string(),
                strokes: vec![stroke],
                layers: vec![CelLayer::new(layer, "line".to_string())],
            },
            Command::AddDrawing { at, id: d2, name: "A2".to_string(), strokes: Vec::new(), layers: Vec::new() },
        ],
    )
    .unwrap();
    let mut texels = vec![0u16; TILE_LEN];
    texels[3] = 0x3c00;
    e.apply(
        "paint".to_string(),
        vec![Command::PaintTiles { at, id: d1, layer, diff: vec![((2, -1), None, Some(TileData::from_vec(texels)))] }],
    )
    .unwrap();
    let src = e.alloc_node_id();
    let blend = e.alloc_node_id();
    let out = e.alloc_node_id();
    e.apply(
        "sheet and graph".to_string(),
        vec![
            Command::SetCell { at, column: col, frame: 0, key: Some(Exposure::Drawing(d1)) },
            Command::SetCell { at, column: col, frame: 6, key: Some(Exposure::Empty) },
            Command::SetCell { at, column: col, frame: 8, key: Some(Exposure::Drawing(d2)) },
            Command::AddNode { at, id: src, kind: NodeKind::DrawingSource { column: col } },
            Command::AddNode { at, id: blend, kind: NodeKind::Blend { mode: BlendMode::Multiply } },
            Command::AddNode { at, id: out, kind: NodeKind::Output },
            Command::Connect { at, from: src, from_pin: 0, to: blend, to_pin: 1 },
            Command::Connect { at, from: blend, from_pin: 0, to: out, to_pin: 0 },
            Command::SetOutput { at, node: Some(out) },
        ],
    )
    .unwrap();
    e.project.app_meta.push(("palettes".to_string(), "[]".to_string()));
    e
}

fn rows_text(p: &Project) -> String {
    format!("{:?}", project_rows(p))
}

#[test]
fn a_saved_project_loads_back_the_same() {
    let e = sample();
    let rows = project_rows(&e.project);
    assert_eq!(rows.meta[0], ("schema_version".to_string(), "4".to_string()));
    assert_eq!(rows.meta[1], ("name".to_string(), "film".to_string()));
    assert_eq!(rows.meta[6], ("app.palettes".to_string(), "[]".to_string()));
    let p = project_from_rows(&rows).unwrap();
    assert_eq!(rows_text(&p), rows_text(&e.project));
    assert_eq!(p.name, "film");
    assert_eq!((p.fps, p.width, p.height, p.dpi, p.next_id), (24, 1920, 1080, DPI_300, e.project.next_id));
    assert_eq!(p.app_meta, vec![("palettes".to_string(), "[]".to_string())]);
    let cut = &p.scenes[0].cuts[0];
    let names: Vec<&str> = cut.drawings.iter().map(|d| d.name.as_str()).collect();
    assert_eq!(names, vec!["A1", "A2"]);
    assert_eq!(cut.drawings[0].layers[0].raster.tiles.entries.len(), 1);
    assert_eq!(cut.drawings[0].layers[0].raster.tiles.entries[0].0, (2, -1));
    assert_eq!(cut.xsheet.columns[0].resolve(7), None);
    assert_eq!(cut.xsheet.columns[0].resolve(9), Some(DrawingId(cut.drawings[1].id.0)));
    assert_eq!(cut.graph.nodes.len(), 3);
    assert_eq!(cut.graph.output, e.project.scenes[0].cuts[0].graph.output);
}

fn minimal(version: &str) -> ProjectRows {
    ProjectRows {
        meta: vec![
            ("schema_version".to_string(), version.to_string()),
            ("name".to_string(), "old".to_string()),
            ("fps".to_string(), "12".to_string()),
            ("next_id".to_string(), "7".to_string()),
        ],
        dpi: None,
        scenes: Vec::new(),
    }
}

#[test]
fn older_files_take_the_defaults() {
    let p = project_from_rows(&minimal("1")).unwrap();
    assert_eq!((p.fps, p.width, p.height, p.dpi, p.next_id), (12, 1920, 1080, DPI_300, 7));
    assert!(p.app_meta.is_empty());
    let mut rows = minimal("3");
    rows.meta.push(("width".to_string(), "640".to_string()));
    rows.meta.push(("height".to_string(), "wide".to_string()));
    let p = project_from_rows(&rows).unwrap();
    assert_eq!((p.width, p.height), (640, 1080));
}

#[test]
fn the_schema_version_gates_loading() {
    assert_eq!(project_from_rows(&minimal("5")).unwrap_err(), EngineError::SchemaVersion(5));
    assert_eq!(project_from_rows(&minimal("0")).unwrap_err(), EngineError::SchemaVersion(0));
    assert_eq!(project_from_rows(&minimal("-2")).unwrap_err(), EngineError::SchemaVersion(-2));
    assert_eq!(project_from_rows(&minimal("four")).unwrap_err(), EngineError::Corrupt);
    assert_eq!(project_from_rows(&minimal("+4")).map(|p| p.fps), Ok(12));
    assert_eq!(EngineError::SchemaVersion(5).message(), "unsupported project schema version 5");
}

#[test]
fn missing_or_unreadable_meta_is_corrupt() {
    let mut rows = minimal("4");
    rows.meta.remove(1);
    assert_eq!(project_from_rows(&rows).unwrap_err(), EngineError::Corrupt);
    let mut rows = minimal("4");
    rows.meta[2].1 = "99999999999".to_string();
    assert_eq!(project_from_rows(&rows).unwrap_err(), EngineError::Corrupt);
    let mut rows = minimal("4");
    rows.meta.retain(|(k, _)| k != "schema_version");
    assert_eq!(project_from_rows(&rows).unwrap_err(), EngineError::Corrupt);
}

fn one_cut(cut: CutRow) -> ProjectRows {
    let mut rows = minimal("4");
    rows.scenes.push(SceneRow { id: SceneId(1), name: "SC".to_string(), cuts: vec![cut] });
    rows
}

fn empty_cut() -> CutRow {
    CutRow {
        id: CutId(2),
        name: "C".to_string(),
        frame_count: 24,
        output: None,
        drawings: Vec::new(),
        columns: Vec::new(),
        params: Vec::new(),
        nodes: Vec::new(),
        images: Vec::new(),
    }
}

#[test]
fn unreadable_rows_are_corrupt() {
    let mut cut = empty_cut();
    cut.columns.push(ColumnRow {
        id: animstudio::ids::ColumnId(3),
        name: "A".to_string(),
        cells: vec![(0, "sideways".to_string(), None)],
    });
    assert_eq!(project_from_rows(&one_cut(cut)).unwrap_err(), EngineError::Corrupt);
    let mut cut = empty_cut();
    cut.columns.push(ColumnRow {
        id: animstudio::ids::ColumnId(3),
        name: "A".to_string(),
        cells: vec![(0, "drawing".to_string(), None)],
    });
    assert_eq!(project_from_rows(&one_cut(cut)).unwrap_err(), EngineError::Corrupt);
    let mut cut = empty_cut();
    cut.nodes.push(NodeRow { id: NodeId(4), kind: NodeKind::Output, links: vec![(1, NodeId(4), 0)] });
    assert_eq!(project_from_rows(&one_cut(cut)).unwrap_err(), EngineError::Corrupt);
}

#[test]
fn a_stored_cycle_or_dangling_key_is_refused() {
    let mut cut = empty_cut();
    cut.nodes.push(NodeRow { id: NodeId(4), kind: NodeKind::Output, links: vec![(0, NodeId(5), 0)] });
    cut.nodes.push(NodeRow { id: NodeId(5), kind: NodeKind::Output, links: vec![(0, NodeId(4), 0)] });
    assert_eq!(project_from_rows(&one_cut(cut)).unwrap_err(), EngineError::Corrupt);
    let mut cut = empty_cut();
    cut.columns.push(ColumnRow {
        id: animstudio::ids::ColumnId(3),
        name: "A".to_string(),
        cells: vec![(0, "drawing".to_string(), Some(DrawingId(9)))],
    });
    assert_eq!(project_from_rows(&one_cut(cut)).unwrap_err(), EngineError::Corrupt);
    let mut cut = empty_cut();
    cut.nodes.push(NodeRow { id: NodeId(4), kind: NodeKind::Output, links: vec![(0, NodeId(5), 0)] });
    cut.nodes.push(NodeRow { id: NodeId(5), kind: NodeKind::Solid { rgba: Rgba8 { r: 0, g: 0, b: 0, a: 0 } }, links: Vec::new() });
    cut.output = Some(NodeId(4));
    let p = project_from_rows(&one_cut(cut)).unwrap();
    assert_eq!(p.scenes[0].cuts[0].graph.nodes[0].inputs, vec![Some((NodeId(5), 0))]);
}
