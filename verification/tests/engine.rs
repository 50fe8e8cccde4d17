use animstudio::command::{Command, CutRef};
use animstudio::engine::Engine;
use animstudio::error::{CommandFault, EngineError};
use animstudio::eval::Evaluator;
use animstudio::graph::{BlendMode, NodeKind, Rgba8};
use animstudio::ids::{ColumnId, DrawingId, LayerId, NodeId};
use animstudio::model::{CelLayer, Drawing, Stroke, StrokePoint};
use animstudio::raster::{RasterLayer, TileData, TILE_LEN};
use animstudio::value::{fnv1a, Value};
use animstudio::xsheet::{Column, Exposure};

fn setup() -> (Engine, CutRef, ColumnId) {
    let mut e = Engine::new("test".to_string());
    let scene = e.add_scene("SC01".to_string());
    let cut = e.add_cut(scene, "C001".to_string(), 24).unwrap();
    let at = CutRef { scene, cut };
    let col = e.add_column(at, "A".to_string()).unwrap();
    (e, at, col)
}

fn add_drawing(at: CutRef, id: DrawingId, name: &str) -> Command {
    Command::AddDrawing { at, id, name: name.to_string(), strokes: Vec::new(), layers: Vec::new() }
}

fn stroke() -> Stroke {
    Stroke {
        points: vec![StrokePoint { x: 1, y: 2, pressure: 0x3f00_0000, tilt_x: 0, tilt_y: 0 }],
        base_width: 0x4000_0000,
        color: Rgba8 { r: 0, g: 0, b: 0, a: 255 },
    }
}

fn drawings(e: &Engine, at: CutRef) -> Vec<(u64, String, usize)> {
    let cut = e.project.cut(at.scene, at.cut).unwrap();
    cut.drawings.iter().map(|d| (d.id.0, d.name.clone(), d.strokes.len())).collect()
}

fn exposure(e: &Engine, at: CutRef, col: ColumnId, frame: u32) -> Option<DrawingId> {
    let cut = e.project.cut(at.scene, at.cut).unwrap();
    cut.xsheet.column(col).unwrap().resolve(frame)
}

#[test]
fn ids_are_allocated_in_order() {
    let (mut e, at, col) = setup();
    assert_eq!(at.scene.0, 1);
    assert_eq!(at.cut.0, 2);
    assert_eq!(col.0, 3);
    assert_eq!(e.alloc_drawing_id(), DrawingId(4));
    assert_eq!(e.alloc_node_id(), NodeId(5));
    assert_eq!(e.alloc_layer_id(), LayerId(6));
}

#[test]
fn unknown_places_are_refused() {
    let (mut e, at, _) = setup();
    let bogus = CutRef { scene: at.scene, cut: animstudio::ids::CutId(999) };
    assert_eq!(e.add_column(bogus, "X".to_string()), Err(EngineError::UnknownCut(bogus.cut)));
    let bad_scene = animstudio::ids::SceneId(77);
    assert_eq!(e.add_cut(bad_scene, "x".to_string(), 1), Err(EngineError::UnknownScene(bad_scene)));
}

#[test]
fn undo_restores_and_redo_reapplies() {
    let (mut e, at, col) = setup();
    let d = e.alloc_drawing_id();
    e.apply("draw".to_string(), vec![add_drawing(at, d, "A1")]).unwrap();
    e.apply(
        "expose".to_string(),
        vec![Command::SetCell { at, column: col, frame: 0, key: Some(Exposure::Drawing(d)) }],
    )
    .unwrap();
    assert_eq!(exposure(&e, at, col, 10), Some(d));
    e.undo().unwrap();
    assert_eq!(exposure(&e, at, col, 10), None);
    assert_eq!(drawings(&e, at), vec![(d.0, "A1".to_string(), 0)]);
    e.undo().unwrap();
    assert!(drawings(&e, at).is_empty());
    assert!(!e.can_undo());
    assert_eq!(e.undo(), Err(EngineError::NothingToUndo));
    e.redo().unwrap();
    e.redo().unwrap();
    assert_eq!(exposure(&e, at, col, 3), Some(d));
    assert_eq!(e.redo(), Err(EngineError::NothingToRedo));
}

#[test]
fn a_refused_batch_changes_nothing() {
    let (mut e, at, _) = setup();
    let d = e.alloc_drawing_id();
    let r = e.apply(
        "bad".to_string(),
        vec![add_drawing(at, d, "A1"), Command::PopStroke { at, id: d }],
    );
    assert_eq!(
        r,
        Err(EngineError::BatchFailed {
            index: 1,
            cause: Box::new(EngineError::InvalidCommand(CommandFault::NoStrokesToPop(d))),
        })
    );
    assert!(drawings(&e, at).is_empty());
    assert!(!e.can_undo());
}

#[test]
fn duplicate_ids_are_refused() {
    let (mut e, at, _) = setup();
    let d = e.alloc_drawing_id();
    e.apply("a".to_string(), vec![add_drawing(at, d, "A1")]).unwrap();
    let r = e.apply("b".to_string(), vec![add_drawing(at, d, "again")]);
    assert_eq!(
        r,
        Err(EngineError::BatchFailed {
            index: 0,
            cause: Box::new(EngineError::InvalidCommand(CommandFault::DrawingExists(d))),
        })
    );
}

#[test]
fn strokes_push_and_pop() {
    let (mut e, at, _) = setup();
    let d = e.alloc_drawing_id();
    e.apply("a".to_string(), vec![add_drawing(at, d, "A1")]).unwrap();
    e.apply("s".to_string(), vec![Command::AddStroke { at, id: d, stroke: stroke() }]).unwrap();
    e.apply("s".to_string(), vec![Command::AddStroke { at, id: d, stroke: stroke() }]).unwrap();
    assert_eq!(drawings(&e, at)[0].2, 2);
    e.undo().unwrap();
    assert_eq!(drawings(&e, at)[0].2, 1);
    let missing = DrawingId(999);
    assert_eq!(
        e.apply("x".to_string(), vec![Command::AddStroke { at, id: missing, stroke: stroke() }]),
        Err(EngineError::BatchFailed { index: 0, cause: Box::new(EngineError::UnknownDrawing(missing)) })
    );
}

#[test]
fn removing_a_drawing_is_undone_with_its_artwork() {
    let (mut e, at, _) = setup();
    let d = e.alloc_drawing_id();
    e.apply("a".to_string(), vec![add_drawing(at, d, "A1")]).unwrap();
    e.apply("s".to_string(), vec![Command::AddStroke { at, id: d, stroke: stroke() }]).unwrap();
    e.apply("rm".to_string(), vec![Command::RemoveDrawing { at, id: d }]).unwrap();
    assert!(drawings(&e, at).is_empty());
    e.undo().unwrap();
    assert_eq!(drawings(&e, at), vec![(d.0, "A1".to_string(), 1)]);
}

#[test]
fn graph_edits_refuse_cycles_and_undo() {
    let (mut e, at, col) = setup();
    let src = e.alloc_node_id();
    let blend = e.alloc_node_id();
    let out = e.alloc_node_id();
    e.apply(
        "graph".to_string(),
        vec![
            Command::AddNode { at, id: src, kind: NodeKind::DrawingSource { column: col } },
            Command::AddNode { at, id: blend, kind: NodeKind::Blend { mode: BlendMode::Normal } },
            Command::AddNode { at, id: out, kind: NodeKind::Output },
            Command::Connect { at, from: src, from_pin: 0, to: blend, to_pin: 0 },
            Command::Connect { at, from: blend, from_pin: 0, to: out, to_pin: 0 },
            Command::SetOutput { at, node: Some(out) },
        ],
    )
    .unwrap();
    let r = e.apply("loop".to_string(), vec![Command::Connect { at, from: out, from_pin: 0, to: blend, to_pin: 1 }]);
    assert_eq!(
        r,
        Err(EngineError::BatchFailed { index: 0, cause: Box::new(EngineError::WouldCycle { from: out, to: blend }) })
    );
    let r = e.apply("pin".to_string(), vec![Command::Connect { at, from: src, from_pin: 0, to: out, to_pin: 3 }]);
    assert_eq!(
        r,
        Err(EngineError::BatchFailed { index: 0, cause: Box::new(EngineError::PinOutOfRange { node: out, pin: 3 }) })
    );
    e.apply("rm".to_string(), vec![Command::RemoveNode { at, id: blend }]).unwrap();
    let cut = e.project.cut(at.scene, at.cut).unwrap();
    assert_eq!(cut.graph.nodes.len(), 2);
    e.undo().unwrap();
    let cut = e.project.cut(at.scene, at.cut).unwrap();
    assert_eq!(cut.graph.nodes.len(), 3);
    let node = cut.graph.node(out).unwrap();
    assert_eq!(node.inputs, vec![Some((blend, 0))]);
    assert_eq!(cut.graph.output, Some(out));
}

#[test]
fn painting_tiles_is_one_exact_undo_step() {
    let (mut e, at, _) = setup();
    let d = e.alloc_drawing_id();
    let layer = e.alloc_layer_id();
    let mut dr = Drawing::new(d, "A1".to_string());
    dr.layers.push(CelLayer::new(layer, "line".to_string()));
    e.apply(
        "a".to_string(),
        vec![Command::AddDrawing { at, id: d, name: dr.name.clone(), strokes: Vec::new(), layers: dr.layers }],
    )
    .unwrap();
    let mut texels = vec![0u16; TILE_LEN];
    texels[3] = 0x3c00;
    let tile = TileData::from_vec(texels);
    e.apply(
        "paint".to_string(),
        vec![Command::PaintTiles { at, id: d, layer, diff: vec![((0, 0), None, Some(tile))] }],
    )
    .unwrap();
    let painted = {
        let cut = e.project.cut(at.scene, at.cut).unwrap();
        let dr = cut.drawing(d).unwrap();
        dr.layers[0].raster.tiles.len()
    };
    assert_eq!(painted, 1);
    e.undo().unwrap();
    let cut = e.project.cut(at.scene, at.cut).unwrap();
    let dr = cut.drawing(d).unwrap();
    assert_eq!(dr.layers[0].raster.tiles.len(), 0);
    assert_eq!(dr.layers[0].raster.content_hash(), RasterLayer::empty().content_hash());
}

#[test]
fn undo_limit_trims_the_oldest_steps() {
    let (mut e, at, col) = setup();
    e.set_undo_limit(2);
    for f in 0..4u32 {
        e.apply(
            "k".to_string(),
            vec![Command::SetCell { at, column: col, frame: f, key: Some(Exposure::Empty) }],
        )
        .unwrap();
    }
    assert_eq!(e.undo_depth_by(None), 2);
    e.undo().unwrap();
    e.undo().unwrap();
    assert_eq!(e.undo(), Err(EngineError::NothingToUndo));
}

#[test]
fn per_artist_undo_takes_only_their_last_step() {
    let (mut e, at, col) = setup();
    e.set_author(Some("ami".to_string()));
    e.apply("ami".to_string(), vec![Command::SetCell { at, column: col, frame: 0, key: Some(Exposure::Empty) }])
        .unwrap();
    e.set_author(Some("kai".to_string()));
    e.apply("kai".to_string(), vec![Command::SetCell { at, column: col, frame: 5, key: Some(Exposure::Empty) }])
        .unwrap();
    assert_eq!(e.undo_depth_by(Some("ami")), 1);
    assert_eq!(e.undo_last_by(Some("ami")).unwrap(), "ami");
    let cut = e.project.cut(at.scene, at.cut).unwrap();
    let column = cut.xsheet.column(col).unwrap();
    assert_eq!(column.key_at(0), None);
    assert_eq!(column.key_at(5), Some(Exposure::Empty));
    assert_eq!(e.redo_last_by(Some("ami")).unwrap(), "ami");
    assert_eq!(e.undo_depth_by(Some("ami")), 1);
}

#[test]
fn mirrored_batches_are_logged_and_replayed() {
    let (mut host, at, col) = setup();
    let (mut guest, _, _) = setup();
    host.mirror_log = true;
    let cmds = vec![Command::SetCell { at, column: col, frame: 2, key: Some(Exposure::Empty) }];
    host.apply("k".to_string(), cmds).unwrap();
    let log = host.drain_applied();
    assert_eq!(log.len(), 1);
    assert!(host.drain_applied().is_empty());
    guest.apply_mirror(&log[0]).unwrap();
    let cut = guest.project.cut(at.scene, at.cut).unwrap();
    assert_eq!(cut.xsheet.column(col).unwrap().key_at(2), Some(Exposure::Empty));
    assert!(!guest.can_undo());
}

#[test]
fn columns_hold_their_keys() {
    let mut c = Column::new(ColumnId(1), "A".to_string());
    assert_eq!(c.set_key(0, Exposure::Drawing(DrawingId(7))), None);
    assert_eq!(c.set_key(6, Exposure::Empty), None);
    assert_eq!(c.resolve(5), Some(DrawingId(7)));
    assert_eq!(c.resolve(6), None);
    assert_eq!(c.clear_key(6), Some(Exposure::Empty));
    assert_eq!(c.resolve(100), Some(DrawingId(7)));
    assert_eq!(c.key_at(0), Some(Exposure::Drawing(DrawingId(7))));
}

#[test]
fn values_hash_their_recipes() {
    let v = Value::image("empty".to_string());
    assert_eq!(v.recipe(), "empty");
    assert_eq!(v.hash(), fnv1a(b"empty"));
    // FNV-1a reference values.
    assert_eq!(fnv1a(b""), 0xcbf29ce484222325);
    assert_eq!(fnv1a(b"a"), 0xaf63dc4c8601ec8c);
    let ev = Evaluator::new();
    assert_eq!(ev.cached_entries(), 0);
    assert_eq!((ev.stats.computed, ev.stats.cache_hits), (0, 0));
}

#[test]
fn an_artist_cannot_undo_under_a_later_stroke_on_the_same_layer() {
    let (mut e, at, _) = setup();
    let d = e.alloc_drawing_id();
    let layer = e.alloc_layer_id();
    e.apply(
        "a".to_string(),
        vec![Command::AddDrawing {
            at,
            id: d,
            name: "A1".to_string(),
            strokes: Vec::new(),
            layers: vec![CelLayer::new(layer, "line".to_string())],
        }],
    )
    .unwrap();
    let tile = |v: u16| {
        let mut t = vec![0u16; TILE_LEN];
        t[3] = v;
        TileData::from_vec(t)
    };
    e.set_author(Some("ami".to_string()));
    e.apply("ami paints".to_string(), vec![Command::PaintTiles { at, id: d, layer, diff: vec![((0, 0), None, Some(tile(0x3c00)))] }])
        .unwrap();
    e.set_author(Some("kai".to_string()));
    e.apply(
        "kai paints".to_string(),
        vec![Command::PaintTiles { at, id: d, layer, diff: vec![((1, 0), None, Some(tile(0x3800)))] }],
    )
    .unwrap();
    assert_eq!(
        e.undo_last_by(Some("ami")),
        Err(EngineError::InvalidCommand(CommandFault::LaterEditTouchesLayer))
    );
    assert_eq!(e.undo_last_by(Some("kai")).unwrap(), "kai paints");
    assert_eq!(e.undo_last_by(Some("ami")).unwrap(), "ami paints");
    assert_eq!(e.undo_last_by(Some("zed")), Err(EngineError::NothingToUndo));
    let unknown = LayerId(999);
    assert_eq!(
        e.apply("x".to_string(), vec![Command::PaintTiles { at, id: d, layer: unknown, diff: Vec::new() }]),
        Err(EngineError::BatchFailed { index: 0, cause: Box::new(EngineError::UnknownLayer(unknown)) })
    );
}

#[test]
fn undoing_a_removal_puts_the_drawing_back_in_its_place() {
    let (mut e, at, col) = setup();
    let a = e.alloc_drawing_id();
    let b = e.alloc_drawing_id();
    let c = e.alloc_drawing_id();
    e.apply("abc".to_string(), vec![add_drawing(at, a, "A"), add_drawing(at, b, "B"), add_drawing(at, c, "C")]).unwrap();
    e.apply("key".to_string(), vec![Command::SetCell { at, column: col, frame: 2, key: Some(Exposure::Drawing(b)) }])
        .unwrap();
    e.apply("rm".to_string(), vec![Command::RemoveDrawing { at, id: b }]).unwrap();
    let names: Vec<String> = drawings(&e, at).into_iter().map(|d| d.1).collect();
    assert_eq!(names, vec!["A".to_string(), "C".to_string()]);
    assert_eq!(exposure(&e, at, col, 2), None);
    e.undo().unwrap();
    let names: Vec<String> = drawings(&e, at).into_iter().map(|d| d.1).collect();
    assert_eq!(names, vec!["A".to_string(), "B".to_string(), "C".to_string()]);
    assert_eq!(exposure(&e, at, col, 2), Some(b));
    e.redo().unwrap();
    let names: Vec<String> = drawings(&e, at).into_iter().map(|d| d.1).collect();
    assert_eq!(names, vec!["A".to_string(), "C".to_string()]);
}

#[test]
fn a_refused_batch_keeps_the_drawing_order() {
    let (mut e, at, _) = setup();
    let a = e.alloc_drawing_id();
    let b = e.alloc_drawing_id();
    e.apply("ab".to_string(), vec![add_drawing(at, a, "A"), add_drawing(at, b, "B")]).unwrap();
    let missing = DrawingId(999);
    let r = e.apply(
        "bad".to_string(),
        vec![Command::RemoveDrawing { at, id: a }, Command::RemoveDrawing { at, id: missing }],
    );
    assert_eq!(r, Err(EngineError::BatchFailed { index: 1, cause: Box::new(EngineError::UnknownDrawing(missing)) }));
    let names: Vec<String> = drawings(&e, at).into_iter().map(|d| d.1).collect();
    assert_eq!(names, vec!["A".to_string(), "B".to_string()]);
}

#[test]
fn an_insertion_lands_at_its_index_or_last() {
    let (mut e, at, _) = setup();
    let a = e.alloc_drawing_id();
    let b = e.alloc_drawing_id();
    let c = e.alloc_drawing_id();
    let d = e.alloc_drawing_id();
    e.apply("ab".to_string(), vec![add_drawing(at, a, "A"), add_drawing(at, b, "B")]).unwrap();
    let ins = |id: DrawingId, index: usize, name: &str| Command::InsertDrawing {
        at,
        id,
        index,
        name: name.to_string(),
        strokes: Vec::new(),
        layers: Vec::new(),
    };
    e.apply("c".to_string(), vec![ins(c, 1, "C")]).unwrap();
    e.apply("d".to_string(), vec![ins(d, 99, "D")]).unwrap();
    let names: Vec<String> = drawings(&e, at).into_iter().map(|x| x.1).collect();
    assert_eq!(names, vec!["A".to_string(), "C".to_string(), "B".to_string(), "D".to_string()]);
    assert_eq!(
        e.apply("again".to_string(), vec![ins(a, 0, "A2")]),
        Err(EngineError::BatchFailed {
            index: 0,
            cause: Box::new(EngineError::InvalidCommand(CommandFault::DrawingExists(a)))
        })
    );
    e.undo().unwrap();
    let names: Vec<String> = drawings(&e, at).into_iter().map(|x| x.1).collect();
    assert_eq!(names, vec!["A".to_string(), "C".to_string(), "B".to_string()]);
}

#[test]
fn errors_read_as_the_user_sees_them() {
    let (mut e, at, _) = setup();
    let a = e.alloc_drawing_id();
    e.apply("a".to_string(), vec![add_drawing(at, a, "A")]).unwrap();
    let missing = DrawingId(999);
    let r = e.apply(
        "bad".to_string(),
        vec![Command::AddStroke { at, id: a, stroke: stroke() }, Command::RemoveDrawing { at, id: missing }],
    );
    assert_eq!(r.unwrap_err().message(), "invalid command: batch failed at command 1: unknown drawing D999");
    let r = e.apply("again".to_string(), vec![add_drawing(at, a, "A")]);
    assert_eq!(
        r.unwrap_err().message(),
        format!("invalid command: batch failed at command 0: invalid command: drawing D{} already exists", a.0)
    );
    assert_eq!(EngineError::NoOutput.message(), "cut has no output node set");
    assert_eq!(
        EngineError::WouldCycle { from: NodeId(3), to: NodeId(12) }.message(),
        "connecting N3 -> N12 would create a cycle"
    );
    assert_eq!(EngineError::PinOutOfRange { node: NodeId(7), pin: 2 }.message(), "pin 2 out of range for node N7");
    assert_eq!(EngineError::UnknownColumn(ColumnId(5)).message(), "unknown column C5");
    assert_eq!(EngineError::UnknownLayer(LayerId(8)).message(), "unknown cel layer L8");
    assert_eq!(EngineError::SchemaVersion(-3).message(), "unsupported project schema version -3");
    assert_eq!(EngineError::SchemaVersion(i64::MIN).message(), "unsupported project schema version -9223372036854775808");
    assert_eq!(
        EngineError::InvalidCommand(CommandFault::NoStrokesToPop(DrawingId(4))).message(),
        "invalid command: drawing D4 has no strokes to pop"
    );
    assert_eq!(
        EngineError::InvalidCommand(CommandFault::LaterEditTouchesLayer).message(),
        "invalid command: a later edit touches the same layer \u{2014} undo refused"
    );
    assert_eq!(EngineError::NothingToUndo.message(), "nothing to undo");
}
