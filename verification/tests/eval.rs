use animstudio::command::{Command, CutRef};
use animstudio::engine::Engine;
use animstudio::error::EngineError;
use animstudio::eval::Evaluator;
use animstudio::graph::{BlendMode, Node, NodeKind, Rgba8};
use animstudio::ids::{ColumnId, CutId, DrawingId, ImageId, NodeId, SceneId};
use animstudio::model::{Cut, ImageAsset};
use animstudio::raster::TileMap;
use animstudio::value::fnv1a;
use animstudio::xsheet::Exposure;

fn setup() -> (Engine, CutRef, ColumnId) {
    let mut e = Engine::new("eval".to_string());
    let scene = e.add_scene("SC01".to_string());
    let cut = e.add_cut(scene, "C001".to_string(), 24).unwrap();
    let at = CutRef { scene, cut };
    let col = e.add_column(at, "A".to_string()).unwrap();
    (e, at, col)
}

fn none() -> Vec<(u32, String)> {
    Vec::new()
}

fn eval(e: &mut Engine, at: CutRef, frame: u32) -> Result<String, EngineError> {
    e.eval(at.scene, at.cut, frame, &none()).map(|v| v.recipe().to_string())
}

/// Solid -> Output, returning the solid's and the output's ids.
fn solid_out(e: &mut Engine, at: CutRef, c: Rgba8) -> (NodeId, NodeId) {
    let solid = e.alloc_node_id();
    let out = e.alloc_node_id();
    e.apply(
        "graph".to_string(),
        vec![
            Command::AddNode { at, id: solid, kind: NodeKind::Solid { rgba: c } },
            Command::AddNode { at, id: out, kind: NodeKind::Output },
            Command::Connect { at, from: solid, from_pin: 0, to: out, to_pin: 0 },
            Command::SetOutput { at, node: Some(out) },
        ],
    )
    .unwrap();
    (solid, out)
}

#[test]
fn a_cut_without_output_does_not_evaluate() {
    let (mut e, at, _) = setup();
    assert_eq!(eval(&mut e, at, 0), Err(EngineError::NoOutput));
}

#[test]
fn an_unknown_cut_is_refused() {
    let (mut e, at, _) = setup();
    let r = e.eval(at.scene, CutId(999), 0, &none());
    assert_eq!(r.map(|v| v.recipe().to_string()), Err(EngineError::UnknownCut(CutId(999))));
    let r = e.eval(SceneId(999), at.cut, 0, &none());
    assert_eq!(r.map(|v| v.recipe().to_string()), Err(EngineError::UnknownCut(at.cut)));
}

#[test]
fn a_solid_prints_its_colour_in_hex() {
    let (mut e, at, _) = setup();
    solid_out(&mut e, at, Rgba8 { r: 255, g: 128, b: 0, a: 10 });
    let v = e.eval(at.scene, at.cut, 3, &none()).unwrap();
    assert_eq!(v.recipe(), "out(solid(#ff80000a))");
    assert_eq!(v.hash(), fnv1a("out(solid(#ff80000a))".as_bytes()));
}

#[test]
fn an_unwired_input_evaluates_as_empty() {
    let (mut e, at, _) = setup();
    let (solid, out) = solid_out(&mut e, at, Rgba8 { r: 1, g: 2, b: 3, a: 4 });
    let blend = e.alloc_node_id();
    e.apply(
        "blend".to_string(),
        vec![
            Command::AddNode { at, id: blend, kind: NodeKind::Blend { mode: BlendMode::Multiply } },
            Command::Connect { at, from: solid, from_pin: 0, to: blend, to_pin: 0 },
            Command::Connect { at, from: blend, from_pin: 0, to: out, to_pin: 0 },
        ],
    )
    .unwrap();
    assert_eq!(eval(&mut e, at, 0).unwrap(), "out(blend(Multiply, solid(#01020304), empty))");
}

#[test]
fn a_drawing_source_follows_the_sheet_with_holds() {
    let (mut e, at, col) = setup();
    let d = e.alloc_drawing_id();
    let src = e.alloc_node_id();
    let out = e.alloc_node_id();
    e.apply(
        "graph".to_string(),
        vec![
            Command::AddDrawing { at, id: d, name: "A1".to_string(), strokes: Vec::new(), layers: Vec::new() },
            Command::SetCell { at, column: col, frame: 2, key: Some(Exposure::Drawing(d)) },
            Command::SetCell { at, column: col, frame: 6, key: Some(Exposure::Empty) },
            Command::AddNode { at, id: src, kind: NodeKind::DrawingSource { column: col } },
            Command::AddNode { at, id: out, kind: NodeKind::Output },
            Command::Connect { at, from: src, from_pin: 0, to: out, to_pin: 0 },
            Command::SetOutput { at, node: Some(out) },
        ],
    )
    .unwrap();
    let hash = e.project.cut(at.scene, at.cut).unwrap().drawing(d).unwrap().content_hash();
    let want = format!("out(drawing(D{}:'A1'#{:016x}))", d.0, hash);
    assert_eq!(eval(&mut e, at, 0).unwrap(), "out(empty)");
    assert_eq!(eval(&mut e, at, 2).unwrap(), want);
    assert_eq!(eval(&mut e, at, 5).unwrap(), want);
    assert_eq!(eval(&mut e, at, 6).unwrap(), "out(empty)");
}

#[test]
fn a_source_on_a_missing_column_is_an_error() {
    let (mut e, at, _) = setup();
    let src = e.alloc_node_id();
    let out = e.alloc_node_id();
    e.apply(
        "graph".to_string(),
        vec![
            Command::AddNode { at, id: src, kind: NodeKind::DrawingSource { column: ColumnId(4242) } },
            Command::AddNode { at, id: out, kind: NodeKind::Output },
            Command::Connect { at, from: src, from_pin: 0, to: out, to_pin: 0 },
            Command::SetOutput { at, node: Some(out) },
        ],
    )
    .unwrap();
    assert_eq!(eval(&mut e, at, 0), Err(EngineError::UnknownColumn(ColumnId(4242))));
}

#[test]
fn a_transform_prints_the_numbers_it_is_given() {
    let (mut e, at, _) = setup();
    let (solid, out) = solid_out(&mut e, at, Rgba8 { r: 0, g: 0, b: 0, a: 255 });
    let xf = e.alloc_node_id();
    let (tx, ty, s, r) = (1.5f32.to_bits(), (-2.0f32).to_bits(), 0.25f32.to_bits(), 90.0f32.to_bits());
    e.apply(
        "xform".to_string(),
        vec![
            Command::AddNode {
                at,
                id: xf,
                kind: NodeKind::Transform { translate_x: tx, translate_y: ty, scale: s, rotate_deg: r },
            },
            Command::Connect { at, from: solid, from_pin: 0, to: xf, to_pin: 0 },
            Command::Connect { at, from: xf, from_pin: 0, to: out, to_pin: 0 },
        ],
    )
    .unwrap();
    let decimals: Vec<(u32, String)> =
        [tx, ty, s, r].iter().map(|&b| (b, format!("{:.3}", f32::from_bits(b)))).collect();
    let v = e.eval(at.scene, at.cut, 0, &decimals).unwrap();
    assert_eq!(v.recipe(), "out(xform(t=(1.500,-2.000),s=0.250,r=90.000, solid(#000000ff)))");
}

#[test]
fn values_are_memoized_per_node_and_frame() {
    let mut cut = Cut::new(CutId(1), "C".to_string(), 24);
    let solid = NodeId(10);
    let out = NodeId(11);
    cut.graph.add_node(Node::new(solid, NodeKind::Solid { rgba: Rgba8 { r: 9, g: 9, b: 9, a: 9 } }));
    cut.graph.add_node(Node::new(out, NodeKind::Output));
    cut.graph.connect(solid, 0, out, 0).unwrap();
    cut.graph.set_output(Some(out)).unwrap();
    let mut ev = Evaluator::new();
    let a = ev.eval(&cut, 0, &none()).unwrap();
    assert_eq!(ev.stats.computed, 2);
    assert_eq!(ev.stats.cache_hits, 0);
    assert_eq!(ev.cached_entries(), 2);
    let b = ev.eval(&cut, 0, &none()).unwrap();
    assert_eq!(a.recipe(), b.recipe());
    assert_eq!(ev.stats.computed, 2);
    assert_eq!(ev.stats.cache_hits, 1);
    ev.eval(&cut, 1, &none()).unwrap();
    assert_eq!(ev.stats.computed, 4);
    assert_eq!(ev.cached_entries(), 4);
    ev.invalidate_nodes(&vec![out]);
    assert_eq!(ev.cached_entries(), 2);
    ev.eval(&cut, 0, &none()).unwrap();
    assert_eq!(ev.stats.computed, 5);
    assert_eq!(ev.stats.cache_hits, 2);
}

#[test]
fn an_image_source_folds_the_asset_content_hash() {
    let mut cut = Cut::new(CutId(1), "C".to_string(), 24);
    let img = ImageId(7);
    cut.images.push(ImageAsset {
        id: img,
        name: "bg".to_string(),
        width: 1,
        height: 1,
        bytes: vec![1, 2, 3],
        tiles: TileMap::new(),
        content_hash: fnv1a(&[1, 2, 3]),
    });
    let src = NodeId(20);
    let missing = NodeId(21);
    let blend = NodeId(22);
    let out = NodeId(23);
    cut.graph.add_node(Node::new(src, NodeKind::ImageSource { image: img }));
    cut.graph.add_node(Node::new(missing, NodeKind::ImageSource { image: ImageId(8) }));
    cut.graph.add_node(Node::new(blend, NodeKind::Blend { mode: BlendMode::Screen }));
    cut.graph.add_node(Node::new(out, NodeKind::Output));
    cut.graph.connect(src, 0, blend, 0).unwrap();
    cut.graph.connect(missing, 0, blend, 1).unwrap();
    cut.graph.connect(blend, 0, out, 0).unwrap();
    cut.graph.set_output(Some(out)).unwrap();
    let mut ev = Evaluator::new();
    let v = ev.eval(&cut, 0, &none()).unwrap();
    let want = format!("out(blend(Screen, image(I7:'bg'#{:016x}), image(I8:?)))", fnv1a(&[1, 2, 3]));
    assert_eq!(v.recipe(), want);
}

#[test]
fn editing_the_sheet_changes_what_the_output_shows() {
    let (mut e, at, col) = setup();
    let d1 = e.alloc_drawing_id();
    let d2 = e.alloc_drawing_id();
    let src = e.alloc_node_id();
    let out = e.alloc_node_id();
    e.apply(
        "graph".to_string(),
        vec![
            Command::AddDrawing { at, id: d1, name: "A1".to_string(), strokes: Vec::new(), layers: Vec::new() },
            Command::AddDrawing { at, id: d2, name: "A2".to_string(), strokes: Vec::new(), layers: Vec::new() },
            Command::SetCell { at, column: col, frame: 0, key: Some(Exposure::Drawing(d1)) },
            Command::AddNode { at, id: src, kind: NodeKind::DrawingSource { column: col } },
            Command::AddNode { at, id: out, kind: NodeKind::Output },
            Command::Connect { at, from: src, from_pin: 0, to: out, to_pin: 0 },
            Command::SetOutput { at, node: Some(out) },
        ],
    )
    .unwrap();
    assert!(eval(&mut e, at, 0).unwrap().contains("'A1'"));
    e.apply("swap".to_string(), vec![Command::SetCell { at, column: col, frame: 0, key: Some(Exposure::Drawing(d2)) }])
        .unwrap();
    assert!(eval(&mut e, at, 0).unwrap().contains("'A2'"));
    e.undo().unwrap();
    assert!(eval(&mut e, at, 0).unwrap().contains("'A1'"));
}

#[test]
fn a_missing_decimal_prints_nothing() {
    let mut cut = Cut::new(CutId(1), "C".to_string(), 24);
    let xf = NodeId(30);
    let out = NodeId(31);
    cut.graph.add_node(Node::new(xf, NodeKind::Transform { translate_x: 0, translate_y: 0, scale: 0, rotate_deg: 0 }));
    cut.graph.add_node(Node::new(out, NodeKind::Output));
    cut.graph.connect(xf, 0, out, 0).unwrap();
    cut.graph.set_output(Some(out)).unwrap();
    let mut ev = Evaluator::new();
    let v = ev.eval(&cut, 0, &vec![(0, "0.000".to_string())]).unwrap();
    assert_eq!(v.recipe(), "out(xform(t=(0.000,0.000),s=0.000,r=0.000, empty))");
    let mut ev = Evaluator::new();
    let v = ev.eval(&cut, 0, &none()).unwrap();
    assert_eq!(v.recipe(), "out(xform(t=(,),s=,r=, empty))");
}

#[test]
fn an_edit_drops_only_what_is_downstream_of_it() {
    let (mut e, at, col) = setup();
    let d1 = e.alloc_drawing_id();
    let solid = e.alloc_node_id();
    let src = e.alloc_node_id();
    let blend = e.alloc_node_id();
    let out = e.alloc_node_id();
    e.apply(
        "graph".to_string(),
        vec![
            Command::AddDrawing { at, id: d1, name: "A1".to_string(), strokes: Vec::new(), layers: Vec::new() },
            Command::AddNode { at, id: solid, kind: NodeKind::Solid { rgba: Rgba8 { r: 0, g: 0, b: 0, a: 255 } } },
            Command::AddNode { at, id: src, kind: NodeKind::DrawingSource { column: col } },
            Command::AddNode { at, id: blend, kind: NodeKind::Blend { mode: BlendMode::Normal } },
            Command::AddNode { at, id: out, kind: NodeKind::Output },
            Command::Connect { at, from: solid, from_pin: 0, to: blend, to_pin: 0 },
            Command::Connect { at, from: src, from_pin: 0, to: blend, to_pin: 1 },
            Command::Connect { at, from: blend, from_pin: 0, to: out, to_pin: 0 },
            Command::SetOutput { at, node: Some(out) },
        ],
    )
    .unwrap();
    assert_eq!(eval(&mut e, at, 0).unwrap(), "out(blend(Normal, solid(#000000ff), empty))");
    assert_eq!(e.evaluator.stats.computed, 4);
    assert_eq!(e.evaluator.cached_entries(), 4);
    e.apply("expose".to_string(), vec![Command::SetCell { at, column: col, frame: 0, key: Some(Exposure::Drawing(d1)) }])
        .unwrap();
    // The solid is not downstream of the sheet: its value stays memoized.
    assert_eq!(e.evaluator.cached_entries(), 1);
    let v = eval(&mut e, at, 0).unwrap();
    assert!(v.starts_with("out(blend(Normal, solid(#000000ff), drawing(D"));
    assert_eq!(e.evaluator.stats.computed, 7);
    assert_eq!(e.evaluator.stats.cache_hits, 1);
}
