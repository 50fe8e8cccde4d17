use animstudio::command::CutRef;
use animstudio::engine::Engine;
use animstudio::error::EngineError;
use animstudio::graph::{Graph, Node, NodeKind, Rgba8};
use animstudio::ids::{ColumnId, CutId, DrawingId, LayerId, NodeId, ParamId, SceneId};
use animstudio::model::{CelLayer, Drawing};

fn engine() -> (Engine, CutRef, ColumnId, ParamId) {
    let mut e = Engine::new("p".to_string());
    let scene = e.add_scene("SC01".to_string());
    let cut = e.add_cut(scene, "C001".to_string(), 24).unwrap();
    let at = CutRef { scene, cut };
    let col = e.add_column(at, "A".to_string()).unwrap();
    let par = e.add_param_column(at, "opacity".to_string()).unwrap();
    (e, at, col, par)
}

#[test]
fn a_column_and_a_parameter_can_be_edited_in_place() {
    let (mut e, at, col, par) = engine();
    let cut = e.project.cut_mut(at.scene, at.cut).unwrap();
    cut.xsheet.column_mut(col).unwrap().name = "B".to_string();
    cut.xsheet.param_mut(par).unwrap().name = "alpha".to_string();
    assert!(cut.xsheet.column_mut(ColumnId(999)).is_none());
    assert!(cut.xsheet.param_mut(ParamId(999)).is_none());
    let cut = e.project.cut(at.scene, at.cut).unwrap();
    assert_eq!(cut.xsheet.column(col).unwrap().name, "B");
    assert_eq!(cut.xsheet.param(par).unwrap().name, "alpha");
}

#[test]
fn scenes_and_cuts_can_be_edited_in_place() {
    let (mut e, at, _, _) = engine();
    e.project.scene_mut(at.scene).unwrap().name = "SC99".to_string();
    assert_eq!(e.project.scene(at.scene).unwrap().name, "SC99");
    assert!(e.project.scene_mut(SceneId(12345)).is_none());
    e.project.cut_mut(at.scene, at.cut).unwrap().frame_count = 48;
    assert_eq!(e.project.cut(at.scene, at.cut).unwrap().frame_count, 48);
    assert!(e.project.cut_mut(at.scene, CutId(12345)).is_none());
    assert!(e.project.cut_mut(SceneId(12345), at.cut).is_none());
}

#[test]
fn a_layer_can_be_edited_in_place() {
    let mut d = Drawing::new(DrawingId(1), "A1".to_string());
    d.layers.push(CelLayer::new(LayerId(2), "ink".to_string()));
    d.layer_mut(LayerId(2)).unwrap().props.visible = false;
    assert!(!d.layer(LayerId(2)).unwrap().props.visible);
    assert!(d.layer_mut(LayerId(3)).is_none());
}

#[test]
fn a_node_can_be_edited_in_place() {
    let mut g = Graph::new();
    g.add_node(Node::new(NodeId(5), NodeKind::Output));
    let solid = NodeKind::Solid { rgba: Rgba8 { r: 1, g: 2, b: 3, a: 4 } };
    g.node_mut(NodeId(5)).unwrap().kind = solid;
    assert_eq!(g.node(NodeId(5)).unwrap().kind, solid);
    assert_eq!(g.node_mut(NodeId(6)).err(), Some(EngineError::UnknownNode(NodeId(6))));
}
