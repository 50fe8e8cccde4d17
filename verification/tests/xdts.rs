use animstudio::xdts::{export, parse, sheet_json, xdts_column, xdts_tracks};
use animstudio::command::{Command, CutRef};
use animstudio::engine::Engine;
use animstudio::xsheet::Exposure;

#[test]
fn the_signature_line_is_optional() {
    assert_eq!(sheet_json("exchangeDigitalTimeSheet Save Data\n{\"a\":1}"), "{\"a\":1}");
    assert_eq!(sheet_json("  exchangeDigitalTimeSheet Save Data \r\n{}"), "{}");
    assert_eq!(sheet_json("{\"a\":1}"), "{\"a\":1}");
    assert_eq!(sheet_json("something else\n{}"), "something else\n{}");
}

#[test]
fn imported_tracks_sort_stably_and_skip_annotations() {
    let items: Vec<(u32, String)> = vec![
        (6, "2".to_string()),
        (0, "1".to_string()),
        (3, "SYMBOL_TICK_1".to_string()),
        (6, "SYMBOL_NULL_CELL".to_string()),
        (2, "SYMBOL_HYPHEN".to_string()),
        (0, "1a".to_string()),
    ];
    let names = vec!["A".to_string(), String::new()];
    let a = xdts_column(0, &names, &items);
    assert_eq!(a.name, "A");
    assert_eq!(
        a.keys,
        vec![
            (0, Some("1".to_string())),
            (0, Some("1a".to_string())),
            (6, Some("2".to_string())),
            (6, None),
        ]
    );
    assert_eq!(xdts_column(1, &names, &items).name, "T2");
    assert_eq!(xdts_column(7, &names, &Vec::new()).name, "T8");
}

#[test]
fn exported_tracks_number_drawings_by_library_position() {
    let mut e = Engine::new("p".to_string());
    let scene = e.add_scene("SC01".to_string());
    let cut = e.add_cut(scene, "C001".to_string(), 24).unwrap();
    let at = CutRef { scene, cut };
    let col = e.add_column(at, "A".to_string()).unwrap();
    let d1 = e.alloc_drawing_id();
    let d2 = e.alloc_drawing_id();
    e.apply(
        "x".to_string(),
        vec![
            Command::AddDrawing { at, id: d1, name: "one".to_string(), strokes: Vec::new(), layers: Vec::new() },
            Command::AddDrawing { at, id: d2, name: "two".to_string(), strokes: Vec::new(), layers: Vec::new() },
            Command::SetCell { at, column: col, frame: 4, key: Some(Exposure::Drawing(d2)) },
            Command::SetCell { at, column: col, frame: 0, key: Some(Exposure::Drawing(d1)) },
            Command::SetCell { at, column: col, frame: 9, key: Some(Exposure::Empty) },
        ],
    )
    .unwrap();
    let c = e.project.cut(scene, cut).unwrap();
    assert_eq!(
        xdts_tracks(c),
        vec![vec![
            (0, "1".to_string()),
            (4, "2".to_string()),
            (9, "SYMBOL_NULL_CELL".to_string()),
        ]]
    );
}

const SAMPLE: &str = "exchangeDigitalTimeSheet Save Data\n{\"header\":{\"cut\":\"1\",\"scene\":\"1\"},\"timeTables\":[{\"name\":\"C001\",\"duration\":24,\"fields\":[{\"fieldId\":3,\"tracks\":[]},{\"fieldId\":0,\"tracks\":[{\"trackNo\":0,\"frames\":[{\"frame\":8,\"data\":[{\"id\":0,\"values\":[\"2\"]}]},{\"frame\":0,\"data\":[{\"id\":0,\"values\":[\"1\"]}]},{\"frame\":4,\"data\":[{\"id\":0,\"values\":[\"SYMBOL_TICK_1\"]}]},{\"frame\":12,\"data\":[{\"id\":0,\"values\":[\"SYMBOL_NULL_CELL\"]}]}]},{\"trackNo\":1,\"frames\":[{\"frame\":2}]}]}],\"timeTableHeaders\":[{\"fieldId\":0,\"names\":[\"BG\"]}]}],\"version\":5}";

#[test]
fn a_sheet_parses_into_named_sorted_columns() {
    let s = parse(SAMPLE).unwrap();
    assert_eq!(s.name, "C001");
    assert_eq!(s.duration, 24);
    assert_eq!(s.columns.len(), 2);
    assert_eq!(s.columns[0].name, "BG");
    assert_eq!(
        s.columns[0].keys,
        vec![(0, Some("1".to_string())), (8, Some("2".to_string())), (12, None)]
    );
    // No header name for the second track; a frame item without data is an
    // explicit empty.
    assert_eq!(s.columns[1].name, "T2");
    assert_eq!(s.columns[1].keys, vec![(2, None)]);
}

#[test]
fn a_sheet_without_signature_or_name_still_parses() {
    let s = parse("{\"timeTables\":[{\"name\":7,\"duration\":3,\"fields\":[{\"fieldId\":0,\"tracks\":[]}]}]}").unwrap();
    assert_eq!(s.name, "XDTS");
    assert_eq!(s.duration, 3);
    assert!(s.columns.is_empty());
}

fn refusal(text: &str) -> String {
    match parse(text) {
        Ok(_) => panic!("parsed"),
        Err(e) => e,
    }
}

#[test]
fn malformed_sheets_are_refused_with_their_reason() {
    assert!(refusal("not json").starts_with("xdts: "));
    assert_eq!(refusal("{}"), "xdts: missing 'timeTables'");
    assert_eq!(refusal("{\"timeTables\":[]}"), "xdts: no timeTables");
    assert_eq!(refusal("{\"timeTables\":[{}]}"), "xdts: missing 'name'");
    assert_eq!(refusal("{\"timeTables\":[{\"name\":\"a\"}]}"), "xdts: missing 'duration'");
    assert_eq!(refusal("{\"timeTables\":[{\"name\":\"a\",\"duration\":-1}]}"), "xdts: bad duration");
    assert_eq!(refusal("{\"timeTables\":[{\"name\":\"a\",\"duration\":1}]}"), "xdts: missing 'fields'");
    assert_eq!(
        refusal("{\"timeTables\":[{\"name\":\"a\",\"duration\":1,\"fields\":[{\"fieldId\":1}]}]}"),
        "xdts: no CELL field"
    );
    assert_eq!(
        refusal("{\"timeTables\":[{\"name\":\"a\",\"duration\":1,\"fields\":[{\"fieldId\":0}]}]}"),
        "xdts: no tracks"
    );
    assert_eq!(
        refusal("{\"timeTables\":[{\"name\":\"a\",\"duration\":1,\"fields\":[{\"fieldId\":0,\"tracks\":[{\"frames\":[{\"data\":[]}]}]}]}]}"),
        "xdts: frame item without 'frame'"
    );
    assert_eq!(
        refusal("{\"timeTables\":[{\"name\":\"a\",\"duration\":0,\"fields\":[{\"fieldId\":0,\"tracks\":[]}]}]}"),
        "xdts: zero duration"
    );
}

#[test]
fn an_exported_sheet_reads_back_its_timing() {
    let mut e = Engine::new("p".to_string());
    let scene = e.add_scene("SC02".to_string());
    let cut = e.add_cut(scene, "C001".to_string(), 24).unwrap();
    let at = CutRef { scene, cut };
    let col = e.add_column(at, "A".to_string()).unwrap();
    let d1 = e.alloc_drawing_id();
    e.apply(
        "x".to_string(),
        vec![
            Command::AddDrawing { at, id: d1, name: "one".to_string(), strokes: Vec::new(), layers: Vec::new() },
            Command::SetCell { at, column: col, frame: 0, key: Some(Exposure::Drawing(d1)) },
            Command::SetCell { at, column: col, frame: 5, key: Some(Exposure::Empty) },
        ],
    )
    .unwrap();
    let c = e.project.cut(scene, cut).unwrap();
    let text = export(c, "SC02");
    assert_eq!(
        text,
        "exchangeDigitalTimeSheet Save Data\n{\"header\":{\"cut\":\"1\",\"scene\":\"2\"},\"timeTables\":[{\"duration\":24,\"fields\":[{\"fieldId\":0,\"tracks\":[{\"frames\":[{\"data\":[{\"id\":0,\"values\":[\"1\"]}],\"frame\":0},{\"data\":[{\"id\":0,\"values\":[\"SYMBOL_NULL_CELL\"]}],\"frame\":5}],\"trackNo\":0}]}],\"name\":\"C001\",\"timeTableHeaders\":[{\"fieldId\":0,\"names\":[\"A\"]}]}],\"version\":5}"
    );
    let s = parse(&text).unwrap();
    assert_eq!(s.name, "C001");
    assert_eq!(s.duration, 24);
    assert_eq!(s.columns.len(), 1);
    assert_eq!(s.columns[0].name, "A");
    assert_eq!(s.columns[0].keys, vec![(0, Some("1".to_string())), (5, None)]);
}
