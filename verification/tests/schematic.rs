use kil_core::board::BoardPoint;
use kil_core::connectivity::Sexp;
use kil_core::lock::canonical_document;
use kil_core::schematic::{schematic_node, LabelFacts, PlacedSymbol, SchematicFacts, SymbolPin};

fn p(x: i64, y: i64) -> BoardPoint {
    BoardPoint { x, y }
}

fn sym(name: &str) -> Sexp {
    Sexp::List(vec![Sexp::Symbol("symbol".into()), Sexp::Quoted(name.into())])
}

fn pin(number: &str, unit: u32) -> SymbolPin {
    SymbolPin { number: number.into(), unit }
}

fn facts(sheets: Vec<String>) -> SchematicFacts {
    SchematicFacts {
        project: "demo".into(),
        version: "0.1.0".into(),
        sheets,
        symbols: vec![("Device:R".into(), sym("R")), ("Device:C".into(), sym("C")), ("Device:R".into(), sym("R2"))],
        power_flag: Some(sym("PWR_FLAG")),
        placements: vec![
            PlacedSymbol {
                view_id: "R1".into(),
                sheet: "".into(),
                lib_id: "Device:R".into(),
                reference: "R1".into(),
                value: "10k".into(),
                footprint: "Resistor_SMD:R_0603".into(),
                fields: vec![("MPN".into(), "RC0603".into()), ("Datasheet".into(), "http://r".into())],
                at: p(10_000_000, 20_000_000),
                rotation: 90_000_000,
                unit: 1,
                pins: vec![pin("2", 1), pin("1", 0), pin("2", 2), pin("3", 2)],
            },
            PlacedSymbol {
                view_id: "C1".into(),
                sheet: "power".into(),
                lib_id: "Device:C".into(),
                reference: "C1".into(),
                value: "".into(),
                footprint: "".into(),
                fields: vec![],
                at: p(0, 0),
                rotation: 0,
                unit: 1,
                pins: vec![],
            },
        ],
        power: vec![("R1.1".into(), Some(p(12_540_000, 20_000_000))), ("C1.1".into(), None)],
        wires: vec![
            ("power".into(), vec![p(0, 0), p(1, 1)]),
            ("".into(), vec![p(1_000_000, 1_000_000), p(2_000_000, 1_000_000), p(2_000_000, 3_000_000)]),
        ],
        net_labels: vec![("GND".into(), vec![("R1.2".into(), Some(p(7_460_000, 20_000_000))), ("C1.2".into(), None)])],
        labels: vec![LabelFacts { sheet: "".into(), net: "VCC".into(), at: p(5_000_000, 5_000_000), rotation: 180_000_000 }],
        no_connect: vec![("R1.3".into(), Some(p(1_000_000, 2_000_000)))],
    }
}

#[test]
fn single_page_schematic_places_symbols_labels_and_flags() {
    let text = canonical_document(&schematic_node(&facts(vec![]), ""));
    assert!(text.starts_with("(kicad_sch (version 20250114) (generator \"kil\") (generator_version \"0.1.0\") (uuid \""));
    assert!(text.contains("(paper \"A4\") (lib_symbols (symbol \"power:PWR_FLAG\") (symbol \"Device:C\") (symbol \"Device:R\"))"));
    assert!(text.contains("(symbol (lib_id \"Device:R\") (at 10.0 20.0 90.0) (unit 1) (exclude_from_sim no) (in_bom yes) (on_board yes) (dnp no) (uuid "));
    assert!(text.contains("(property \"Reference\" \"R1\" (at 10.0 20.0 0.0) (effects (font (size 1.27 1.27)))) (property \"Value\" \"10k\" (at 10.0 22.54 0.0) (effects (font (size 1.27 1.27))))"));
    assert!(text.contains("(property \"Footprint\" \"Resistor_SMD:R_0603\" (at 10.0 20.0 0.0) (effects (font (size 1.27 1.27)) (hide yes)))"));
    assert!(text.contains("(property \"Datasheet\" \"http://r\" (at 10.0 20.0 0.0)"));
    assert!(text.contains("(property \"MPN\" \"RC0603\" (at 10.0 20.0 0.0) (effects (font (size 1.27 1.27)) (hide yes))) (pin \"1\" (uuid "));
    assert_eq!(text.matches("(pin \"").count(), 2);
    assert!(!text.contains("(pin \"3\""));
    assert!(text.contains("(reference \"R1\") (unit 1))))"));
    assert!(!text.contains("\"C1\""));
    assert!(text.contains("(symbol (lib_id \"power:PWR_FLAG\") (at 12.54 20.0 0.0) (unit 1) (in_bom no) (on_board no) (uuid "));
    assert!(text.contains("(property \"Reference\" \"#FLG1\" (at 12.54 20.0 0.0) (effects (font (size 1.27 1.27)) (hide yes)))"));
    assert_eq!(text.matches("(wire ").count(), 2);
    assert!(text.contains("(wire (pts (xy 1.0 1.0) (xy 2.0 1.0)) (stroke (width 0.0) (type default)) (uuid "));
    assert!(text.contains("(label \"GND\" (at 7.46 20.0 0.0) (effects (font (size 1.27 1.27))) (uuid "));
    assert!(text.contains("(label \"VCC\" (at 5.0 5.0 180.0)"));
    assert!(!text.contains("(shape passive)"));
    assert!(text.contains("(no_connect (at 1.0 2.0) (uuid "));
    assert!(text.ends_with("(sheet_instances (path \"/\" (page \"1\"))))\n"));
}

#[test]
fn hierarchical_root_page_has_sheet_symbols_and_global_labels() {
    let sheets: Vec<String> = (0..5).map(|i| format!("s{i}")).collect();
    let text = canonical_document(&schematic_node(&facts(sheets), ""));
    assert!(text.contains("(global_label \"GND\""));
    assert!(text.contains("(shape passive)"));
    assert!(text.contains("(sheet (at 20.0 120.0) (size 50.0 15.0) (uuid "));
    assert!(text.contains("(sheet (at 215.0 120.0) (size 50.0 15.0)"));
    assert!(text.contains("(sheet (at 20.0 145.0) (size 50.0 15.0)"));
    assert!(text.contains("(property \"Sheetname\" \"s0\" (at 20.0 118.73 0.0)"));
    assert!(text.contains("(at 20.0 136.27 0.0)"));
    assert!(text.contains("(property \"Sheetfile\" \"demo.sheets/"));
    assert!(text.contains("(page \"6\")"));
    assert!(text.contains("(paper \"A4\")"));
    let sub = canonical_document(&schematic_node(&facts(vec!["power".into()]), "power"));
    assert!(sub.contains("(symbol (lib_id \"Device:C\") (at 0.0 0.0 0.0)"));
    assert!(sub.contains("(property \"Value\" \"C1\""));
    assert!(sub.contains("(property \"Datasheet\" \"~\""));
    assert!(!sub.contains("(sheet (at"));
    assert_eq!(sub.matches("(wire ").count(), 1);
    let big: Vec<String> = (0..9).map(|i| format!("s{i}")).collect();
    assert!(canonical_document(&schematic_node(&facts(big), "")).contains("(paper \"A3\")"));
}
