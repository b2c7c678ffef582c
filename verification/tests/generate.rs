use kil_core::board::{BoardFacts, BoardPoint};
use kil_core::connectivity::Sexp;
use kil_core::generate::generate;
use kil_core::rules::{NetClass, NetRules};
use kil_core::schematic::SchematicFacts;

fn board(layers: u8, class: &str) -> BoardFacts {
    BoardFacts {
        project: "demo".into(),
        version: "0.1.0".into(),
        thickness: 1_600_000,
        layers,
        stackup: Sexp::List(vec![Sexp::Symbol("stackup".into())]),
        nets: vec!["SIG".into()],
        has_sheets: true,
        rules: NetRules {
            clearance: 200_000,
            minimum_track_width: 150_000,
            preferred_track_width: 250_000,
            net_classes: vec![NetClass {
                name: class.into(),
                nets: vec!["SIG".into()],
                clearance: 300_000,
                minimum_track_width: 200_000,
                preferred_track_width: 400_000,
                allowed_layers: vec![],
                zone_layers: None,
                allow_through_vias: None,
            }],
        },
        via_size: 600_000,
        via_drill: 300_000,
        outline: vec![BoardPoint { x: 20_000_000, y: 20_000_000 }],
        routes: vec![],
        vias: vec![],
        keepouts: vec![],
        zones: vec![],
        holes: vec![],
        silk: vec![],
    }
}

fn page(power: bool) -> SchematicFacts {
    SchematicFacts {
        project: "demo".into(),
        version: "0.1.0".into(),
        sheets: vec!["io".into()],
        symbols: vec![],
        power_flag: None,
        placements: vec![],
        power: if power { vec![("R1.1".into(), None)] } else { vec![] },
        wires: vec![],
        net_labels: vec![],
        labels: vec![],
        no_connect: vec![],
    }
}

#[test]
fn generation_rejects_unsafe_net_class_names() {
    for name in ["sig\"fast", "sig'fast", "sig\\fast"] {
        let err = generate(&board(2, name), &vec![], &page(false)).unwrap_err();
        assert_eq!(err, format!("invalid net-class name '{name}'"));
    }
    assert_eq!(generate(&board(3, "fast"), &vec![], &page(false)).unwrap_err(), "copper layer count must be even, between 2 and 32");
    assert_eq!(generate(&board(2, "fast"), &vec![], &page(true)).unwrap_err(), "missing power:PWR_FLAG library asset");
}

#[test]
fn generated_project_holds_every_file() {
    let g = generate(&board(2, "fast"), &vec![], &page(false)).unwrap();
    assert!(g.design_rules.starts_with("(version 1)\n(rule \"fast-width\""));
    assert!(g.project.ends_with("}\n"));
    assert!(g.project.contains("\"filename\": \"demo.kicad_pro\""));
    assert!(g.project.contains("\"netclass_assignments\": {\n      \"SIG\": [\n        \"fast\"\n      ]\n    }"));
    assert!(g.project.contains("\"track_width\": 0.4"));
    assert!(g.project.contains("\"min_track_width\": 0.15"));
    assert!(g.project.contains("\"Root\""));
    assert!(g.schematic.starts_with("(kicad_sch (version 20250114)"));
    assert!(g.schematic.contains("(sheet (at 20.0 120.0)"));
    assert_eq!(g.sheets.len(), 1);
    assert!(g.sheets[0].0.ends_with(".kicad_sch"));
    assert_eq!(g.sheets[0].0.len(), 36 + ".kicad_sch".len());
    assert!(g.sheets[0].1.starts_with("(kicad_sch "));
    assert!(!g.sheets[0].1.contains("(sheet (at"));
    assert!(g.pcb.starts_with("(kicad_pcb (version 20250114)"));
    assert!(g.pcb.contains("(net 1 \"SIG\")"));
}
