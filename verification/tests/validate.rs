use kil_core::diagnostic::Severity;
use kil_core::validate::{
    parse_endpoint, valid_project_name, validate_basic, validate_libraries, HoleFacts, LibraryPins, NetEntry, PinFacts,
    PlacedPart, ProjectFacts, RouteFacts, RouteSet, ViaFacts, WireFacts, ZoneFacts,
};

fn strings(v: &[&str]) -> Vec<String> {
    v.iter().map(|s| s.to_string()).collect()
}

fn empty_project() -> ProjectFacts {
    ProjectFacts {
        format_version: 2,
        kicad: 10,
        name: "good".into(),
        outline_points: 4,
        outline_zero_area: false,
        components: vec![],
        nets: vec![],
        schematic_placements: vec![],
        pcb_placements: vec![],
        routes: vec![],
        vias: vec![],
        zones: vec![],
        holes: vec![],
        wires: vec![],
        no_connect: vec![],
        rules_valid: true,
    }
}

#[test]
fn validator_collects_independent_errors() {
    let source = r#"{
          "format_version": 1,
          "project": { "name": "bad", "kicad": 10 },
          "components": { "R1": { "symbol": "Device:R", "value": "1k", "footprint": "Resistor_SMD:R_0603_1608Metric" } },
          "nets": { "N": ["MISSING.1"] },
          "schematic": { "placement": {} },
          "pcb": { "outline": [[0,0], [1,0]], "placement": {}, "routes": { "OTHER": [{ "path": [[0,0]] }] } }
        }"#;
    let project = ProjectFacts {
        format_version: 1,
        name: "bad".into(),
        outline_points: 2,
        components: strings(&["R1"]),
        nets: vec![NetEntry { name: "N".into(), endpoints: strings(&["MISSING.1"]) }],
        routes: vec![RouteSet {
            net: "OTHER".into(),
            routes: vec![RouteFacts {
                points: 1,
                width_invalid: false,
                layer: "F.Cu".into(),
                outside_points: strings(&["[0.0, 0.0]"]),
            }],
        }],
        ..empty_project()
    };
    let diagnostics = validate_basic(&project, "bad.kil.json", source);
    let codes: Vec<&str> = diagnostics.iter().map(|d| d.code.as_str()).collect();
    assert!(codes.contains(&"PCB001"));
    assert!(codes.contains(&"NET003"));
    assert!(codes.contains(&"SCH001"));
    assert!(codes.contains(&"PCB005"));
    assert!(diagnostics
        .iter()
        .filter(|d| d.severity == Severity::Error)
        .all(|d| d.span.is_some()));
}

#[test]
fn clean_project_has_no_findings() {
    let project = ProjectFacts {
        components: strings(&["R1", "R2"]),
        nets: vec![NetEntry { name: "N".into(), endpoints: strings(&["R1.1", "R2.1"]) }],
        schematic_placements: strings(&["R1", "R2"]),
        pcb_placements: vec![
            PlacedPart { reference: "R1".into(), inside: true },
            PlacedPart { reference: "R2".into(), inside: true },
        ],
        ..empty_project()
    };
    assert!(validate_basic(&project, "ok.kil.json", "{}").is_empty());
}

#[test]
fn findings_come_in_document_order_with_their_pointers() {
    let project = ProjectFacts {
        format_version: 1,
        kicad: 9,
        name: "bad name".into(),
        outline_points: 4,
        outline_zero_area: true,
        components: strings(&["R1"]),
        nets: vec![
            NetEntry { name: "A".into(), endpoints: strings(&["R1.1", "R1.1", "bad"]) },
            NetEntry { name: "B".into(), endpoints: strings(&["R1.1"]) },
        ],
        schematic_placements: strings(&["R1", "X9"]),
        pcb_placements: vec![PlacedPart { reference: "R1".into(), inside: false }],
        routes: vec![RouteSet {
            net: "A".into(),
            routes: vec![RouteFacts {
                points: 2,
                width_invalid: true,
                layer: "In1.Cu".into(),
                outside_points: vec![],
            }],
        }],
        vias: vec![ViaFacts { net: "Z".into(), inside: true }],
        zones: vec![ZoneFacts { net: "A".into(), points: 2, layer: "B.Cu".into(), outside_points: 2 }],
        holes: vec![HoleFacts { diameter_positive: false, inside: true }],
        wires: vec![WireFacts { net: "A".into(), points: 1 }],
        no_connect: vec![],
        rules_valid: false,
    };
    let d = validate_basic(&project, "p.kil.json", "{}");
    let got: Vec<(String, String)> = d
        .iter()
        .map(|x| (x.code.clone(), x.path.clone().unwrap()))
        .collect();
    let expected: Vec<(&str, &str)> = vec![
        ("KIL001", "/format_version"),
        ("KIL002", "/project/kicad"),
        ("KIL003", "/project/name"),
        ("PCB002", "/pcb/outline"),
        ("NET005", "/nets/A/R1.1"),
        ("NET002", "/nets/A/bad"),
        ("NET001", "/nets/B"),
        ("NET006", "/nets/B/R1.1"),
        ("SCH002", "/schematic/placement/X9"),
        ("PCB013", "/pcb/placement/R1/at"),
        ("PCB014", "/pcb/routes/A/0/width"),
        ("PCB007", "/pcb/routes/A/0/layer"),
        ("PCB009", "/pcb/vias/0"),
        ("PCB012", "/pcb/zones/0/outline"),
        ("PCB016", "/pcb/zones/0/outline"),
        ("PCB016", "/pcb/zones/0/outline"),
        ("PCB017", "/pcb/holes/0/diameter"),
        ("SCH004", "/schematic/wires/0/path"),
        ("RULE001", "/rules"),
    ];
    let expected: Vec<(String, String)> = expected
        .into_iter()
        .map(|(a, b)| (a.to_string(), b.to_string()))
        .collect();
    assert_eq!(got, expected);
    assert_eq!(d[0].message, "unsupported format_version 1");
    assert_eq!(d[0].help.as_deref(), Some("use format_version: 2"));
    assert_eq!(d[6].severity, Severity::Warning);
    assert_eq!(d[7].message, "endpoint 'R1.1' is assigned to both 'A' and 'B'");
    assert_eq!(d[4].message, "duplicate endpoint 'R1.1' in net 'A'");
}

#[test]
fn endpoints_split_at_the_first_dot() {
    assert_eq!(parse_endpoint("U1.VCC"), Some(("U1".to_string(), "VCC".to_string())));
    assert_eq!(parse_endpoint("U1.A.B"), Some(("U1".to_string(), "A.B".to_string())));
    assert_eq!(parse_endpoint(".1"), None);
    assert_eq!(parse_endpoint("R1."), None);
    assert_eq!(parse_endpoint("R1"), None);
}

#[test]
fn project_names_must_be_safe_file_stems() {
    assert!(valid_project_name("board_v2.1-rc"));
    assert!(!valid_project_name(""));
    assert!(!valid_project_name("a/b"));
    assert!(!valid_project_name("é"));
}

fn pin(number: &str, name: Option<&str>) -> PinFacts {
    PinFacts { number: number.into(), name: name.map(|s| s.to_string()) }
}

#[test]
fn endpoints_must_address_existing_unambiguous_pins() {
    let source = r#"{ "nets": { "N": ["U1.VCC", "U1.9", "U1.GND", "R1.1", "X1.1", "bad"] }, "schematic": { "no_connect": ["U1.7", "U1.2", "oops"] } }"#;
    let project = ProjectFacts {
        nets: vec![NetEntry { name: "N".into(), endpoints: strings(&["U1.VCC", "U1.9", "U1.GND", "R1.1", "X1.1", "bad"]) }],
        no_connect: strings(&["U1.7", "U1.2", "oops"]),
        ..empty_project()
    };
    let libraries = vec![
        LibraryPins {
            reference: "U1".into(),
            pins: vec![pin("1", Some("VCC")), pin("1", Some("VCC")), pin("2", Some("GND")), pin("3", Some("GND"))],
        },
        LibraryPins { reference: "R1".into(), pins: vec![pin("1", None), pin("2", None)] },
    ];
    let d = validate_libraries(&project, &libraries, "p.kil.json", source);
    let got: Vec<(String, String)> = d.iter().map(|x| (x.code.clone(), x.path.clone().unwrap())).collect();
    let expected: Vec<(String, String)> = vec![
        ("LIB004", "/nets/N/U1.9"),
        ("LIB005", "/nets/N/U1.GND"),
        ("SCH006", "/schematic/no_connect/U1.7"),
        ("SCH005", "/schematic/no_connect/oops"),
    ]
    .into_iter()
    .map(|(a, b)| (a.to_string(), b.to_string()))
    .collect();
    assert_eq!(got, expected);
    assert_eq!(d[0].help.as_deref(), Some("use a pin number or a unique pin name from the referenced KiCad symbol"));
    assert_eq!(d[1].message, "symbol pin name 'U1.GND' is ambiguous");
    assert!(d.iter().all(|x| x.span.is_some()));
}
