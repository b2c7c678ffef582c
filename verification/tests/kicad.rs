use kil_core::connectivity::Sexp;
use kil_core::footprint::{
    moves_with_footprint, place_footprint,
    add_descendant_uuids, ensure_footprint_property, is_named_property, node_head, remove_children, set_property,
    set_second_quoted, swap_front_back_layers, upsert_child,
};
use kil_core::model::BoardSide;
use kil_core::kicad::{design_rules, endpoint_net_map, pcb_layers, schematic_net_name, sheet_filename, stable_uuid};
use kil_core::validate::NetEntry;
use kil_core::rules::{NetClass, NetRules};

fn rules_with(classes: Vec<NetClass>) -> NetRules {
    NetRules {
        clearance: 200_000,
        minimum_track_width: 200_000,
        preferred_track_width: 250_000,
        net_classes: classes,
    }
}

fn signals(allowed: &[&str]) -> NetClass {
    NetClass {
        name: "signals".into(),
        nets: vec!["SIGNAL".into()],
        clearance: 200_000,
        minimum_track_width: 200_000,
        preferred_track_width: 250_000,
        allowed_layers: allowed.iter().map(|s| s.to_string()).collect(),
        zone_layers: None,
        allow_through_vias: None,
    }
}

#[test]
fn design_rules_allow_through_vias_between_allowed_outer_layers() {
    let rules = design_rules(&rules_with(vec![signals(&["F.Cu", "B.Cu"])]), 4);
    assert!(rules.contains("(constraint disallow track zone)"));
    assert!(!rules.contains("(constraint disallow track via zone)"));
    assert!(!rules.contains("(constraint disallow via)"));
}

#[test]
fn design_rules_text_is_exact() {
    let rules = design_rules(&rules_with(vec![signals(&["F.Cu"])]), 2);
    assert_eq!(
        rules,
        "(version 1)\n\
         (rule \"signals-width\" (condition \"A.NetClass == 'signals'\") (constraint track_width (min 0.2)))\n\
         (rule \"signals-B.Cu\" (condition \"A.NetClass == 'signals'\") (layer \"B.Cu\") (constraint disallow track zone))\n\
         (rule \"signals-vias\" (condition \"A.NetClass == 'signals'\") (constraint disallow via))\n"
    );
    assert_eq!(design_rules(&rules_with(vec![]), 2), "(version 1)\n");
}

#[test]
fn widths_are_written_in_millimetres_without_trailing_zeros() {
    let mut class = signals(&[]);
    class.minimum_track_width = 1_500_000;
    assert!(design_rules(&rules_with(vec![class]), 2).contains("(min 1.5)"));
    let mut class = signals(&[]);
    class.minimum_track_width = 2_000_000;
    assert!(design_rules(&rules_with(vec![class]), 2).contains("(min 2)"));
    let mut class = signals(&[]);
    class.minimum_track_width = 125_050;
    assert!(design_rules(&rules_with(vec![class]), 2).contains("(min 0.12505)"));
}

#[test]
fn pcb_net_names_follow_schematic_label_scope() {
    assert_eq!(schematic_net_name("SIGNAL", false), "/SIGNAL");
    assert_eq!(schematic_net_name("/PRIVATE", false), "/PRIVATE");
    assert_eq!(schematic_net_name("SIGNAL", true), "SIGNAL");
    assert_eq!(schematic_net_name("/PRIVATE", true), "/PRIVATE");
}

#[test]
fn sheet_files_are_named_by_stable_identity() {
    assert_eq!(sheet_filename("demo", "power"), "b81a4599-2e22-59c0-90ca-b0b1fc2ebd7d.kicad_sch");
    assert_eq!(stable_uuid("demo", "schematic/root"), "5bd56c46-7dcc-578d-b06a-ffc2ec267570");
    assert_eq!(stable_uuid("demo", "schematic/root"), stable_uuid("demo", "schematic/root"));
    assert_ne!(stable_uuid("demo", "schematic/root"), stable_uuid("other", "schematic/root"));
}

#[test]
fn endpoints_map_to_their_last_net_in_endpoint_order() {
    let nets = vec![
        NetEntry { name: "A".into(), endpoints: vec!["R2.1".into(), "R1.1".into()] },
        NetEntry { name: "B".into(), endpoints: vec!["R1.1".into(), "C1.2".into()] },
    ];
    let m = endpoint_net_map(&nets);
    let expected: Vec<(String, String)> = vec![("C1.2", "B"), ("R1.1", "B"), ("R2.1", "A")]
        .into_iter()
        .map(|(a, b)| (a.to_string(), b.to_string()))
        .collect();
    assert_eq!(m, expected);
}

fn sym(value: &str) -> Sexp {
    Sexp::Symbol(value.to_string())
}

fn quoted(value: &str) -> Sexp {
    Sexp::Quoted(value.to_string())
}

fn list(items: Vec<Sexp>) -> Sexp {
    Sexp::List(items)
}

#[test]
fn pad_property_markers_do_not_receive_uuids() {
    let mut marker = list(vec![sym("property"), sym("pad_prop_mechanical")]);
    let mut ordinal = 0;

    add_descendant_uuids("two-resistors", &mut marker, "pcb/component/J1", &mut ordinal);

    let Sexp::List(items) = marker else {
        unreachable!();
    };
    assert_eq!(items.len(), 2);
    assert_eq!(ordinal, 0);
}

#[test]
fn footprint_items_are_numbered_in_document_order() {
    let uuid = |k: usize| list(vec![sym("uuid"), quoted(&stable_uuid("demo", &format!("pcb/component/R1/item/{k}")))]);
    let mut footprint = list(vec![
        sym("footprint"),
        quoted("R"),
        list(vec![sym("property"), quoted("Reference"), quoted("R1"), list(vec![sym("uuid"), quoted("old")])]),
        list(vec![sym("pad"), quoted("1"), list(vec![sym("fp_text"), sym("user"), quoted("x")])]),
        list(vec![sym("layer"), quoted("F.Cu")]),
    ]);
    let mut ordinal = 5;
    add_descendant_uuids("demo", &mut footprint, "pcb/component/R1", &mut ordinal);
    let expected = list(vec![
        sym("footprint"),
        quoted("R"),
        list(vec![sym("property"), quoted("Reference"), quoted("R1"), uuid(5)]),
        list(vec![sym("pad"), quoted("1"), list(vec![sym("fp_text"), sym("user"), quoted("x"), uuid(7)]), uuid(6)]),
        list(vec![sym("layer"), quoted("F.Cu")]),
    ]);
    assert_eq!(footprint, expected);
    assert_eq!(ordinal, 8);
    assert!(is_named_property(&list(vec![sym("property"), quoted("Value")])));
    assert!(!is_named_property(&list(vec![sym("property"), sym("Value")])));
}

#[test]
fn layer_table_lists_copper_then_technical_layers() {
    let Sexp::List(items) = pcb_layers(4) else { unreachable!() };
    assert_eq!(items.len(), 1 + 4 + 16);
    assert_eq!(items[0], sym("layers"));
    assert_eq!(items[1], list(vec![sym("0"), quoted("F.Cu"), sym("signal")]));
    assert_eq!(items[2], list(vec![sym("4"), quoted("In1.Cu"), sym("signal")]));
    assert_eq!(items[3], list(vec![sym("6"), quoted("In2.Cu"), sym("signal")]));
    assert_eq!(items[4], list(vec![sym("2"), quoted("B.Cu"), sym("signal")]));
    assert_eq!(items[5], list(vec![sym("9"), quoted("F.Adhes"), sym("user"), quoted("F.Adhesive")]));
    assert_eq!(items[20], list(vec![sym("33"), quoted("B.Fab"), sym("user")]));
}

#[test]
fn back_side_items_swap_quoted_layers_only() {
    let mut pad = list(vec![
        sym("pad"),
        quoted("1"),
        sym("F.Cu"),
        list(vec![sym("layers"), quoted("F.Cu"), quoted("F.Mask"), quoted("*.Cu"), quoted("B.Fab")]),
    ]);
    swap_front_back_layers(&mut pad);
    let expected = list(vec![
        sym("pad"),
        quoted("1"),
        sym("F.Cu"),
        list(vec![sym("layers"), quoted("B.Cu"), quoted("B.Mask"), quoted("*.Cu"), quoted("F.Fab")]),
    ]);
    assert_eq!(pad, expected);
}

#[test]
fn footprint_clauses_are_upserted_removed_and_filled_in() {
    let mut items = vec![
        sym("footprint"),
        list(vec![sym("layer"), quoted("F.Cu")]),
        list(vec![sym("version"), sym("1")]),
        list(vec![sym("property"), quoted("Reference"), quoted("REF**")]),
        list(vec![sym("property"), quoted("Value")]),
    ];
    upsert_child(&mut items, list(vec![sym("layer"), quoted("B.Cu")]));
    upsert_child(&mut items, list(vec![sym("locked"), sym("yes")]));
    assert_eq!(items[1], list(vec![sym("layer"), quoted("B.Cu")]));
    assert_eq!(items[5], list(vec![sym("locked"), sym("yes")]));
    remove_children(&mut items, &vec!["version".to_string(), "locked".to_string()]);
    assert_eq!(items.len(), 4);
    set_property(&mut items, "Reference", "R7");
    set_property(&mut items, "Value", "10k");
    assert_eq!(items[2], list(vec![sym("property"), quoted("Reference"), quoted("R7")]));
    assert_eq!(items[3], list(vec![sym("property"), quoted("Value")]));
    ensure_footprint_property(&mut items, "Reference", "x");
    assert_eq!(items.len(), 4);
    ensure_footprint_property(&mut items, "Datasheet", "");
    assert_eq!(
        items[4],
        list(vec![
            sym("property"),
            quoted("Datasheet"),
            quoted(""),
            list(vec![sym("at"), sym("0.0"), sym("0.0"), sym("0.0")]),
            list(vec![sym("layer"), quoted("F.Fab")]),
            list(vec![sym("hide"), sym("yes")]),
            list(vec![sym("effects"), list(vec![sym("font"), list(vec![sym("size"), sym("1.27"), sym("1.27")])])]),
        ])
    );
    let mut node = list(vec![sym("footprint"), quoted("old"), sym("x")]);
    set_second_quoted(&mut node, "Lib:R");
    assert_eq!(node, list(vec![sym("footprint"), quoted("Lib:R"), sym("x")]));
    assert_eq!(node_head(&node).as_deref(), Some("footprint"));
    assert_eq!(node_head(&list(vec![quoted("footprint")])), None);
}

fn library_footprint() -> Sexp {
    list(vec![
        sym("footprint"),
        quoted("R_0603"),
        sym("locked"),
        list(vec![sym("version"), sym("20240108")]),
        list(vec![sym("generator"), quoted("pcbnew")]),
        list(vec![sym("layer"), quoted("F.Cu")]),
        list(vec![sym("property"), quoted("Reference"), quoted("REF**")]),
        list(vec![sym("property"), quoted("Value"), quoted("R")]),
        list(vec![sym("pad"), quoted("1"), sym("smd"), list(vec![sym("layers"), quoted("F.Cu"), quoted("F.Mask")])]),
        list(vec![sym("pad"), quoted("2"), sym("smd"), list(vec![sym("layers"), quoted("F.Cu")])]),
    ])
}

#[test]
fn footprints_are_placed_with_identity_nets_and_side() {
    let item = |k: usize| list(vec![sym("uuid"), quoted(&stable_uuid("demo", &format!("pcb/component/R1/item/{k}")))]);
    let at = list(vec![sym("at"), sym("20"), sym("30"), sym("90")]);
    let nets = vec![("R1.1".to_string(), "SIGNAL".to_string())];
    let codes = vec![("GND".to_string(), 1), ("SIGNAL".to_string(), 2)];
    let placed = place_footprint(
        &library_footprint(), "Lib:R_0603", "demo", "R1", "R7", "", true, BoardSide::Front, at.copy(), &nets, &codes, false,
    );
    let expected = list(vec![
        sym("footprint"),
        quoted("Lib:R_0603"),
        list(vec![sym("locked"), sym("yes")]),
        list(vec![sym("layer"), quoted("F.Cu")]),
        list(vec![sym("property"), quoted("Reference"), quoted("R7"), item(0)]),
        list(vec![sym("property"), quoted("Value"), quoted("R7"), item(1)]),
        list(vec![
            sym("pad"),
            quoted("1"),
            sym("smd"),
            list(vec![sym("layers"), quoted("F.Cu"), quoted("F.Mask")]),
            item(2),
            list(vec![sym("net"), sym("2"), quoted("/SIGNAL")]),
        ]),
        list(vec![sym("pad"), quoted("2"), sym("smd"), list(vec![sym("layers"), quoted("F.Cu")]), item(3)]),
        list(vec![sym("uuid"), quoted(&stable_uuid("demo", "pcb/component/R1"))]),
        at.copy(),
        list(vec![
            sym("property"),
            quoted("Datasheet"),
            quoted(""),
            list(vec![sym("at"), sym("0.0"), sym("0.0"), sym("0.0")]),
            list(vec![sym("layer"), quoted("F.Fab")]),
            list(vec![sym("hide"), sym("yes")]),
            list(vec![sym("effects"), list(vec![sym("font"), list(vec![sym("size"), sym("1.27"), sym("1.27")])])]),
            item(4),
        ]),
        list(vec![
            sym("property"),
            quoted("Description"),
            quoted(""),
            list(vec![sym("at"), sym("0.0"), sym("0.0"), sym("0.0")]),
            list(vec![sym("layer"), quoted("F.Fab")]),
            list(vec![sym("hide"), sym("yes")]),
            list(vec![sym("effects"), list(vec![sym("font"), list(vec![sym("size"), sym("1.27"), sym("1.27")])])]),
            item(5),
        ]),
    ]);
    assert_eq!(placed, expected);
}

#[test]
fn back_side_placement_swaps_item_layers_but_not_the_footprint_layer() {
    let at = list(vec![sym("at"), sym("1"), sym("2")]);
    let placed = place_footprint(
        &library_footprint(), "Lib:R_0603", "demo", "R1", "R1", "10k", false, BoardSide::Back, at, &vec![], &vec![], true,
    );
    let Sexp::List(items) = placed else { unreachable!() };
    assert_eq!(items[2], list(vec![sym("layer"), quoted("B.Cu")]));
    assert_eq!(node_head(&items[4]).as_deref(), Some("property"));
    assert!(matches!(&items[4], Sexp::List(p) if p[2] == quoted("10k")));
    assert!(matches!(&items[5], Sexp::List(p) if p[3] == list(vec![sym("layers"), quoted("B.Cu"), quoted("B.Mask")])));
    assert!(!items.iter().any(|n| node_head(n).as_deref() == Some("locked")));
    assert!(!moves_with_footprint(&items[2]));
    assert!(moves_with_footprint(&items[5]));
}

#[test]
fn back_side_geometry_is_mirrored_once_including_quoted_numbers() {
    // The pad as coordinate mirroring leaves it; swapping layers must not touch its numbers.
    let mut pad = list(vec![
        sym("pad"),
        quoted("1"),
        list(vec![sym("at"), quoted("-2"), sym("3"), quoted("-90")]),
        list(vec![sym("layers"), quoted("F.Cu"), quoted("F.Mask")]),
    ]);
    swap_front_back_layers(&mut pad);
    let expected = list(vec![
        sym("pad"),
        quoted("1"),
        list(vec![sym("at"), quoted("-2"), sym("3"), quoted("-90")]),
        list(vec![sym("layers"), quoted("B.Cu"), quoted("B.Mask")]),
    ]);
    assert_eq!(pad, expected);
}
