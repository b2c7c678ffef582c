use kil_core::board::{
    pcb_node, BoardFacts, BoardPoint, HoleFacts, KeepoutFacts, RouteFacts, SilkFacts, ViaFacts, ZoneFacts,
};
use kil_core::connectivity::Sexp;
use kil_core::lock::canonical_document;
use kil_core::rules::NetRules;

fn p(x: i64, y: i64) -> BoardPoint {
    BoardPoint { x, y }
}

fn board() -> BoardFacts {
    BoardFacts {
        project: "demo".into(),
        version: "0.1.0".into(),
        thickness: 1_600_000,
        layers: 2,
        stackup: Sexp::List(vec![Sexp::Symbol("stackup".into())]),
        nets: vec!["GND".into(), "/VCC".into()],
        has_sheets: false,
        rules: NetRules { clearance: 200_000, minimum_track_width: 200_000, preferred_track_width: 250_000, net_classes: vec![] },
        via_size: 600_000,
        via_drill: 300_000,
        outline: vec![p(20_000_000, 20_000_000), p(70_000_000, 20_000_000), p(70_000_000, 50_000_000)],
        routes: vec![
            (
                "GND".into(),
                vec![RouteFacts {
                    layer: "F.Cu".into(),
                    width: None,
                    path: vec![p(21_000_000, 21_000_000), p(-1_500_000, 21_000_000), p(-1_500_000, 30_123_400)],
                    locked: true,
                }],
            ),
            ("NOPE".into(), vec![RouteFacts { layer: "B.Cu".into(), width: Some(1), path: vec![p(0, 0), p(1, 1)], locked: false }]),
        ],
        vias: vec![
            ViaFacts { net: "/VCC".into(), at: p(30_000_000, 30_000_000), size: None, drill: Some(400_000), locked: false },
            ViaFacts { net: "MISSING".into(), at: p(0, 0), size: None, drill: None, locked: false },
        ],
        keepouts: vec![KeepoutFacts {
            layers: vec![],
            outline: vec![p(0, 0), p(1_000_000, 0)],
            tracks: true,
            vias: false,
            pads: false,
            copper_pours: true,
            footprints: false,
        }],
        zones: vec![ZoneFacts {
            net: "GND".into(),
            layer: "B.Cu".into(),
            outline: vec![p(0, 0)],
            priority: 3,
            solid: true,
            clearance: None,
            thermal_gap: Some(500_000),
            thermal_width: None,
        }],
        holes: vec![HoleFacts { at: p(25_000_000, 25_000_000), diameter: 3_200_000 }],
        silk: vec![
            SilkFacts { text: "kil".into(), at: p(40_000_000, 45_000_000), rotation: 0, layer: "F.SilkS".into() },
            SilkFacts { text: "rot".into(), at: p(0, 0), rotation: 90_000_000, layer: "B.SilkS".into() },
        ],
    }
}

#[test]
fn board_tree_carries_nets_copper_and_identities() {
    let fp = Sexp::List(vec![Sexp::Symbol("footprint".into()), Sexp::Quoted("R_0603".into())]);
    let text = canonical_document(&pcb_node(&board(), &vec![fp]));
    assert!(text.starts_with("(kicad_pcb (version 20250114) (generator kil) (generator_version \"0.1.0\") (general (thickness 1.6) (legacy_teardrops no)) (paper \"A4\") (layers "));
    assert!(text.contains("(setup (stackup) (pad_to_mask_clearance 0.0) (allow_soldermask_bridges_in_footprints no)) (net 0 \"\") (net 1 \"/GND\") (net 2 \"/VCC\") (footprint \"R_0603\") (gr_line (start 20.0 20.0) (end 70.0 20.0) (stroke (width 0.05) (type default)) (layer \"Edge.Cuts\")"));
    assert!(text.contains("(gr_line (start 70.0 50.0) (end 20.0 20.0)"));
    assert_eq!(text.matches("(gr_line").count(), 3);
    assert!(text.contains("(segment (start 21.0 21.0) (end -1.5 21.0) (width 0.25) (layer \"F.Cu\") (net 1) (uuid "));
    assert!(text.contains("(segment (start -1.5 21.0) (end -1.5 30.1234) (width 0.25) (layer \"F.Cu\") (net 1)"));
    assert_eq!(text.matches("(segment").count(), 2);
    assert_eq!(text.matches("(locked yes)").count(), 2);
    assert!(text.contains("(via (at 30.0 30.0) (size 0.6) (drill 0.4) (layers \"F.Cu\" \"B.Cu\") (net 2) (uuid "));
    assert_eq!(text.matches("(via ").count(), 1);
    assert!(text.contains("(zone (net 0) (net_name \"\") (layer \"F.Cu\")"));
    assert!(text.contains("(zone (net 0) (net_name \"\") (layer \"B.Cu\")"));
    assert!(text.contains("(keepout (tracks not_allowed) (vias allowed) (pads allowed) (copperpour not_allowed) (footprints allowed)) (polygon (pts (xy 0.0 0.0) (xy 1.0 0.0)))"));
    assert!(text.contains("(zone (net 1) (net_name \"/GND\") (layer \"B.Cu\")"));
    assert!(text.contains("(priority 3) (hatch edge 0.5) (connect_pads yes (clearance 0.2)) (min_thickness 0.25) (fill yes (thermal_gap 0.5) (thermal_bridge_width 0.3)) (polygon (pts (xy 0.0 0.0)))"));
    assert!(text.contains("(footprint \"MountingHole\" (layer \"F.Cu\") (uuid "));
    assert!(text.contains("(pad \"\" np_thru_hole circle (at 0.0 0.0) (size 3.2 3.2) (drill 3.2) (layers \"*.Cu\" \"*.Mask\")"));
    assert!(text.contains("(property \"Datasheet\" \"\" (at 0.0 0.0 0.0) (layer \"F.Fab\") (hide yes) (uuid "));
    assert!(text.contains("(gr_text \"kil\" (at 40.0 45.0 -0.0) (layer \"F.SilkS\")"));
    assert!(text.contains("(gr_text \"rot\" (at 0.0 0.0 -90.0) (layer \"B.SilkS\")"));
    assert!(text.contains("(effects (font (size 1.27 1.27)))"));
}

#[test]
fn board_identities_are_stable_and_distinct() {
    let a = canonical_document(&pcb_node(&board(), &vec![]));
    let b = canonical_document(&pcb_node(&board(), &vec![]));
    assert_eq!(a, b);
    let mut other = board();
    other.project = "other".into();
    assert_ne!(a, canonical_document(&pcb_node(&other, &vec![])));
    let uuids: Vec<&str> = a.match_indices("(uuid \"").map(|(i, _)| &a[i + 7..i + 43]).collect();
    let mut sorted = uuids.clone();
    sorted.sort();
    sorted.dedup();
    assert_eq!(sorted.len(), uuids.len());
}
