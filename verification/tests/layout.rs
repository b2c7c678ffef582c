use kil_core::layout::{id, resolve_placements, route_anchor_issues, Anchor, Need, RouteAnchors};
use kil_core::modules::PartAliases;

fn need(prefix: &str, local: &str, anchor: Anchor) -> Need {
    Need { prefix: prefix.into(), local: local.into(), anchor, late: None, file: "fixture.json".into() }
}

fn two_resistors() -> Vec<Need> {
    vec![need("", "R1", Anchor::Point), need("", "R2", Anchor::Point)]
}

fn codes(r: &kil_core::layout::LayoutOrder) -> Vec<&str> {
    r.diagnostics.iter().map(|d| d.code.as_str()).collect()
}

#[test]
fn duplicate_placement_is_reported_only_in_strict_pass() {
    let mut plans = two_resistors();
    plans.extend(two_resistors());
    let lenient = resolve_placements(&plans, false);
    assert!(!lenient.diagnostics.iter().any(|d| d.code == "LAYOUT001"));
    let strict = resolve_placements(&plans, true);
    assert_eq!(strict.diagnostics.iter().filter(|d| d.code == "LAYOUT001").count(), two_resistors().len());
    assert_eq!(strict.diagnostics[0].message, "duplicate placement 'R1'");
    assert_eq!(strict.outcomes.len(), 2);
    assert_eq!(strict.outcomes[0].1, 2);
}

#[test]
fn relative_placement_rotates_offsets_and_rejects_cycles() {
    let plans = vec![need("", "R2", Anchor::Relative("R1".into())), need("", "R1", Anchor::Point)];
    let r = resolve_placements(&plans, true);
    assert!(r.diagnostics.is_empty());
    assert_eq!(r.placed, ["R1", "R2"]);
    let cycle = vec![need("", "R1", Anchor::Relative("R2".into())), need("", "R2", Anchor::Relative("R1".into()))];
    let r = resolve_placements(&cycle, true);
    assert_eq!(codes(&r), ["LAYOUT002", "LAYOUT002"]);
    assert_eq!(r.diagnostics[0].message, "placement dependency cycle at 'R1'");
    assert!(r.placed.is_empty());
    assert!(resolve_placements(&cycle, false).diagnostics.is_empty());
}

#[test]
fn pad_anchors_name_a_part_inside_their_block() {
    let plans = vec![
        need("amp", "U1", Anchor::Point),
        need("amp", "C1", Anchor::Pad("U1.VCC".into())),
        need("amp", "C2", Anchor::Pad("nodot".into())),
        need("amp", "C3", Anchor::Pad("U9.1".into())),
        need("", "J1", Anchor::Edge),
    ];
    let r = resolve_placements(&plans, true);
    assert_eq!(r.placed, ["amp/U1", "amp/C1", "J1"]);
    assert_eq!(codes(&r), ["LAYOUT002", "LAYOUT002"]);
    assert_eq!(r.diagnostics[0].message, "invalid pad 'nodot', expected part.terminal");
    assert_eq!(r.diagnostics[1].message, "missing placement 'amp/U9'");
    assert_eq!(id("amp", "U1"), "amp/U1");
}

#[test]
fn late_anchor_errors_stop_dependents() {
    let mut plans = vec![need("", "U1", Anchor::Edge), need("", "C1", Anchor::Relative("U1".into()))];
    plans[0].late = Some("invalid board edge index or fraction".into());
    let r = resolve_placements(&plans, true);
    assert!(r.placed.is_empty());
    let failed: Vec<(&str, &str)> = r
        .outcomes
        .iter()
        .map(|(k, _, o)| (k.as_str(), o.as_ref().err().map(String::as_str).unwrap_or("")))
        .collect();
    assert_eq!(failed, [("U1", "invalid board edge index or fraction"), ("C1", "invalid board edge index or fraction")]);
    assert_eq!(r.diagnostics[1].file, "fixture.json");
}

#[test]
fn route_pads_must_sit_on_the_route_net() {
    let routes = vec![
        RouteAnchors {
            prefix: "amp".into(),
            bindings: vec![("OUT".to_string(), "SIGNAL".to_string())],
            net: "OUT".into(),
            pads: vec!["R1.pos".into(), "R2.1".into(), "bad".into()],
            file: "blocks/amp.json".into(),
        },
        RouteAnchors { prefix: "".into(), bindings: vec![], net: "GND".into(), pads: vec!["J1.2".into()], file: "p.json".into() },
    ];
    let aliases = vec![PartAliases { id: "amp/R1".into(), aliases: vec![("pos".to_string(), "1".to_string())] }];
    let nets = vec![
        ("SIGNAL".to_string(), vec!["amp/R1.1".to_string()]),
        ("GND".to_string(), vec!["J1.2".to_string()]),
    ];
    let d = route_anchor_issues(&routes, &aliases, &nets);
    assert_eq!(d.len(), 1);
    assert_eq!(d[0].code, "LAYOUT005");
    assert_eq!(d[0].message, "route on 'SIGNAL' anchors to unrelated terminal 'amp/R2.1'");
    assert_eq!(d[0].file, "blocks/amp.json");
}
