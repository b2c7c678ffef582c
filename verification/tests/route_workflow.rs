use kil_core::route_workflow::{
    assess, differences, finding_identity, needs_routing, open_net, regression_reason, DrcSummary, Finding,
    FindingItem, ReportEntry,
};

fn item(description: &str, x: &str, y: &str) -> FindingItem {
    FindingItem {
        description: Some(description.to_string()),
        identity: format!("{{\"description\":\"{description}\",\"pos\":{{\"x\":{x},\"y\":{y}}}}}"),
    }
}

fn error(x: &str) -> Finding {
    Finding {
        kind: "\"clearance\"".into(),
        description: "\"Too close\"".into(),
        items: vec![item("Track", x, "0.0")],
        raw: format!("{{\"type\":\"clearance\",\"x\":{x}}}"),
    }
}

fn open(net: &str, x: &str) -> Finding {
    Finding {
        kind: "\"unconnected_items\"".into(),
        description: "\"Missing connection\"".into(),
        items: vec![
            item(&format!("Pad 1 [{net}] of R1"), x, "4.0"),
            item(&format!("Pad 2 [{net}] of R2"), "8.0", "4.0"),
        ],
        raw: format!("{{\"type\":\"unconnected_items\",\"net\":\"{net}\",\"x\":{x}}}"),
    }
}

fn summary(errors: Vec<Finding>, opens: Vec<Finding>) -> DrcSummary {
    DrcSummary { errors, opens, ..Default::default() }
}

#[test]
fn rejects_new_errors_even_when_counts_fall() {
    let before = summary(vec![error("1.0"), error("2.0")], vec![open("A", "0.0")]);
    let after = summary(vec![error("3.0")], vec![]);
    assert!(!assess(&before, &after).0);
}

#[test]
fn accepts_partial_progress_but_never_trades_another_nets_connectivity() {
    let before = summary(vec![], vec![open("A", "0.0"), open("A", "1.0"), open("B", "2.0")]);
    let after = summary(vec![], vec![open("A", "0.0"), open("B", "2.0")]);
    assert!(assess(&before, &after).0);
    let bad = summary(vec![], vec![open("B", "2.0"), open("B", "3.0")]);
    assert!(!assess(&before, &bad).0);
    assert!(!assess(&before, &before).0);
}

#[test]
fn parses_localized_net_names_and_does_not_skip_unknown_reports() {
    let d = summary(vec![], vec![open("/module/A", "0.0")]);
    assert!(needs_routing(&d, &vec!["module/A".into()]));
    assert!(!needs_routing(&d, &vec!["B".into()]));
    let indexed = summary(vec![], vec![open("/DATA[0]", "0.0")]);
    assert!(needs_routing(&indexed, &vec!["DATA[0]".into()]));
    assert!(!needs_routing(&indexed, &vec!["DATA[1]".into()]));
    let unknown = summary(
        vec![],
        vec![Finding {
            kind: "\"unconnected_items\"".into(),
            description: "null".into(),
            items: vec![],
            raw: "{\"type\":\"unconnected_items\",\"items\":[]}".into(),
        }],
    );
    assert!(needs_routing(&unknown, &vec!["B".into()]));
}

#[test]
fn copper_only_validation_retains_existing_schematic_parity_errors() {
    let before = DrcSummary {
        errors: vec![error("1.0")],
        parity_errors: vec![error("1.0")],
        parity_warnings: 2,
        ..Default::default()
    };
    let mut after = DrcSummary::default();
    after.inherit_parity(&before);
    assert_eq!(after.errors, before.errors);
    assert_eq!(after.warnings, 2);
    assert!(!assess(&before, &after).0);
}

#[test]
fn an_unchanged_candidate_is_never_accepted() {
    let s = summary(vec![error("1.0")], vec![open("A", "0.0")]);
    let (ok, reason) = assess(&s, &s);
    assert!(!ok);
    assert_eq!(reason, "no measured improvement; change placement, constraints or routing order");
}

#[test]
fn regression_reasons_name_the_broken_promise() {
    let before = summary(vec![error("1.0")], vec![open("A", "0.0")]);
    let new_error = summary(vec![error("2.0")], vec![]);
    assert_eq!(regression_reason(&before, &new_error), Some("candidate introduces DRC errors"));
    let worse = summary(vec![], vec![open("A", "0.0"), open("A", "1.0")]);
    assert_eq!(
        regression_reason(&before, &worse),
        Some("candidate regresses connectivity on at least one net")
    );
    let better = summary(vec![], vec![open("A", "0.0")]);
    assert_eq!(regression_reason(&before, &better), None);
    assert_eq!(assess(&before, &better).1, "connectivity or DRC improved without regressions");
}

#[test]
fn differences_count_repeats_and_ignore_item_order() {
    let a = error("1.0");
    let mut swapped = open("A", "0.0");
    swapped.items.reverse();
    let before = vec![a.clone(), open("A", "0.0")];
    let after = vec![a.clone(), a.clone(), swapped];
    let new = differences(&before, &after);
    assert_eq!(new.len(), 1);
    assert_eq!(new[0], a);
}

#[test]
fn finding_identity_is_a_json_array_of_kind_description_and_sorted_items() {
    let f = error("1.0");
    let id = finding_identity(&f);
    assert!(id.starts_with('['));
    assert_ne!(id, f.kind);
    assert_eq!(
        id,
        "[\"clearance\",\"Too close\",[\"{\\\"description\\\":\\\"Track\\\",\\\"pos\\\":{\\\"x\\\":1.0,\\\"y\\\":0.0}}\"]]"
    );
    let mut swapped = open("A", "0.0");
    let id1 = finding_identity(&swapped);
    swapped.items.reverse();
    assert_eq!(id1, finding_identity(&swapped));
}

#[test]
fn open_net_reads_the_bracketed_name_of_the_first_item() {
    assert_eq!(open_net(&open("GND", "0.0")), "GND");
    assert_eq!(open_net(&open("/DATA[0]", "0.0")), "/DATA[0]");
}

#[test]
fn reports_split_by_severity_and_parity() {
    let violations = vec![
        ReportEntry { finding: error("1.0"), is_error: true },
        ReportEntry { finding: error("2.0"), is_error: false },
    ];
    let parity = vec![
        ReportEntry { finding: error("3.0"), is_error: true },
        ReportEntry { finding: error("4.0"), is_error: false },
    ];
    let s = DrcSummary::from_report(&violations, &parity, &vec![open("A", "0.0")]);
    assert_eq!(s.errors, vec![error("1.0"), error("3.0")]);
    assert_eq!(s.warnings, 2);
    assert_eq!(s.parity_errors, vec![error("3.0")]);
    assert_eq!(s.parity_warnings, 1);
    assert_eq!(s.opens.len(), 1);
    assert!(s.blocking_placement());
}
