use kil_core::repair::repair_findings;
use kil_core::route_workflow::{DrcSummary, Finding};

fn finding(kind: &str) -> Finding {
    Finding { kind: format!("\"{kind}\""), description: "null".into(), items: vec![], raw: format!("{{\"type\":\"{kind}\"}}") }
}

#[test]
fn repair_views_number_errors_then_opens_then_warnings() {
    let summary = DrcSummary {
        errors: vec![finding("clearance")],
        warnings: 12,
        warning_details: (0..12).map(|i| finding(&format!("w{i}"))).collect(),
        opens: vec![finding("unconnected")],
        parity_errors: vec![],
        parity_warnings: 0,
        parity_warning_details: vec![],
    };
    let (views, entries) = repair_findings(&summary, 2);
    assert_eq!(views, vec!["F_Cu.svg".to_string(), "B_Cu.svg".to_string()]);
    assert_eq!(entries.len(), 14);
    assert_eq!((entries[0].id, entries[0].kind.as_str(), entries[0].finding.kind.as_str()), (1, "error", "\"clearance\""));
    assert_eq!((entries[1].id, entries[1].kind.as_str()), (2, "open"));
    assert_eq!((entries[2].id, entries[2].kind.as_str(), entries[2].finding.kind.as_str()), (3, "warning", "\"w0\""));
    assert_eq!(entries[0].crops, vec!["finding-1-F_Cu.svg".to_string(), "finding-1-B_Cu.svg".to_string()]);
    assert_eq!(entries[11].crops, vec!["finding-12-F_Cu.svg".to_string(), "finding-12-B_Cu.svg".to_string()]);
    assert!(entries[12].crops.is_empty());
    assert_eq!(entries[13].id, 14);
    let (four, _) = repair_findings(&DrcSummary::default(), 4);
    assert_eq!(four, vec!["F_Cu.svg", "In1_Cu.svg", "In2_Cu.svg", "B_Cu.svg"]);
}
