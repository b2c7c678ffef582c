use kil_core::diagnostic::{Diagnostic, Severity};
use kil_core::modules::{Json, Origin};
use kil_core::source::PlacementMode;
use kil_core::model::{RoutingEngine, RoutingPolicy};
use kil_core::pipeline::{
    RouteOptions, remap_diagnostic,
    collect_violations, completed_exit, kicad_failed, report_diagnostics, route_selection, summary_candidates,
    summary_diagnostics, ExitClass, component_nets, inspect_failure, drc_summary, kicad_report,
};

fn text(t: &str) -> Json {
    Json::Text(t.into())
}

fn num(n: &str) -> Json {
    Json::Number(n.into())
}

fn object(members: Vec<(&str, Json)>) -> Json {
    Json::Object(members.into_iter().map(|(k, v)| (k.to_string(), v)).collect())
}

fn strings(v: &[&str]) -> Vec<String> {
    v.iter().map(|s| s.to_string()).collect()
}

fn options(nets: &[&str], block: Option<&str>) -> RouteOptions {
    RouteOptions {
        input: "p.json".into(),
        kicad_cli: None,
        krt: None,
        python: None,
        nets: strings(nets),
        block: block.map(|b| b.to_string()),
    }
}

fn policy(nets: &[&str]) -> RoutingPolicy {
    RoutingPolicy { engine: RoutingEngine::KicadRoutingTools, nets: strings(nets), extra_args: vec![], cache: None }
}

#[test]
fn requested_nets_win_over_blocks_and_policy() {
    let blocks = vec![("divider".to_string(), strings(&["divider/MID", "SIGNAL"]))];
    let nets = strings(&["SIGNAL", "GND", "divider/MID"]);
    let chosen = route_selection(&options(&["GND"], Some("divider")), &blocks, &policy(&["*"]), &nets);
    assert_eq!(chosen.unwrap(), strings(&["GND"]));
    let block = route_selection(&options(&[], Some("divider")), &blocks, &policy(&["*"]), &nets);
    assert_eq!(block.unwrap(), strings(&["/divider/MID", "/SIGNAL"]));
    let from_policy = route_selection(&options(&[], None), &blocks, &policy(&["G*"]), &nets);
    assert_eq!(from_policy.unwrap(), strings(&["G*"]));
}

#[test]
fn unknown_blocks_and_empty_selections_are_route_errors() {
    let blocks = vec![("divider".to_string(), strings(&["divider/MID"]))];
    let nets = strings(&["SIGNAL"]);
    let unknown = route_selection(&options(&[], Some("other")), &blocks, &policy(&[]), &nets).unwrap_err();
    assert_eq!(unknown.code, "ROUTE017");
    assert_eq!(unknown.message, "unknown block 'other'");
    assert_eq!(unknown.help.as_deref(), Some("run 'kil inspect FILE' to list block ids"));
    let none = route_selection(&options(&["VCC"], None), &blocks, &policy(&[]), &nets).unwrap_err();
    assert_eq!(none.code, "ROUTE018");
    assert_eq!(none.message, "net selection matches no nets");
    assert_eq!(none.severity, Severity::Error);
}

#[test]
fn design_violations_exit_with_two_and_kicad_failures_are_structural() {
    let drc = vec![Diagnostic::warning("NET001", "w", "f"), Diagnostic::error("DRC", "clearance", "f")];
    assert_eq!(completed_exit(&drc, false), ExitClass::DesignViolations);
    assert_eq!(completed_exit(&drc, false).code(), 2);
    let router = vec![Diagnostic::error("ROUTER", "unrouted", "f")];
    assert_eq!(completed_exit(&router, false), ExitClass::Success);
    assert_eq!(completed_exit(&router, true), ExitClass::DesignViolations);
    assert_eq!(completed_exit(&vec![Diagnostic::warning("DRC", "w", "f")], true), ExitClass::Success);
    assert!(kicad_failed(&vec![Diagnostic::error("KICAD007", "missing report", "f")]));
    assert!(!kicad_failed(&vec![Diagnostic::warning("KICAD007", "w", "f"), Diagnostic::error("DRC", "x", "f")]));
}

#[test]
fn report_violations_become_diagnostics_in_document_order() {
    let report = object(vec![
        ("source", text("board.kicad_pcb")),
        (
            "violations",
            Json::Array(vec![
                object(vec![("type", text("clearance")), ("severity", text("ERROR")), ("description", text("too close"))]),
                object(vec![("severity", text("warning")), ("message", text("silk overlap"))]),
                object(vec![("severity", text("error")), ("description", num("3")), ("message", text("ignored"))]),
            ]),
        ),
        ("sheets", Json::Array(vec![object(vec![("violations", Json::Array(vec![object(vec![("severity", text("Error")), ("description", text("pin"))])]))])])),
    ]);
    let ds = report_diagnostics(&report, "p.kil.json", "DRC");
    let got: Vec<(Severity, &str)> = ds.iter().map(|d| (d.severity, d.message.as_str())).collect();
    assert_eq!(
        got,
        vec![
            (Severity::Error, "clearance: too close"),
            (Severity::Warning, "DRC: silk overlap"),
            (Severity::Error, "DRC: KiCad violation"),
            (Severity::Error, "DRC: pin"),
        ]
    );
    assert!(ds.iter().all(|d| d.code == "DRC" && d.file == "p.kil.json"));
    assert_eq!(ds[0].help.as_deref(), Some("fix the IL source and rebuild; generated KiCad files are not authoritative"));
    let mut out = vec![Diagnostic::warning("X", "kept", "f")];
    collect_violations(&Json::Array(vec![num("1"), Json::Null]), "f", "ERC", &mut out);
    assert_eq!(out.len(), 1);
}

#[test]
fn reports_without_violation_arrays_are_structural_errors() {
    let ds = report_diagnostics(&object(vec![("violations", object(vec![]))]), "p.kil.json", "ERC");
    assert_eq!(ds.len(), 1);
    assert_eq!(ds[0].code, "KICAD007");
    assert_eq!(ds[0].message, "unrecognized ERC report structure");
    assert!(report_diagnostics(&object(vec![("sheets", Json::Array(vec![]))]), "p", "ERC").is_empty());
    assert_eq!(report_diagnostics(&Json::Array(vec![]), "p", "ERC")[0].code, "KICAD007");
}

#[test]
fn router_summaries_are_found_and_read() {
    let stdout = "routing\nJSON_SUMMARY: {\"failed\": 1}\r\nnoise\nJSON_SUMMARY_MIN: {}";
    assert_eq!(summary_candidates(stdout), vec!["{\"failed\": 1}".to_string(), "{}".to_string()]);
    assert!(summary_candidates("no summary\n").is_empty());
    let none = summary_diagnostics(None, "p.kil.json");
    assert_eq!(none[0].code, "ROUTE016");
    assert_eq!(none[0].severity, Severity::Warning);
    let clean = object(vec![("failed", num("0")), ("pad_pairs_open", object(vec![("count", num("0"))]))]);
    assert!(summary_diagnostics(Some(&clean), "p").is_empty());
    let partial = object(vec![
        ("failed", num("2")),
        ("pad_pairs_open", object(vec![("count", num("3"))])),
        ("multipoint_deficit", num("1.5")),
    ]);
    let d = summary_diagnostics(Some(&partial), "p");
    assert_eq!(d[0].code, "ROUTER");
    assert_eq!(d[0].message, "KiCadRoutingTools produced a partial route: failed=2, open_pad_pairs=3, multipoint_deficit=0");
    assert_eq!(
        d[0].help.as_deref(),
        Some("the partial cache is preserved for inspection; adjust placement or routing options and rerun")
    );
}

#[test]
fn diagnostics_are_pointed_at_the_source_they_came_from() {
    let origins = vec![
        ("divider".to_string(), Origin { file: "blocks/d.kil.json".into(), path: "/circuit/instances/divider".into() }),
        ("divider/R1".to_string(), Origin { file: "blocks/d.kil.json".into(), path: "/circuit/parts/R1".into() }),
        ("R2".to_string(), Origin { file: "p.kil.json".into(), path: "/circuit/parts/R2".into() }),
    ];
    let mut d = Diagnostic::error("ID004", "bad", "p.kil.json").at_path("/components/divider/R1/reference");
    remap_diagnostic(&mut d, &origins);
    assert_eq!(d.file, "blocks/d.kil.json");
    assert_eq!(d.path.as_deref(), Some("/circuit/parts/R1/reference"));
    let mut whole = Diagnostic::error("ID004", "bad", "p.kil.json").at_path("/components/R2");
    remap_diagnostic(&mut whole, &origins);
    assert_eq!(whole.path.as_deref(), Some("/circuit/parts/R2"));
    let mut net = Diagnostic::warning("NET001", "thin", "p.kil.json").at_path("/nets/GND");
    remap_diagnostic(&mut net, &origins);
    assert_eq!((net.file.as_str(), net.path.as_deref()), ("p.kil.json", Some("/circuit/nets/GND")));
    let mut other = Diagnostic::error("PCB001", "x", "p.kil.json").at_path("/components/R22");
    remap_diagnostic(&mut other, &origins);
    assert_eq!(other.path.as_deref(), Some("/components/R22"));
    let mut bare = Diagnostic::error("PCB001", "x", "p.kil.json");
    remap_diagnostic(&mut bare, &origins);
    assert_eq!(bare.path, None);
    assert_eq!(PlacementMode::default(), PlacementMode::Fixed);
}

#[test]
fn inspected_component_lists_the_nets_of_its_terminals() {
    let nets = vec![
        ("SIGNAL".to_string(), vec!["R1.2".to_string(), "R2.1".to_string()]),
        ("VIN".to_string(), vec!["R10.1".to_string()]),
        ("GND".to_string(), vec!["R2.2".to_string(), "R1.1".to_string()]),
    ];
    assert_eq!(component_nets(&nets, "R1"), vec![0, 2]);
    assert_eq!(component_nets(&nets, "R10"), vec![1]);
    assert!(component_nets(&nets, "R3").is_empty());
}

#[test]
fn unknown_inspection_targets_are_errors_with_help() {
    let d = inspect_failure(Some("R9"), Some("VIN"), None, "p.kil.json");
    assert_eq!(d.code, "INSPECT001");
    assert_eq!(d.message, "unknown component 'R9'");
    assert_eq!(d.help.as_deref(), Some("run 'kil inspect FILE' to list the project summary"));
    assert_eq!(inspect_failure(None, Some("VIN"), Some("b"), "p").message, "unknown net 'VIN'");
    assert_eq!(inspect_failure(None, None, Some("amp"), "p").message, "unknown block 'amp'");
    assert_eq!(inspect_failure(None, None, None, "p").message, "unknown block ''");
}

#[test]
fn drc_reports_are_read_and_classified() {
    let report = br#"{"violations":[{"type":"clearance","severity":"error","description":"too close","items":[{"description":"Pad 1","pos":{"x":1,"y":2}}]},{"type":"silk_overlap","severity":"warning"}],"unconnected_items":[{"type":"unconnected_items","severity":"error"}],"schematic_parity":[{"type":"footprint_filter","severity":"warning"}]}"#;
    let s = drc_summary(report).unwrap();
    assert_eq!(s.errors.len(), 1);
    assert_eq!(s.errors[0].kind, "\"clearance\"");
    assert_eq!(s.errors[0].description, "\"too close\"");
    assert_eq!(s.errors[0].items[0].description.as_deref(), Some("Pad 1"));
    assert_eq!(s.errors[0].items[0].identity, r#"{"description":"Pad 1","pos":{"x":1,"y":2}}"#);
    assert_eq!(s.warnings, 2);
    assert_eq!(s.parity_warnings, 1);
    assert_eq!(s.opens.len(), 1);
    assert_eq!(s.opens[0].kind, "\"unconnected_items\"");
    assert_eq!(
        drc_summary(br#"{"violations":[]}"#).unwrap_err(),
        "DRC report requires violations and unconnected_items arrays"
    );
    assert!(!drc_summary(b"{").unwrap_err().is_empty());
}

#[test]
fn unreadable_kicad_reports_are_structural_errors() {
    let d = kicad_report(b"not json", "p.kil.json", "ERC");
    assert_eq!(d.len(), 1);
    assert_eq!(d[0].code, "KICAD007");
    assert!(d[0].message.starts_with("invalid ERC report: "));
    let d = kicad_report(b"{}", "p.kil.json", "DRC");
    assert_eq!(d[0].message, "unrecognized DRC report structure");
    assert!(kicad_report(br#"{"violations":[]}"#, "p.kil.json", "DRC").is_empty());
}

#[test]
fn ui_history_does_not_invalidate_checks_but_validation_settings_do() {
    let first = br#"{"environment":{"vars":{}},"system":{"language":"en","working_dir":"one"}}"#;
    let next = br#"{"environment":{"vars":{}},"system":{"language":"en","working_dir":"two"}}"#;
    assert_eq!(
        kil_core::pipeline::validation_settings("kicad_common.json", Some(first)),
        kil_core::pipeline::validation_settings("kicad_common.json", Some(next))
    );
    let changed = br#"{"environment":{"vars":{}},"system":{"language":"pl","working_dir":"two"}}"#;
    assert_ne!(
        kil_core::pipeline::validation_settings("kicad_common.json", Some(first)),
        kil_core::pipeline::validation_settings("kicad_common.json", Some(changed))
    );
    assert_ne!(
        kil_core::pipeline::validation_settings("pcbnew.json", Some(br#"{"DRC":{"report_all_track_errors":true}}"#)),
        kil_core::pipeline::validation_settings("pcbnew.json", Some(br#"{"DRC":{"report_all_track_errors":false}}"#))
    );
    assert_eq!(
        kil_core::pipeline::validation_settings("pcbnew.json", None),
        kil_core::pipeline::validation_settings("pcbnew.json", Some(b"{}"))
    );
    assert_eq!(
        kil_core::pipeline::validation_settings("eeschema.json", Some(b"not json")),
        kil_core::pipeline::validation_settings("eeschema.json", None)
    );
}

#[test]
fn validation_settings_keep_exactly_the_relevant_part() {
    let common = br#"{"system":{"language":"en","x":1},"environment":{"vars":{"A":"b"}}}"#;
    assert_eq!(kil_core::pipeline::validation_settings("kicad_common.json", Some(common)), br#"[{"vars":{"A":"b"}},"en"]"#.to_vec());
    assert_eq!(kil_core::pipeline::validation_settings("pcbnew.json", None), b"null".to_vec());
    assert_eq!(kil_core::pipeline::validation_settings("eeschema.json", Some(br#"{"ERC":{"show_all_errors":true}}"#)), b"true".to_vec());
    assert_eq!(kil_core::pipeline::validation_settings("other.json", Some(b"raw")), b"raw".to_vec());
    assert!(kil_core::pipeline::validation_settings("other.json", None).is_empty());
}

#[test]
fn parsed_drc_reports_are_summarized_or_refused() {
    assert_eq!(
        kil_core::pipeline::drc_summary_of(&Json::Object(vec![])).unwrap_err(),
        "DRC report requires violations and unconnected_items arrays"
    );
    let report = Json::Object(vec![
        ("violations".into(), Json::Array(vec![])),
        ("unconnected_items".into(), Json::Array(vec![])),
    ]);
    let s = kil_core::pipeline::drc_summary_of(&report).unwrap();
    assert!(s.errors.is_empty() && s.opens.is_empty());
    assert_eq!(s.warnings, 0);
}
