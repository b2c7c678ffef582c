use kil_core::build_run::{build_step, BuildAction, BuildEvent, BuildStage, BuildStageFailure, BuildState};
use kil_core::diagnostic::{Diagnostic, Severity};
use kil_core::pipeline::{build, check, ExitClass};

fn start(publish: bool) -> BuildState {
    if publish {
        build("p.kil.json")
    } else {
        check("p.kil.json")
    }
}

#[test]
fn checks_and_builds_start_loading_and_differ_only_in_publishing() {
    let c = check("p.kil.json");
    let b = build("p.kil.json");
    assert_eq!((c.stage, b.stage), (BuildStage::Loading, BuildStage::Loading));
    assert_eq!((c.input.as_str(), b.input.as_str()), ("p.kil.json", "p.kil.json"));
    assert!(!c.publish && b.publish);
    assert!(c.diagnostics.is_empty() && b.diagnostics.is_empty());
    let direct = BuildState { stage: BuildStage::Loading, input: "p.kil.json".into(), publish: false, diagnostics: vec![] };
    assert_eq!(direct.publish, c.publish);
}

/// Drives a run up to the staging of the generated project.
fn prepared(publish: bool, routing: bool) -> BuildState {
    let (s, a) = build_step(start(publish), BuildEvent::Loaded(vec![], true));
    assert_eq!(a, BuildAction::FindTools);
    let (s, a) = build_step(s, BuildEvent::Tools(true));
    assert_eq!(a, BuildAction::Prepare);
    let (s, a) = build_step(s, BuildEvent::Prepared(vec![Diagnostic::warning("LIB010", "old symbol", "p.kil.json")], routing));
    if routing {
        assert_eq!(a, BuildAction::ApplyCache);
    } else {
        assert_eq!(a, BuildAction::Stage);
    }
    s
}

fn checked(publish: bool, findings: Vec<Diagnostic>) -> (BuildState, BuildAction) {
    let (s, a) = build_step(prepared(publish, false), BuildEvent::Staged(None));
    assert_eq!(a, BuildAction::CheckWithKicad);
    build_step(s, BuildEvent::Checked(findings))
}

#[test]
fn a_clean_check_succeeds_without_publishing() {
    let (s, a) = checked(false, vec![Diagnostic::warning("DRC", "silk overlap", "p.kil.json")]);
    assert_eq!(a, BuildAction::Finish(ExitClass::Success));
    assert_eq!(s.stage, BuildStage::Finished);
    assert_eq!(s.diagnostics.len(), 2);
    assert_eq!(s.diagnostics[1].code, "DRC");
}

#[test]
fn a_build_publishes_after_validation_and_reports_design_violations() {
    let (s, a) = checked(true, vec![Diagnostic::error("DRC", "clearance", "p.kil.json")]);
    assert_eq!(a, BuildAction::Publish);
    let (s, a) = build_step(s, BuildEvent::Published(None));
    assert_eq!(a, BuildAction::Finish(ExitClass::DesignViolations));
    assert_eq!(s.diagnostics.len(), 2);
}

#[test]
fn kicad_structural_errors_stop_the_build_before_publishing() {
    let (s, a) = checked(true, vec![Diagnostic::error("KICAD007", "invalid drc report: eof", "p.kil.json")]);
    assert_eq!(a, BuildAction::Finish(ExitClass::Invalid));
    assert_eq!(s.stage, BuildStage::Finished);
}

#[test]
fn a_missing_kicad_cli_is_reported() {
    let (s, _) = build_step(start(false), BuildEvent::Loaded(vec![], true));
    let (s, a) = build_step(s, BuildEvent::Tools(false));
    assert_eq!(a, BuildAction::Finish(ExitClass::Invalid));
    let d = s.diagnostics.last().unwrap();
    assert_eq!(d.code, "KICAD001");
    assert_eq!(d.message, "kicad-cli was not found");
    assert_eq!(d.help.as_deref(), Some("install KiCad 10, add kicad-cli to PATH, or pass --kicad-cli"));
}

#[test]
fn loading_errors_end_the_run() {
    let (s, a) = build_step(start(true), BuildEvent::Loaded(vec![Diagnostic::error("KIL001", "unsupported", "p.kil.json")], true));
    assert_eq!(a, BuildAction::Finish(ExitClass::Invalid));
    assert_eq!(s.diagnostics.len(), 1);
    let (_, a) = build_step(start(true), BuildEvent::Loaded(vec![], false));
    assert_eq!(a, BuildAction::Finish(ExitClass::Invalid));
}

#[test]
fn the_route_cache_adds_only_findings_it_introduced() {
    let s = prepared(false, true);
    let old = Diagnostic::warning("ROUTE003", "unrouted", "p.kil.json");
    let new = Diagnostic::warning("ROUTE004", "stale via", "p.kil.json");
    let (s, a) = build_step(s, BuildEvent::CacheApplied(Ok((vec![old.clone()], vec![old.clone(), new.clone()]))));
    assert_eq!(a, BuildAction::Stage);
    let codes: Vec<&str> = s.diagnostics.iter().map(|d| d.code.as_str()).collect();
    assert_eq!(codes, vec!["LIB010", "ROUTE004"]);
    assert_eq!(s.diagnostics[1], new);

    let s = prepared(false, true);
    let (s, a) = build_step(s, BuildEvent::CacheApplied(Err(Diagnostic::error("ROUTE001", "stale cache", "p.kil.json"))));
    assert_eq!(a, BuildAction::Finish(ExitClass::Invalid));
    assert_eq!(s.diagnostics.last().unwrap().code, "ROUTE001");
}

#[test]
fn staging_and_publishing_failures_are_reported() {
    let (s, a) = build_step(prepared(true, false), BuildEvent::Staged(Some(BuildStageFailure::Parent("denied".into()))));
    assert_eq!(a, BuildAction::Finish(ExitClass::Invalid));
    let d = s.diagnostics.last().unwrap();
    assert_eq!((d.code.as_str(), d.message.as_str()), ("IO002", "cannot create staging parent: denied"));
    assert_eq!(d.severity, Severity::Error);

    let (s, _) = build_step(prepared(true, false), BuildEvent::Staged(Some(BuildStageFailure::Write("full".into()))));
    let d = s.diagnostics.last().unwrap();
    assert_eq!((d.code.as_str(), d.message.as_str()), ("GEN001", "cannot write staged project: full"));

    let (s, _) = build_step(prepared(true, false), BuildEvent::Staged(Some(BuildStageFailure::Generated("missing board".into()))));
    assert_eq!(s.diagnostics.last().unwrap().code, "GEN002");

    let (s, a) = checked(true, vec![]);
    assert_eq!(a, BuildAction::Publish);
    let (s, a) = build_step(s, BuildEvent::Published(Some("rename failed".into())));
    assert_eq!(a, BuildAction::Finish(ExitClass::Invalid));
    let d = s.diagnostics.last().unwrap();
    assert_eq!((d.code.as_str(), d.message.as_str()), ("IO003", "atomic publish failed: rename failed"));
}

#[test]
fn an_out_of_order_report_ends_the_run() {
    let (s, a) = build_step(start(false), BuildEvent::Tools(true));
    assert_eq!(a, BuildAction::Finish(ExitClass::Invalid));
    let (s, a) = build_step(s, BuildEvent::Loaded(vec![], true));
    assert_eq!(a, BuildAction::Finish(ExitClass::Invalid));
    assert_eq!(s.stage, BuildStage::Finished);
}
