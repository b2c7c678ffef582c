use kil_core::connectivity::Sexp;
use kil_core::diagnostic::Diagnostic;
use kil_core::pipeline::ExitClass;
use kil_core::route_run::{
    footprint_state, route_step, PublishFailure, RouteAction, RouteEvent, RouteStage, RouteState, RouterRun,
};
use kil_core::routing::{Copper, CopperRoute, NetRoutes};

fn start() -> RouteState {
    RouteState {
        stage: RouteStage::Loading,
        input: "p.kil.json".into(),
        diagnostics: vec![],
        connected: false,
        selected: vec![],
        initial: vec![],
        stdout: String::new(),
        copper_empty: false,
    }
}

fn copper(routes: usize) -> Copper {
    Copper {
        routes: vec![NetRoutes {
            net: "SIGNAL".into(),
            routes: (0..routes).map(|h| CopperRoute { key: format!("r{h}"), locked: false, handle: h }).collect(),
        }],
        vias: vec![],
    }
}

fn placements() -> Vec<(String, String)> {
    vec![("reference:R1".to_string(), "10 20 90|F.Cu".to_string())]
}

/// Drives a run up to the router's report.
fn routed(stdout: &str, diagnostics: Vec<Diagnostic>) -> RouteState {
    let (s, a) = route_step(start(), RouteEvent::Loaded(vec![], true, true, None));
    assert!(matches!(a, RouteAction::FindTools));
    let (s, a) = route_step(s, RouteEvent::Tools(true, true, true));
    assert!(matches!(a, RouteAction::Prepare));
    let (s, a) = route_step(s, RouteEvent::Prepared(vec![], true));
    assert!(matches!(a, RouteAction::Select));
    let (s, a) = route_step(s, RouteEvent::Selected(Ok(vec!["*".to_string()])));
    assert!(matches!(a, RouteAction::ApplyCache));
    let (s, a) = route_step(s, RouteEvent::CacheApplied(None, true));
    assert!(matches!(&a, RouteAction::Stage(p) if p == &vec!["*".to_string()]));
    let (s, a) = route_step(s, RouteEvent::Staged(None));
    assert!(matches!(a, RouteAction::ReadFootprints));
    let (s, a) = route_step(s, RouteEvent::Footprints(Ok(placements())));
    assert!(matches!(a, RouteAction::RunRouter(_)));
    let (s, a) = route_step(s, RouteEvent::Routed(RouterRun::Finished(stdout.into(), diagnostics)));
    assert!(matches!(a, RouteAction::ReadFootprints));
    s
}

#[test]
fn a_routing_run_validates_before_it_publishes() {
    let s = routed("progress\nJSON_SUMMARY: {\"routed\":1}\n", vec![]);
    let (s, a) = route_step(s, RouteEvent::Footprints(Ok(placements())));
    assert!(matches!(a, RouteAction::CopyBoard));
    let (s, a) = route_step(s, RouteEvent::Copied(None));
    assert!(matches!(a, RouteAction::ExtractCache));
    let (s, a) = route_step(s, RouteEvent::Extracted(Ok((copper(0), copper(1)))));
    assert!(matches!(&a, RouteAction::Validate(c) if c.routes[0].routes.len() == 1));
    let (s, a) = route_step(s, RouteEvent::Validated(vec![]));
    assert!(matches!(a, RouteAction::Regenerate));
    let (s, a) = route_step(s, RouteEvent::Regenerated(None));
    assert!(matches!(a, RouteAction::CheckWithKicad));
    let (s, a) = route_step(s, RouteEvent::Checked(vec![Diagnostic::error("DRC", "clearance", "p.kil.json")]));
    assert!(matches!(a, RouteAction::Publish));
    let (s, a) = route_step(s, RouteEvent::Published(None));
    assert!(matches!(a, RouteAction::Finish(ExitClass::DesignViolations)));
    assert_eq!(s.stage, RouteStage::Finished);
}

#[test]
fn moved_footprints_are_refused() {
    let s = routed("", vec![]);
    let moved = vec![("reference:R1".to_string(), "11 20 90|F.Cu".to_string())];
    let (s, a) = route_step(s, RouteEvent::Footprints(Ok(moved)));
    assert!(matches!(a, RouteAction::Finish(ExitClass::Invalid)));
    assert_eq!(s.diagnostics.last().unwrap().code, "ROUTE019");
}

#[test]
fn empty_router_output_is_refused_with_its_summary() {
    let s = routed("JSON_SUMMARY_MIN: {\"routed\":0}\nbye", vec![]);
    let (s, _) = route_step(s, RouteEvent::Footprints(Ok(placements())));
    let (s, _) = route_step(s, RouteEvent::Copied(None));
    let (s, _) = route_step(s, RouteEvent::Extracted(Ok((copper(0), copper(0)))));
    let (s, _) = route_step(s, RouteEvent::Validated(vec![]));
    let (s, _) = route_step(s, RouteEvent::Regenerated(None));
    let (s, a) = route_step(s, RouteEvent::Checked(vec![]));
    assert!(matches!(a, RouteAction::Finish(ExitClass::Invalid)));
    let d = s.diagnostics.last().unwrap();
    assert_eq!(d.code, "ROUTE015");
    assert_eq!(d.message, "router returned success but emitted no copper; JSON_SUMMARY_MIN: {\"routed\":0}");
}

#[test]
fn setup_failures_end_the_run() {
    let (s, a) = route_step(start(), RouteEvent::Loaded(vec![], true, false, None));
    assert!(matches!(a, RouteAction::Finish(ExitClass::Invalid)));
    assert_eq!(s.diagnostics[0].code, "ROUTE007");
    assert_eq!(s.diagnostics[0].help.as_deref(), Some("add a kicad-routing-tools routing policy to the PCB section"));
    let (s, _) = route_step(start(), RouteEvent::Loaded(vec![], true, true, None));
    let (s, _) = route_step(s, RouteEvent::Tools(true, false, true));
    assert_eq!(s.diagnostics[0].code, "ROUTE008");
    let (s, a) = route_step(start(), RouteEvent::Tools(true, true, true));
    assert!(matches!(a, RouteAction::Finish(ExitClass::Invalid)));
    assert!(s.diagnostics.is_empty());
    let s = routed("", vec![]);
    let (s, _) = route_step(s, RouteEvent::Footprints(Ok(placements())));
    let (s, _) = route_step(s, RouteEvent::Copied(None));
    let (s, _) = route_step(s, RouteEvent::Extracted(Ok((copper(0), copper(1)))));
    let (s, _) = route_step(s, RouteEvent::Validated(vec![]));
    let (s, _) = route_step(s, RouteEvent::Regenerated(None));
    let (s, _) = route_step(s, RouteEvent::Checked(vec![]));
    let (s, a) = route_step(s, RouteEvent::Published(Some(PublishFailure::Write("disk full".into(), "p.kil.routes.json".into()))));
    assert!(matches!(a, RouteAction::Finish(ExitClass::Invalid)));
    let d = s.diagnostics.last().unwrap();
    assert_eq!((d.code.as_str(), d.message.as_str(), d.file.as_str()), ("ROUTE014", "cannot publish routing cache: disk full", "p.kil.routes.json"));
}

#[test]
fn router_failures_show_its_error_output() {
    let (s, _) = route_step(start(), RouteEvent::Loaded(vec![], true, true, None));
    let (s, _) = route_step(s, RouteEvent::Tools(true, true, true));
    let (s, _) = route_step(s, RouteEvent::Prepared(vec![], true));
    let (s, _) = route_step(s, RouteEvent::Selected(Ok(vec!["*".to_string()])));
    let (s, _) = route_step(s, RouteEvent::CacheApplied(None, true));
    let (s, _) = route_step(s, RouteEvent::Staged(None));
    let (s, _) = route_step(s, RouteEvent::Footprints(Ok(placements())));
    let (s, _) = route_step(s, RouteEvent::Routed(RouterRun::Failed(String::new(), "out".into())));
    assert_eq!(s.diagnostics[0].message, "KiCadRoutingTools failed: out");
}

fn sym(s: &str) -> Sexp {
    Sexp::Symbol(s.into())
}

fn quoted(s: &str) -> Sexp {
    Sexp::Quoted(s.into())
}

fn list(items: Vec<Sexp>) -> Sexp {
    Sexp::List(items)
}

#[test]
fn footprint_states_are_keyed_by_reference_or_uuid() {
    let fp = |reference: Option<&str>, uuid: &str, x: &str| {
        let mut items = vec![
            sym("footprint"),
            quoted("R_0603"),
            list(vec![sym("layer"), quoted("F.Cu")]),
            list(vec![sym("at"), sym(x), sym("20"), sym("90")]),
            list(vec![sym("uuid"), quoted(uuid)]),
        ];
        if let Some(r) = reference {
            items.push(list(vec![sym("property"), quoted("Reference"), quoted(r)]));
        }
        list(items)
    };
    let board = list(vec![sym("kicad_pcb"), fp(Some("R2"), "u2", "5"), fp(None, "u9", "1"), fp(Some("R1"), "u1", "10")]);
    let state = footprint_state(&board, "b.kicad_pcb").unwrap();
    let keys: Vec<&str> = state.iter().map(|(k, _)| k.as_str()).collect();
    assert_eq!(keys, ["reference:R1", "reference:R2", "uuid:u9"]);
    assert_eq!(state[0].1, "10 20 90|F.Cu");
    let twice = list(vec![sym("kicad_pcb"), fp(Some("R1"), "a", "1"), fp(Some("R1"), "b", "2")]);
    assert_eq!(
        footprint_state(&twice, "b.kicad_pcb").unwrap_err(),
        "board 'b.kicad_pcb' has duplicate footprint reference 'reference:R1'"
    );
    let anonymous = list(vec![sym("kicad_pcb"), fp(None, "", "1")]);
    assert_eq!(
        footprint_state(&anonymous, "b.kicad_pcb").unwrap_err(),
        "board 'b.kicad_pcb' has a footprint without a reference or UUID"
    );
}

fn fp(name: &str, extra: Vec<Sexp>) -> Sexp {
    let mut items = vec![Sexp::Symbol("footprint".into()), Sexp::Quoted(name.into())];
    items.extend(extra);
    Sexp::List(items)
}

fn clause(head: &str, atoms: Vec<Sexp>) -> Sexp {
    let mut items = vec![Sexp::Symbol(head.into())];
    items.extend(atoms);
    Sexp::List(items)
}

fn reference(r: &str) -> Sexp {
    clause("property", vec![Sexp::Quoted("Reference".into()), Sexp::Quoted(r.into())])
}

fn board(fps: Vec<Sexp>) -> Sexp {
    let mut items = vec![Sexp::Symbol("kicad_pcb".into())];
    items.extend(fps);
    Sexp::List(items)
}

#[test]
fn placement_state_rejects_bad_boards_and_ignores_order() {
    let sym = |s: &str| Sexp::Symbol(s.into());
    let a = fp("R", vec![clause("layer", vec![Sexp::Quoted("F.Cu".into())]), clause("at", vec![sym("1"), sym("2"), sym("90")]), reference("R1")]);
    let b = fp("R", vec![clause("layer", vec![Sexp::Quoted("B.Cu".into())]), clause("at", vec![sym("3"), sym("4"), sym("0")]), reference("R2")]);
    let first = footprint_state(&board(vec![a.copy(), b.copy()]), "board.kicad_pcb").unwrap();
    assert_eq!(first.len(), 2);
    assert_eq!(first, footprint_state(&board(vec![b.copy(), a.copy()]), "board.kicad_pcb").unwrap());
    assert!(footprint_state(&board(vec![a.copy(), a.copy()]), "board.kicad_pcb").unwrap_err().contains("duplicate"));
    let hole = fp(
        "MountingHole",
        vec![
            clause("uuid", vec![Sexp::Quoted("hole-1".into())]),
            clause("layer", vec![Sexp::Quoted("F.Cu".into())]),
            clause("at", vec![sym("5"), sym("6")]),
            reference(""),
        ],
    );
    let first = footprint_state(&board(vec![a.copy(), hole.copy()]), "board.kicad_pcb").unwrap();
    assert_eq!(first, footprint_state(&board(vec![hole, a]), "board.kicad_pcb").unwrap());
    assert!(first.iter().any(|(k, _)| k == "uuid:hole-1"));
}
