use kil_core::connectivity::{verify, verify_nodes, read_exported, Sexp};
use kil_core::validate::NetEntry;

fn components() -> Vec<(String, String)> {
    vec![("R1".to_string(), "R1".to_string()), ("R2".to_string(), "R2".to_string())]
}

fn nets(name: &str, endpoints: &[&str]) -> Vec<NetEntry> {
    vec![NetEntry { name: name.into(), endpoints: endpoints.iter().map(|s| s.to_string()).collect() }]
}

#[test]
fn module_private_nets_match_kicad_escaped_names() {
    let project = nets("channel/internal", &["R1.1", "R2.1"]);
    let netlist = r#"(export (nets (net (name "channel{slash}internal") (node (ref "R1") (pin "1")) (node (ref "R2") (pin "1")))))"#;
    assert!(verify(&components(), &project, netlist).is_ok());
    assert!(verify(&components(), &project, &netlist.replace("channel{slash}internal", "other")).is_err());
}

#[test]
fn detects_missing_endpoints_and_unintended_geometric_shorts() {
    let project = nets("N", &["R1.1", "R2.1"]);
    let good = r#"(export (nets (net (name "/N") (node (ref "R1") (pin "1")) (node (ref "R2") (pin "1")))))"#;
    assert!(verify(&components(), &project, good).is_ok());
    assert!(verify(&components(), &project, &good.replace("(node (ref \"R2\") (pin \"1\"))", "")).is_err());
    assert!(verify(
        &components(),
        &project,
        &good.replace("(pin \"1\")))))", "(pin \"1\")) (node (ref \"R2\") (pin \"2\")))))")
    )
    .is_err());
    assert!(verify(&components(), &project, "{}").is_err());
}

#[test]
fn netlist_problems_are_named_exactly() {
    let project = nets("N", &["R1.1", "R2.1"]);
    let missing = r#"(export (nets (net (name "/N") (node (ref "R1") (pin "1")))))"#;
    assert_eq!(
        verify(&components(), &project, missing),
        Err("net 'N' differs from circuit intent: expected {\"R1.1\", \"R2.1\"}, exported {\"R1.1\"}".to_string())
    );
    let short = r#"(export (nets (net (name "/N") (node (ref "R1") (pin "1")) (node (ref "R2") (pin "1"))) (net (name "Net-(R1-Pad2)") (node (ref "R2") (pin "2")) (node (ref "R1") (pin "2")))))"#;
    assert_eq!(
        verify(&components(), &project, short),
        Err("unexpected electrical connection 'Net-(R1-Pad2)': {\"R1.2\", \"R2.2\"}".to_string())
    );
    let twice = r#"(export (nets (net (name "/N") (node (ref "R1") (pin "1")) (node (ref "R1") (pin "1")))))"#;
    assert_eq!(
        verify(&components(), &project, twice),
        Err("terminal 'R1.1' appears in multiple nets".to_string())
    );
    let stranger = r#"(export (nets (net (name "/N") (node (ref "U9") (pin "1")))))"#;
    assert_eq!(verify(&components(), &project, stranger), Err("unexpected component 'U9' in netlist".to_string()));
    assert_eq!(verify(&components(), &project, "(export)"), Err("netlist has no nets section".to_string()));
    let isolated = r#"(export (nets (net (name "/N") (node (ref "R1") (pin "1")) (node (ref "R2") (pin "1"))) (net (name "unconnected-(R1-Pad2)") (node (ref "R1") (pin "2")))))"#;
    assert!(verify(&components(), &project, isolated).is_ok());
}

#[test]
fn parsed_netlist_nodes_are_checked_like_text() {
    let comps = vec![("R1".to_string(), "R1".to_string()), ("R2".to_string(), "R2".to_string())];
    let nets = vec![kil_core::validate::NetEntry { name: "N".into(), endpoints: vec!["R1.1".into(), "R2.1".into()] }];
    assert_eq!(verify_nodes(&comps, &nets, &vec![]), Err("empty netlist".to_string()));
    let root = Sexp::List(vec![Sexp::Symbol("export".into())]);
    assert_eq!(verify_nodes(&comps, &nets, &vec![root]), Err("netlist has no nets section".to_string()));
    let node = |r: &str, p: &str| {
        Sexp::List(vec![
            Sexp::Symbol("node".into()),
            Sexp::List(vec![Sexp::Symbol("ref".into()), Sexp::Quoted(r.into())]),
            Sexp::List(vec![Sexp::Symbol("pin".into()), Sexp::Quoted(p.into())]),
        ])
    };
    let section = Sexp::List(vec![
        Sexp::Symbol("nets".into()),
        Sexp::List(vec![
            Sexp::Symbol("net".into()),
            Sexp::List(vec![Sexp::Symbol("name".into()), Sexp::Quoted("/N".into())]),
            node("R1", "1"),
            node("R2", "1"),
        ]),
    ]);
    let read = read_exported(&comps, &section).unwrap();
    assert_eq!(read.len(), 1);
    assert_eq!(read[0].1, vec!["R1.1".to_string(), "R2.1".to_string()]);
    let root = Sexp::List(vec![Sexp::Symbol("export".into()), section]);
    assert_eq!(verify_nodes(&comps, &nets, &vec![root]), Ok(()));
}
