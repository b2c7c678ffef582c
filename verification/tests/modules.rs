use kil_core::modules::{
    assign_references, bind_ports, qualify, canonical_endpoint, check_net_declaration, check_parameters, check_part, instantiate,
    substitute, Json, PartAliases, ParameterDecl, ParameterType, PartRef, ValueKind,
};

fn num(n: &str) -> Json {
    Json::Number(n.into())
}

fn text(t: &str) -> Json {
    Json::Text(t.into())
}

fn object(members: Vec<(&str, Json)>) -> Json {
    Json::Object(members.into_iter().map(|(k, v)| (k.to_string(), v)).collect())
}

fn part(id: &str, reference: &str, prefix: &str) -> PartRef {
    PartRef { id: id.into(), reference: reference.into(), prefix: prefix.into() }
}

fn pairs(v: &[(&str, &str)]) -> Vec<(String, String)> {
    v.iter().map(|(a, b)| (a.to_string(), b.to_string())).collect()
}

fn strings(v: &[&str]) -> Vec<String> {
    v.iter().map(|s| s.to_string()).collect()
}

#[test]
fn unprinted_references_take_the_least_free_number_in_id_order() {
    let parts = vec![
        part("z", "", "R"),
        part("a", "", "R"),
        part("m", "R1", "R"),
        part("c", "", "C"),
        part("b", "R3", "R"),
    ];
    let (refs, diags) = assign_references(&parts, "p.kil.json");
    assert_eq!(refs, strings(&["R4", "R2", "R1", "C1", "R3"]));
    assert!(diags.is_empty());
}

#[test]
fn repeated_printed_references_are_errors() {
    let parts = vec![part("a", "R1", "R"), part("b", "R1", "R"), part("c", "", "R"), part("d", "R1", "R")];
    let (refs, diags) = assign_references(&parts, "p.kil.json");
    assert_eq!(refs, strings(&["R1", "R1", "R2", "R1"]));
    assert_eq!(diags.len(), 2);
    assert_eq!(diags[0].code, "ID002");
    assert_eq!(diags[0].message, "duplicate printed reference 'R1'");
    assert_eq!(diags[0].file, "p.kil.json");
}

#[test]
fn aliases_resolve_to_physical_terminals() {
    let parts = vec![PartAliases { id: "block/R1".into(), aliases: pairs(&[("positive", "1"), ("negative", "2")]) }];
    assert_eq!(canonical_endpoint(&parts, "block/R1.positive"), "block/R1.1");
    assert_eq!(canonical_endpoint(&parts, "block/R1.2"), "block/R1.2");
    assert_eq!(canonical_endpoint(&parts, "R9.positive"), "R9.positive");
    assert_eq!(canonical_endpoint(&parts, "nodot"), "nodot");
}

#[test]
fn part_declarations_are_checked() {
    let ok = check_part("R1", "R", Some("R12"), &pairs(&[("pos", "1")]), "f");
    assert!(ok.is_empty());
    let bad_id = check_part("R.1", "R", Some("X"), &pairs(&[("1", "1")]), "f");
    assert_eq!(bad_id.len(), 1);
    assert_eq!(bad_id[0].code, "ID001");
    assert_eq!(bad_id[0].message, "invalid part id or reference prefix 'R.1'");
    let bad_prefix = check_part("R1", "R2", None, &vec![], "f");
    assert_eq!(bad_prefix[0].code, "ID001");
    let d = check_part("R1", "R", Some("R0"), &pairs(&[("12", "1"), ("a.b", "2"), ("ok", ""), ("fine", "3")]), "f");
    let codes: Vec<&str> = d.iter().map(|x| x.code.as_str()).collect();
    assert_eq!(codes, vec!["ID004", "ID005", "ID005", "ID005"]);
    assert_eq!(d[0].message, "printed reference 'R0' must use its prefix followed by a positive integer");
    assert_eq!(d[1].message, "invalid terminal alias '12'");
    assert!(check_part("R1", "R", Some("C1"), &vec![], "f")[0].code == "ID004");
}

#[test]
fn empty_terminal_is_rejected() {
    let d = check_net_declaration("SIGNAL", &strings(&["R1."]), &strings(&["R1"]), "f");
    assert!(d.iter().any(|x| x.code == "NET009"));
}

#[test]
fn local_nets_connect_only_local_part_terminals() {
    let d = check_net_declaration("a/b", &strings(&["R1.1", "X1.1", "R1", "R1.2"]), &strings(&["R1"]), "f");
    let codes: Vec<&str> = d.iter().map(|x| x.code.as_str()).collect();
    assert_eq!(codes, vec!["NET008", "NET009", "NET009"]);
    assert_eq!(d[1].message, "'X1.1' is not a local part terminal; connect instances through their ports");
}

#[test]
fn bind_ports_reports_unknown_and_missing_ports() {
    let ports = pairs(&[("IN", "in"), ("GND", "gnd")]);
    let connections = pairs(&[("IN", "SIGNAL"), ("secret", "X")]);
    let (bindings, d) = bind_ports(&ports, &connections, &strings(&["in", "gnd"]), &vec![], "divider", "p.json", "m.json");
    assert_eq!(bindings, pairs(&[("in", "divider/SIGNAL")]));
    let codes: Vec<&str> = d.iter().map(|x| x.code.as_str()).collect();
    assert_eq!(codes, vec!["MOD011", "MOD014"]);
    assert_eq!(d[0].message, "unknown port 'secret'");
    assert_eq!(d[1].message, "missing connection for port 'GND'");
}

#[test]
fn ports_on_one_net_must_agree_and_parent_bindings_pass_through() {
    let ports = pairs(&[("A", "n"), ("B", "n"), ("C", "ghost")]);
    let connections = pairs(&[("A", "VCC"), ("B", "GND"), ("C", "GND")]);
    let parent = pairs(&[("VCC", "top/VCC")]);
    let (bindings, d) = bind_ports(&ports, &connections, &strings(&["n"]), &parent, "blk", "p.json", "m.json");
    assert_eq!(bindings, pairs(&[("n", "blk/GND"), ("ghost", "blk/GND")]));
    let got: Vec<(&str, &str)> = d.iter().map(|x| (x.code.as_str(), x.file.as_str())).collect();
    assert_eq!(got, vec![("MOD013", "p.json"), ("MOD012", "m.json")]);
    assert_eq!(d[1].message, "port 'C' exposes unknown net 'ghost'");
}

#[test]
fn parameters_must_be_declared_given_and_typed() {
    let decls = vec![
        ParameterDecl { name: "r".into(), kind: ParameterType::Number, default: Some(num("10")) },
        ParameterDecl { name: "label".into(), kind: ParameterType::String, default: None },
    ];
    let given = vec![("label".to_string(), text("R"))];
    assert_eq!(
        check_parameters(&decls, &given),
        Ok(vec![("r".to_string(), num("10")), ("label".to_string(), text("R"))])
    );
    let unknown = vec![("label".to_string(), text("R")), ("x".to_string(), Json::Bool(true))];
    assert_eq!(check_parameters(&decls, &unknown), Err("unknown parameter 'x'".to_string()));
    assert_eq!(check_parameters(&decls, &vec![]), Err("missing parameter 'label'".to_string()));
    let wrong = vec![("label".to_string(), text("R")), ("r".to_string(), text("1"))];
    assert_eq!(check_parameters(&decls, &wrong), Err("wrong type for parameter 'r'".to_string()));
    let given_wins = vec![("r".to_string(), num("22")), ("label".to_string(), text("Q"))];
    assert_eq!(
        check_parameters(&decls, &given_wins),
        Ok(vec![("r".to_string(), num("22")), ("label".to_string(), text("Q"))])
    );
    assert_eq!(num("1").kind(), ValueKind::Number);
    assert_eq!(Json::Null.kind(), ValueKind::Other);
}

#[test]
fn placeholders_take_parameter_values_but_not_inside_declarations() {
    let parameters = vec![("foo.bar".to_string(), num("12.5")), ("name".to_string(), text("R"))];
    let document = object(vec![
        ("parameters", object(vec![("foo.bar", object(vec![("type", text("number")), ("default", text("${foo.bar}"))]))])),
        ("pcb", object(vec![("placement", Json::Array(vec![text("${foo.bar}"), text("x${name}"), text("${name}")]))])),
        ("flag", Json::Bool(false)),
    ]);
    let expected = object(vec![
        ("parameters", object(vec![("foo.bar", object(vec![("type", text("number")), ("default", text("${foo.bar}"))]))])),
        ("pcb", object(vec![("placement", Json::Array(vec![num("12.5"), text("x${name}"), text("R")]))])),
        ("flag", Json::Bool(false)),
    ]);
    assert_eq!(substitute(&document, &parameters), Ok(expected));
    assert_eq!(substitute(&text("${}"), &parameters), Err("unknown parameter ''".to_string()));
    assert_eq!(substitute(&text("${"), &parameters), Ok(text("${")));
    let two_unknown = Json::Array(vec![text("${a}"), text("${b}")]);
    assert_eq!(substitute(&two_unknown, &parameters), Err("unknown parameter 'a'".to_string()));
}

#[test]
fn instances_are_checked_before_their_documents_are_filled_in() {
    let decls = vec![ParameterDecl { name: "w".into(), kind: ParameterType::Number, default: None }];
    let document = object(vec![("width", text("${w}"))]);
    let given = vec![("w".to_string(), num("0.25"))];
    assert_eq!(instantiate(&document, &decls, &given), Ok(object(vec![("width", num("0.25"))])));
    assert_eq!(instantiate(&document, &decls, &vec![]), Err("missing parameter 'w'".to_string()));
    let stray = object(vec![("width", text("${v}"))]);
    assert_eq!(instantiate(&stray, &decls, &given), Err("unknown parameter 'v'".to_string()));
}

#[test]
fn instances_get_disjoint_namespaces() {
    let left = qualify(&qualify("", "divider"), "R1");
    let right = qualify(&qualify("", "other"), "R1");
    assert_eq!(left, "divider/R1");
    assert_ne!(left, right);
    assert_ne!(qualify(&qualify("top", "a"), "b/c"), qualify(&qualify("top", "ab"), "c"));
    assert_eq!(qualify(&qualify("top", "a"), "x"), "top/a/x");
}

#[test]
fn documents_without_placeholders_come_back_unchanged() {
    let document = object(vec![
        ("parameters", object(vec![("w", object(vec![("default", text("${w}"))]))])),
        ("pcb", Json::Array(vec![text("$w"), text("{w}"), text("${w"), num("1"), Json::Null])),
    ]);
    let copy = object(vec![
        ("parameters", object(vec![("w", object(vec![("default", text("${w}"))]))])),
        ("pcb", Json::Array(vec![text("$w"), text("{w}"), text("${w"), num("1"), Json::Null])),
    ]);
    assert_eq!(substitute(&document, &vec![]), Ok(copy));
}
