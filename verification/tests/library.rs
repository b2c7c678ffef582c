use kil_core::connectivity::Sexp;
use kil_core::library::{
    check_assets, expand_variables, find_named_symbol_node, merge_derived_symbol, resolve_symbol, AssetError, LibrarySymbol, node_head, node_second, node_third, replace_text,
    set_node_name, symbol_properties, symbol_unit_number,
};

fn symbol(value: &str) -> Sexp {
    Sexp::Symbol(value.to_string())
}

fn quoted(value: &str) -> Sexp {
    Sexp::Quoted(value.to_string())
}

fn list(items: Vec<Sexp>) -> Sexp {
    Sexp::List(items)
}

fn property(node: &Sexp, key: &str) -> Option<String> {
    symbol_properties(node).into_iter().find(|(k, _)| k == key).map(|(_, v)| v)
}

#[test]
fn unit_numbers_come_from_the_second_to_last_segment() {
    assert_eq!(symbol_unit_number("Base_1_1"), Some(1));
    assert_eq!(symbol_unit_number("Op_Amp_2_1"), Some(2));
    assert_eq!(symbol_unit_number("3_0"), Some(3));
    assert_eq!(symbol_unit_number("R"), None);
    assert_eq!(symbol_unit_number("R_x_1"), None);
    assert_eq!(symbol_unit_number("R_+4_1"), Some(4));
}

#[test]
fn table_variables_are_substituted_in_order() {
    let vars = vec![
        ("KICAD10_SYMBOL_DIR".to_string(), "/usr/share/kicad/symbols".to_string()),
        ("KIPRJMOD".to_string(), "/work".to_string()),
    ];
    assert_eq!(
        expand_variables("${KICAD10_SYMBOL_DIR}/Device.kicad_sym", &vars),
        "/usr/share/kicad/symbols/Device.kicad_sym"
    );
    assert_eq!(expand_variables("${KIPRJMOD}/lib/${KIPRJMOD}", &vars), "/work/lib//work");
    assert_eq!(expand_variables("${UNKNOWN}/x", &vars), "${UNKNOWN}/x");
}

#[test]
fn replacement_scans_left_to_right_without_overlap() {
    assert_eq!(replace_text("aaaa", "aa", "b"), "bb");
    assert_eq!(replace_text("abc", "x", "y"), "abc");
    assert_eq!(replace_text("a.b.c", ".", "::"), "a::b::c");
}

#[test]
fn derived_symbol_overrides_properties_and_renames_units() {
    let base = list(vec![
        symbol("symbol"),
        quoted("Base"),
        list(vec![symbol("property"), quoted("Value"), quoted("Base")]),
        list(vec![symbol("symbol"), quoted("Base_0_1")]),
        list(vec![symbol("symbol"), quoted("Base_1_1")]),
    ]);
    let derived = list(vec![
        symbol("symbol"),
        quoted("Child"),
        list(vec![symbol("extends"), quoted("Base")]),
        list(vec![symbol("property"), quoted("Value"), quoted("Child")]),
    ]);

    let merged = merge_derived_symbol(&base, &derived, "Base", "Child");
    let Sexp::List(items) = &merged else {
        unreachable!();
    };

    assert_eq!(node_second(&merged).as_deref(), Some("Child"));
    assert!(!items.iter().any(|node| node_head(node).as_deref() == Some("extends")));
    assert_eq!(property(&merged, "Value").unwrap(), "Child");
    assert!(items.iter().any(|node| node_second(node).as_deref() == Some("Child_0_1")));
    assert!(items.iter().any(|node| node_second(node).as_deref() == Some("Child_1_1")));
}

#[test]
fn derived_clauses_replace_by_head_or_append() {
    let base = list(vec![
        symbol("symbol"),
        quoted("Base"),
        list(vec![symbol("pin_names"), list(vec![symbol("offset"), symbol("0")])]),
        list(vec![symbol("property"), quoted("Footprint"), quoted("")]),
        list(vec![symbol("symbol"), quoted("Other_1_1")]),
    ]);
    let derived = list(vec![
        symbol("symbol"),
        quoted("Child"),
        list(vec![symbol("pin_names"), symbol("hide")]),
        list(vec![symbol("property"), quoted("Datasheet"), quoted("x.pdf")]),
        list(vec![symbol("in_bom"), symbol("no")]),
        list(vec![symbol("in_bom"), symbol("yes")]),
        symbol("stray"),
    ]);
    let expected = list(vec![
        symbol("symbol"),
        quoted("Child"),
        list(vec![symbol("pin_names"), symbol("hide")]),
        list(vec![symbol("property"), quoted("Footprint"), quoted("")]),
        list(vec![symbol("symbol"), quoted("Other_1_1")]),
        list(vec![symbol("property"), quoted("Datasheet"), quoted("x.pdf")]),
        list(vec![symbol("in_bom"), symbol("yes")]),
    ]);
    assert_eq!(merge_derived_symbol(&base, &derived, "Base", "Child"), expected);
    assert_eq!(merge_derived_symbol(&symbol("x"), &derived, "Base", "Child"), symbol("x"));
}

#[test]
fn properties_keep_the_last_value_in_key_order() {
    let node = list(vec![
        symbol("symbol"),
        quoted("R"),
        list(vec![symbol("property"), quoted("Value"), quoted("R")]),
        list(vec![symbol("property"), quoted("Datasheet"), quoted("~")]),
        list(vec![symbol("property"), quoted("Value"), quoted("10k")]),
        list(vec![symbol("property"), quoted("Broken")]),
    ]);
    assert_eq!(
        symbol_properties(&node),
        vec![("Datasheet".to_string(), "~".to_string()), ("Value".to_string(), "10k".to_string())]
    );
    assert_eq!(node_third(&list(vec![symbol("property"), quoted("a"), quoted("b")])).as_deref(), Some("b"));
    assert_eq!(node_head(&quoted("a")), None);
}

#[test]
fn symbols_are_found_by_quoted_name_and_renamed() {
    let library = vec![list(vec![
        symbol("kicad_symbol_lib"),
        list(vec![symbol("version"), symbol("20231120")]),
        list(vec![symbol("symbol"), symbol("R")]),
        list(vec![symbol("symbol"), quoted("R"), list(vec![symbol("pin")])]),
    ])];
    let found = find_named_symbol_node(&library, "R").unwrap();
    assert_eq!(found, &list(vec![symbol("symbol"), quoted("R"), list(vec![symbol("pin")])]));
    assert!(find_named_symbol_node(&library, "C").is_none());
    assert!(find_named_symbol_node(&vec![], "R").is_none());
    let mut node = found.copy();
    set_node_name(&mut node, "R_Small");
    assert_eq!(node, list(vec![symbol("symbol"), quoted("R_Small"), list(vec![symbol("pin")])]));
}

fn declared(name: &str, extends: Option<&str>) -> LibrarySymbol {
    LibrarySymbol { name: Some(name.to_string()), extends: extends.map(|e| e.to_string()) }
}

fn definition(name: &str, extends: Option<&str>, value: &str) -> Sexp {
    let mut items = vec![symbol("symbol"), quoted(name)];
    if let Some(base) = extends {
        items.push(list(vec![symbol("extends"), quoted(base)]));
    }
    items.push(list(vec![symbol("property"), quoted("Value"), quoted(value)]));
    items.push(list(vec![symbol("symbol"), quoted(&format!("{name}_1_1"))]));
    list(items)
}

#[test]
fn derived_symbols_resolve_through_their_bases() {
    let symbols = vec![declared("A", None), declared("B", Some("A")), declared("C", Some("B"))];
    let nodes = vec![list(vec![
        symbol("kicad_symbol_lib"),
        definition("A", None, "a"),
        definition("B", Some("A"), "b"),
        definition("C", Some("B"), "c"),
    ])];
    let resolved = resolve_symbol(&symbols, &nodes, "C", "lib:C", &vec![]).unwrap();
    assert_eq!(resolved.derived_from, vec!["B".to_string(), "A".to_string()]);
    assert_eq!(resolved.base, 0);
    assert_eq!(node_second(&resolved.node).as_deref(), Some("C"));
    assert_eq!(property(&resolved.node, "Value").as_deref(), Some("c"));
    let Sexp::List(items) = &resolved.node else { unreachable!() };
    assert!(items.iter().any(|n| node_second(n).as_deref() == Some("C_1_1")));
    let plain = resolve_symbol(&symbols, &nodes, "A", "lib:A", &vec![]).unwrap();
    assert!(plain.derived_from.is_empty());
    assert_eq!(plain.node, definition("A", None, "a"));
}

#[test]
fn broken_derivations_are_asset_errors() {
    let symbols = vec![declared("X", Some("Y")), declared("Y", Some("X")), declared("Z", Some("gone")), declared("W", None)];
    let nodes = vec![list(vec![
        symbol("kicad_symbol_lib"),
        definition("X", Some("Y"), "x"),
        definition("Y", Some("X"), "y"),
        definition("Z", Some("gone"), "z"),
    ])];
    assert_eq!(
        resolve_symbol(&symbols, &nodes, "X", "lib:X", &vec![]).unwrap_err(),
        AssetError { code: "LIB007".into(), message: "derived symbol cycle in 'lib:X': X -> Y -> X".into() }
    );
    assert_eq!(
        resolve_symbol(&symbols, &nodes, "Z", "lib:Z", &vec![]).unwrap_err(),
        AssetError { code: "LIB001".into(), message: "symbol 'lib:Z' is absent from its library".into() }
    );
    assert_eq!(
        resolve_symbol(&symbols, &nodes, "W", "lib:W", &vec![]).unwrap_err(),
        AssetError { code: "LIB006".into(), message: "cannot extract symbol 'lib:W'".into() }
    );
}

fn texts(v: &[&str]) -> Vec<String> {
    v.iter().map(|s| s.to_string()).collect()
}

fn asset_error(code: &str, message: &str) -> AssetError {
    AssetError { code: code.into(), message: message.into() }
}

#[test]
fn library_assets_are_checked_per_component() {
    let source = r#"{"components":{"R1":{"symbol":"Device:R","footprint":"Lib:Two"},"R2":{"symbol":"Device:R","footprint":"Lib:One"},"U1":{"symbol":"Missing:U","footprint":"Lib:One"},"U2":{"symbol":"Device:R","footprint":"Gone:F"}}}"#;
    let components = vec![
        ("R1".to_string(), "Device:R".to_string(), "Lib:Two".to_string()),
        ("R2".to_string(), "Device:R".to_string(), "Lib:One".to_string()),
        ("U1".to_string(), "Missing:U".to_string(), "Lib:One".to_string()),
        ("U2".to_string(), "Device:R".to_string(), "Gone:F".to_string()),
    ];
    let symbols = vec![
        ("Device:R".to_string(), Ok(texts(&["2", "1", "2"]))),
        ("Missing:U".to_string(), Err(asset_error("LIB001", "cannot resolve symbol 'Missing:U'"))),
    ];
    let footprints = vec![
        ("Lib:Two".to_string(), Ok(texts(&["1", "2", "3"]))),
        ("Lib:One".to_string(), Ok(texts(&["1"]))),
        ("Gone:F".to_string(), Err(asset_error("LIB002", "cannot resolve footprint 'Gone:F'"))),
    ];
    let r = check_assets(&components, &symbols, &footprints, &None, "p.json", source);
    assert_eq!(r.resolved, vec![0]);
    assert!(!r.power_flag);
    let got: Vec<(&str, &str, &str)> =
        r.diagnostics.iter().map(|d| (d.code.as_str(), d.message.as_str(), d.path.as_deref().unwrap())).collect();
    assert_eq!(
        got,
        vec![
            ("LIB003", "footprint 'Lib:One' lacks symbol pads: 2", "/components/R2/footprint"),
            ("LIB001", "cannot resolve symbol 'Missing:U'", "/components/U1/symbol"),
            ("LIB002", "cannot resolve footprint 'Gone:F'", "/components/U2/footprint"),
        ]
    );
    let span = r.diagnostics[0].span.unwrap();
    assert!(span.start > source.find("R2").unwrap() && span.start < source.find("U1").unwrap());
    assert_eq!(&source[span.start..span.end], "\"footprint\"");
}

#[test]
fn missing_pads_are_listed_once_in_ascending_order() {
    let components = vec![("J1".to_string(), "Conn:J".to_string(), "Lib:Empty".to_string())];
    let symbols = vec![("Conn:J".to_string(), Ok(texts(&["3", "1", "10", "3"])))];
    let footprints = vec![("Lib:Empty".to_string(), Ok(texts(&[])))];
    let power = Some(Err(asset_error("LIB001", "cannot resolve symbol 'power:PWR_FLAG'")));
    let r = check_assets(&components, &symbols, &footprints, &power, "p.json", "{}");
    assert_eq!(r.diagnostics[0].message, "footprint 'Lib:Empty' lacks symbol pads: 1, 10, 3");
    assert_eq!(r.diagnostics[1].path.as_deref(), Some("/circuit/power_sources"));
    assert_eq!(r.diagnostics[1].code, "LIB001");
    assert!(r.resolved.is_empty());
    let ok = check_assets(&vec![], &vec![], &vec![], &Some(Ok(texts(&["1"]))), "p.json", "{}");
    assert!(ok.power_flag && ok.diagnostics.is_empty());
}
