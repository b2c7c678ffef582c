use kil_core::elaboration::{elaborate, resolve, CircuitDecl, Elaboration, InstanceDecl, ModuleDecl, ModuleSource, PartDecl};

fn pairs(v: &[(&str, &str)]) -> Vec<(String, String)> {
    v.iter().map(|(a, b)| (a.to_string(), b.to_string())).collect()
}

fn strings(v: &[&str]) -> Vec<String> {
    v.iter().map(|s| s.to_string()).collect()
}

fn resistor(id: &str, handle: usize) -> PartDecl {
    PartDecl { id: id.into(), reference_prefix: "R".into(), reference: None, terminals: vec![], handle }
}

/// The divider module: IN - R1 - MID - R2 - GND, exposing IN, OUT (on MID) and GND.
fn divider() -> ModuleDecl {
    ModuleDecl {
        file: "/project/blocks/divider.kil.json".into(),
        format_version: 2,
        outline_empty: true,
        ports: pairs(&[("IN", "IN"), ("OUT", "MID"), ("GND", "GND")]),
        circuit: CircuitDecl {
            parts: vec![resistor("R1", 0), resistor("R2", 1)],
            nets: vec![
                ("IN".into(), strings(&["R1.1"])),
                ("MID".into(), strings(&["R1.2", "R2.1"])),
                ("GND".into(), strings(&["R2.2"])),
            ],
            unconnected: vec![],
            placements: Some(vec![("R1".into(), 0), ("R2".into(), 1)]),
            instances: vec![],
        },
    }
}

fn instance(id: &str, connections: &[(&str, &str)], source: ModuleSource) -> InstanceDecl {
    InstanceDecl { id: id.into(), connections: pairs(connections), source }
}

fn loaded(m: ModuleDecl) -> ModuleSource {
    ModuleSource::Loaded(Box::new(m))
}

fn project(instances: Vec<InstanceDecl>) -> CircuitDecl {
    CircuitDecl { parts: vec![], nets: vec![], unconnected: vec![], placements: None, instances }
}

fn divider_instance(id: &str) -> InstanceDecl {
    instance(id, &[("IN", "VIN"), ("OUT", "SIGNAL"), ("GND", "GND")], loaded(divider()))
}

fn net<'a>(e: &'a Elaboration, name: &str) -> &'a Vec<String> {
    &e.nets.iter().find(|(n, _)| n == name).unwrap().1
}

fn codes(e: &Elaboration) -> Vec<String> {
    e.diagnostics.iter().map(|d| d.code.clone()).collect()
}

#[test]
fn repeated_instances_are_private_and_source_is_immutable() {
    let source = project(vec![divider_instance("divider"), divider_instance("other")]);
    let r = resolve(&source, "/project/project.kil.json");
    assert!(r.diagnostics.is_empty(), "{:?}", r.diagnostics);
    assert_eq!(r.parts.len(), 4);
    let at = |id: &str| r.parts.iter().position(|p| p.id == id).unwrap();
    assert_ne!(r.parts[at("divider/R1")].reference, r.parts[at("other/R1")].reference);
    assert_eq!(net(&r, "SIGNAL").len(), 4);
    assert!(r.parts[at("other/R1")].origin.file.ends_with("divider.kil.json"));
    assert_eq!(source.instances.len(), 2);
    assert_eq!(source.instances[1].id, "other");
}

#[test]
fn missing_and_unknown_ports_are_errors() {
    let source = project(vec![instance(
        "divider",
        &[("IN", "VIN"), ("OUT", "SIGNAL"), ("secret", "X")],
        loaded(divider()),
    )]);
    let r = elaborate(&source, "/project/project.kil.json");
    assert!(r.diagnostics.iter().any(|d| d.code == "MOD011"));
    assert!(r.diagnostics.iter().any(|d| d.code == "MOD014"));
}

#[test]
fn instance_parts_nets_and_blocks_are_qualified() {
    let mut root = project(vec![divider_instance("divider")]);
    root.parts.push(resistor("R9", 7));
    root.nets.push(("SIGNAL".into(), strings(&["R9.1"])));
    root.unconnected.push("R9.2".into());
    let r = elaborate(&root, "/project/project.kil.json");
    assert!(r.diagnostics.is_empty(), "{:?}", r.diagnostics);
    let ids: Vec<&str> = r.parts.iter().map(|p| p.id.as_str()).collect();
    assert_eq!(ids, ["R9", "divider/R1", "divider/R2"]);
    assert_eq!(r.parts[1].origin.path, "/circuit/parts/R1");
    assert_eq!(r.parts[1].handle, 0);
    let names: Vec<&str> = r.nets.iter().map(|(n, _)| n.as_str()).collect();
    assert_eq!(names, ["SIGNAL", "VIN", "GND"]);
    assert_eq!(net(&r, "SIGNAL"), &strings(&["R9.1", "divider/R1.2", "divider/R2.1"]));
    assert_eq!(r.no_connect, strings(&["R9.2"]));
    assert_eq!(r.placements, vec![("divider/R1".to_string(), 0), ("divider/R2".to_string(), 1)]);
    assert_eq!(r.blocks.len(), 1);
    assert_eq!(r.blocks[0].id, "divider");
    assert_eq!(r.blocks[0].components, strings(&["divider/R1", "divider/R2"]));
    assert_eq!(r.blocks[0].nets, strings(&["SIGNAL", "VIN", "GND"]));
}

#[test]
fn unbound_module_nets_stay_inside_the_block() {
    let mut m = divider();
    m.circuit.nets.push(("SENSE".into(), strings(&["R2.3"])));
    let root = project(vec![instance("d", &[("IN", "A"), ("OUT", "B"), ("GND", "C")], loaded(m))]);
    let r = elaborate(&root, "p.json");
    assert!(net(&r, "d/SENSE").contains(&"d/R2.3".to_string()));
    assert!(r.blocks[0].nets.contains(&"d/SENSE".to_string()));
}

#[test]
fn instance_errors_name_their_files() {
    let mut bad_version = divider();
    bad_version.format_version = 1;
    let mut outline = divider();
    outline.outline_empty = false;
    let mut root = project(vec![
        instance("bad id", &[], ModuleSource::Outside("x.json".into())),
        instance("gone", &[], ModuleSource::Outside("blocks/gone.json".into())),
        instance("loop", &[], ModuleSource::Cycle("/project/loop.json".into())),
        instance("broken", &[], ModuleSource::Unreadable("/project/broken.json".into(), "missing parameter 'x'".into())),
        instance("old", &[], loaded(bad_version)),
        instance("board", &[], loaded(outline)),
        instance("R1", &[], loaded(divider())),
    ]);
    root.parts.push(resistor("R1", 0));
    let r = elaborate(&root, "/project/p.json");
    assert_eq!(codes(&r), strings(&["MOD001", "MOD002", "MOD004", "MOD003", "MOD007", "MOD015", "MOD001"]));
    assert_eq!(r.diagnostics[1].message, "module is missing or outside project: blocks/gone.json");
    assert_eq!(r.diagnostics[1].file, "/project/p.json");
    assert_eq!(r.diagnostics[2].file, "/project/loop.json");
    assert_eq!(r.diagnostics[3].message, "missing parameter 'x'");
    assert_eq!(r.diagnostics[4].file, "/project/blocks/divider.kil.json");
    assert!(r.blocks.is_empty());
    assert_eq!(r.parts.len(), 1);
}

#[test]
fn duplicate_identities_and_placements_are_reported() {
    let mut root = project(vec![]);
    root.parts.push(resistor("R1", 0));
    root.parts.push(resistor("R1", 5));
    root.placements = Some(vec![("R1".into(), 0), ("R1".into(), 5)]);
    let r = elaborate(&root, "p.json");
    assert_eq!(codes(&r), strings(&["ID003", "MOD009"]));
    assert_eq!(r.diagnostics[0].message, "duplicate identity 'R1'");
    assert_eq!(r.parts.len(), 1);
    assert_eq!(r.parts[0].handle, 5);
    assert_eq!(r.placements, vec![("R1".to_string(), 5)]);
}

#[test]
fn conflicting_and_unexposed_ports_are_reported() {
    let mut m = divider();
    m.ports = pairs(&[("A", "MID"), ("B", "MID"), ("C", "NOPE")]);
    let root = project(vec![instance("d", &[("A", "X"), ("B", "Y"), ("C", "Z")], loaded(m))]);
    let r = elaborate(&root, "/p.json");
    assert_eq!(codes(&r), strings(&["MOD013", "MOD012"]));
    assert_eq!(r.diagnostics[1].file, "/project/blocks/divider.kil.json");
    assert_eq!(r.diagnostics[0].file, "/p.json");
}

#[test]
fn resolution_numbers_parts_and_canonicalizes_aliases() {
    let mut root = project(vec![divider_instance("divider")]);
    let mut r1 = resistor("R1", 0);
    r1.terminals = pairs(&[("positive", "1")]);
    root.parts.push(r1);
    let mut r2 = resistor("R2", 1);
    r2.reference = Some("R2".into());
    root.parts.push(r2);
    let mut r3 = resistor("R3", 2);
    r3.reference = Some("R2".into());
    root.parts.push(r3);
    root.nets.push(("OTHER".into(), strings(&["R1.positive", "R2.2"])));
    root.unconnected.push("R1.positive".into());
    let r = resolve(&root, "p.json");
    assert_eq!(net(&r, "OTHER"), &strings(&["R1.1", "R2.2"]));
    assert_eq!(r.no_connect, strings(&["R1.1"]));
    let refs: Vec<(&str, &str)> = r.parts.iter().map(|p| (p.id.as_str(), p.reference.as_str())).collect();
    assert_eq!(refs, [("R1", "R1"), ("R2", "R2"), ("R3", "R2"), ("divider/R1", "R3"), ("divider/R2", "R4")]);
    assert_eq!(codes(&r), strings(&["ID002"]));
    assert_eq!(r.diagnostics[0].message, "duplicate printed reference 'R2'");
}
