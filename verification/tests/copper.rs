use kil_core::routing::{lock_unselected, preserve_copper, selected, Copper, CopperRoute, CopperVia, NetRoutes};

fn route(key: &str, locked: bool, handle: usize) -> CopperRoute {
    CopperRoute { key: key.into(), locked, handle }
}

fn via(net: &str, key: &str, locked: bool, handle: usize) -> CopperVia {
    CopperVia { net: net.into(), key: key.into(), locked, handle }
}

fn net(name: &str, routes: Vec<CopperRoute>) -> NetRoutes {
    NetRoutes { net: name.into(), routes }
}

fn cache() -> Copper {
    Copper {
        routes: vec![
            net("GND", vec![route("F.Cu:0.25:0,0;1,0", false, 0), route("F.Cu:0.25:1,0;1,1", false, 1)]),
            net("SIGNAL", vec![route("F.Cu:0.2:0,2;3,2", false, 2)]),
        ],
        vias: vec![via("GND", "GND:1,1:0.8:0.4", false, 0)],
    }
}

fn keys(c: &Copper, name: &str) -> Vec<String> {
    c.routes
        .iter()
        .find(|n| n.net == name)
        .map(|n| n.routes.iter().map(|r| r.key.clone()).collect())
        .unwrap_or_default()
}

#[test]
fn targeted_routing_preserves_other_nets_and_rejects_locked_changes() {
    let before = cache();
    let mut after = cache();
    after.routes.retain(|n| n.net != "GND");
    after.vias.clear();
    preserve_copper(&before, &mut after, &["SIGNAL".into()]).unwrap();
    assert_eq!(keys(&before, "GND"), keys(&after, "GND"));
    assert_eq!(after.vias.len(), 1);
    let mut before = cache();
    before.routes[1].routes[0].locked = true;
    let mut after = cache();
    after.routes[1].routes.clear();
    assert!(preserve_copper(&before, &mut after, &["SIGNAL".into()]).is_err());
    assert!(selected(&["/SIG*".into()], "SIGNAL"));
    assert!(!selected(&["SIG?".into()], "SIGNAL"));
}

#[test]
fn nets_the_router_invented_outside_the_selection_are_dropped() {
    let before = cache();
    let mut after = cache();
    after.routes.push(net("NEW", vec![route("B.Cu:0.2:5,5;6,6", false, 9)]));
    after.routes.push(net("SIG2", vec![route("B.Cu:0.2:7,7;8,8", false, 10)]));
    preserve_copper(&before, &mut after, &["SIG*".into()]).unwrap();
    let names: Vec<&str> = after.routes.iter().map(|n| n.net.as_str()).collect();
    assert_eq!(names, vec!["GND", "SIGNAL", "SIG2"]);
}

#[test]
fn locked_vias_of_chosen_nets_must_survive() {
    let mut before = cache();
    before.vias.push(via("SIGNAL", "SIGNAL:2,2:0.8:0.4", true, 1));
    let mut after = cache();
    let err = preserve_copper(&before, &mut after, &["SIGNAL".into()]).unwrap_err();
    assert_eq!(err, "router changed a locked via on 'SIGNAL'");
    let mut after = cache();
    after.vias.push(via("SIGNAL", "SIGNAL:2,2:0.8:0.4", false, 5));
    preserve_copper(&before, &mut after, &["SIGNAL".into()]).unwrap();
    let vias: Vec<(&str, usize)> = after.vias.iter().map(|v| (v.net.as_str(), v.handle)).collect();
    assert_eq!(vias, vec![("SIGNAL", 5), ("GND", 0)]);
}

#[test]
fn a_lost_locked_route_names_its_net() {
    let mut before = cache();
    before.routes[0].routes[1].locked = true;
    let mut after = cache();
    after.routes[0].routes.pop();
    assert_eq!(
        preserve_copper(&before, &mut after, &["*".into()]),
        Err("router changed locked copper on 'GND'".to_string())
    );
}

#[test]
fn copper_outside_the_selection_is_locked_for_the_router() {
    let mut copper = cache();
    lock_unselected(&mut copper, &["/SIG*".to_string()]);
    let locks: Vec<(String, Vec<bool>)> =
        copper.routes.iter().map(|n| (n.net.clone(), n.routes.iter().map(|r| r.locked).collect())).collect();
    assert_eq!(
        locks,
        vec![("GND".to_string(), vec![true, true]), ("SIGNAL".to_string(), vec![false])]
    );
    assert!(copper.vias[0].locked);
    assert_eq!(copper.routes[0].routes[1].key, "F.Cu:0.25:1,0;1,1");
    assert_eq!(copper.routes[0].routes[1].handle, 1);
    let mut all = cache();
    lock_unselected(&mut all, &["*".to_string()]);
    assert!(all.routes.iter().all(|n| n.routes.iter().all(|r| !r.locked)));
    assert!(!all.vias[0].locked);
}
