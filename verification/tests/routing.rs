use kil_core::routing::{normalize_net, resolve_item_net, selected};

fn names(v: &[&str]) -> Vec<String> {
    v.iter().map(|s| s.to_string()).collect()
}

#[test]
fn net_patterns_select_by_glob_ignoring_leading_slashes() {
    assert!(selected(&["/SIG*".into()], "SIGNAL"));
    assert!(!selected(&["SIG?".into()], "SIGNAL"));
    assert!(selected(&["*".into()], "anything/at/all"));
    assert!(selected(&["GND".into(), "SIG*".into()], "SIGNAL"));
    assert!(!selected(&[], "SIGNAL"));
    assert!(selected(&["GND".into()], "/GND"));
}

#[test]
fn kicad_net_names_map_back_to_project_nets() {
    let nets = names(&["SIGNAL", "module/A"]);
    assert_eq!(normalize_net(&nets, "/SIGNAL"), "SIGNAL");
    assert_eq!(normalize_net(&nets, "/module/A"), "module/A");
    assert_eq!(normalize_net(&nets, "/OTHER"), "/OTHER");
    assert_eq!(normalize_net(&nets, "SIGNAL"), "SIGNAL");
}

#[test]
fn copper_nets_resolve_by_label_or_code() {
    let nets = names(&["GND"]);
    let table = vec![(1, "GND".to_string()), (2, "/SIGNAL".to_string())];
    assert_eq!(resolve_item_net(&nets, None, Some("/GND"), &table), Ok("GND".to_string()));
    assert_eq!(resolve_item_net(&nets, Some(2), None, &table), Ok("/SIGNAL".to_string()));
    assert_eq!(resolve_item_net(&nets, None, Some("1"), &table), Ok("GND".to_string()));
    assert_eq!(resolve_item_net(&nets, Some(2), Some("1"), &table), Ok("/SIGNAL".to_string()));
    assert_eq!(
        resolve_item_net(&nets, Some(-7), None, &table),
        Err("router output references unknown net code -7".to_string())
    );
    assert_eq!(
        resolve_item_net(&nets, None, None, &table),
        Err("router output contains copper without a net".to_string())
    );
}
