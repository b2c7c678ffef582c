use kil_core::rules::{NetClass, NetRules};
use kil_core::route_workflow::xml_escape;
use kil_core::rules::partition_nets;

fn class(name: &str, nets: &[&str], layers: &[&str], min: u64, preferred: u64) -> NetClass {
    NetClass {
        name: name.to_string(),
        nets: nets.iter().map(|s| s.to_string()).collect(),
        clearance: 200_000,
        minimum_track_width: min,
        preferred_track_width: preferred,
        allowed_layers: layers.iter().map(|s| s.to_string()).collect(),
        zone_layers: None,
        allow_through_vias: None,
    }
}

fn board_rules(classes: Vec<NetClass>) -> NetRules {
    NetRules {
        clearance: 200_000,
        minimum_track_width: 200_000,
        preferred_track_width: 250_000,
        net_classes: classes,
    }
}

#[test]
fn groups_compatible_layers_without_widening_signals_to_power_trunks() {
    let mut rules = board_rules(vec![class("signal", &["SIGNAL"], &["F.Cu"], 200_000, 300_000)]);
    let nets = vec!["SIGNAL".to_string(), "GND".to_string()];
    assert_eq!(partition_nets(&rules, 4, &nets).len(), 2);
    rules.net_classes[0].allowed_layers.clear();
    assert_eq!(partition_nets(&rules, 4, &nets).len(), 1);
    rules
        .net_classes
        .push(class("power", &["GND"], &[], 1_000_000, 1_200_000));
    assert_eq!(partition_nets(&rules, 4, &nets).len(), 2);
}

#[test]
fn groups_come_in_order_of_layer_count_and_keep_net_order() {
    let rules = board_rules(vec![class("outer", &["A", "C"], &["F.Cu"], 200_000, 300_000)]);
    let nets: Vec<String> = ["B", "A", "D", "C"].iter().map(|s| s.to_string()).collect();
    let groups = partition_nets(&rules, 2, &nets);
    assert_eq!(groups, vec![vec!["A".to_string(), "C".to_string()], vec!["B".to_string(), "D".to_string()]]);
}

#[test]
fn every_net_lands_in_exactly_one_compatible_group() {
    let rules = board_rules(vec![
        class("power", &["VCC", "GND"], &[], 1_000_000, 1_200_000),
        class("fast", &["CLK"], &["F.Cu"], 200_000, 250_000),
    ]);
    let nets: Vec<String> = ["VCC", "CLK", "SIG", "GND"].iter().map(|s| s.to_string()).collect();
    let groups = partition_nets(&rules, 2, &nets);
    let mut all: Vec<String> = groups.iter().flatten().cloned().collect();
    all.sort();
    let mut expected = nets.clone();
    expected.sort();
    assert_eq!(all, expected);
    assert_eq!(groups.len(), 3);
    assert!(groups.contains(&vec!["VCC".to_string(), "GND".to_string()]));
}

#[test]
fn xml_special_characters_are_escaped() {
    assert_eq!(xml_escape("<&\""), "&lt;&amp;&quot;");
    assert_eq!(xml_escape("a'b>c"), "a'b&gt;c");
}
