use kil_core::layout::id;
use kil_core::model::{
    default_front_copper, default_front_silk, default_kicad_series, default_route_nets, default_side, default_units,
    BoardSide, Units,
};
use kil_core::modules::{qualify, valid_block_id};
use kil_core::pipeline::{has_errors, invalid, invalid_route, ExitClass};
use kil_core::diagnostic::Diagnostic;
use kil_core::source::{front, front_copper};
use kil_core::stackup::{copper_layers, material, validate_layer_count};

#[test]
fn documents_get_the_stated_defaults() {
    assert_eq!(default_units(), Units::Mm);
    assert_eq!(default_kicad_series(), 10);
    assert_eq!(default_route_nets(), vec!["*".to_string()]);
    assert_eq!(default_side(), BoardSide::Front);
    assert_eq!(front(), BoardSide::Front);
    assert_eq!(default_front_copper(), "F.Cu");
    assert_eq!(front_copper(), "F.Cu");
    assert_eq!(default_front_silk(), "F.SilkS");
    assert_eq!(material(), "FR4");
}

#[test]
fn layer_counts_and_fabrication_dimensions_are_checked() {
    assert_eq!(copper_layers(4), ["F.Cu", "In1.Cu", "In2.Cu", "B.Cu"]);
    assert!(validate_layer_count(4).is_ok());
    for layers in [0, 1, 3, 33] {
        assert!(validate_layer_count(layers).is_err());
    }
}

#[test]
fn identities_are_qualified_by_their_block() {
    assert_eq!(qualify("", "R1"), "R1");
    assert_eq!(qualify("divider", "R1"), "divider/R1");
    assert_eq!(id("a/b", "N"), "a/b/N");
    assert!(valid_block_id("divider_2-a"));
    assert!(!valid_block_id(""));
    assert!(!valid_block_id("a.b"));
    assert!(!valid_block_id("a/b"));
}

#[test]
fn exit_codes_and_invalid_outcomes() {
    assert_eq!(ExitClass::Success.code(), 0);
    assert_eq!(ExitClass::Invalid.code(), 1);
    assert_eq!(ExitClass::DesignViolations.code(), 2);
    let warn = Diagnostic::warning("W", "careful", "f");
    let err = Diagnostic::error("E", "broken", "f");
    assert!(!has_errors(&[warn.clone()]));
    assert!(has_errors(&[warn.clone(), err.clone()]));
    let o = invalid(vec![err.clone()], "src".into());
    assert_eq!(o.exit, ExitClass::Invalid);
    assert!(o.output_dir.is_none());
    assert_eq!(o.diagnostics, vec![err.clone()]);
    let r = invalid_route(vec![], "src".into());
    assert_eq!(r.exit, ExitClass::Invalid);
    assert!(r.cache_file.is_none());
    assert_eq!(r.source, "src");
}
