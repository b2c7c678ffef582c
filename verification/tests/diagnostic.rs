use kil_core::diagnostic::{render_text, Diagnostic, Severity, SourceSpan};

#[test]
fn rendering_shows_location_excerpt_path_and_help() {
    let source = "{\n  \"x\": 1\n}";
    let d = Diagnostic::error("KIL001", "bad x", "p.kil.json")
        .at_path("/x")
        .with_span(Some(SourceSpan { start: 4, end: 7, line: 2, column: 3 }))
        .with_help("fix it");
    let text = render_text(&[d], Some(source));
    assert_eq!(
        text,
        "error[KIL001]: bad x\n  --> p.kil.json:2:3\n   |   \"x\": 1\n   |   ^\n   = path: /x\n   = help: fix it\n"
    );
}

#[test]
fn unlocated_diagnostics_name_only_the_file() {
    let d = Diagnostic::warning("NET001", "thin net", "a.json");
    assert_eq!(d.severity, Severity::Warning);
    assert_eq!(render_text(&[d.clone(), d], None), "warning[NET001]: thin net\n  --> a.json\nwarning[NET001]: thin net\n  --> a.json\n");
}

#[test]
fn a_span_past_the_last_line_has_no_excerpt() {
    let d = Diagnostic::error("E", "m", "f").with_span(Some(SourceSpan { start: 0, end: 1, line: 9, column: 1 }));
    assert_eq!(render_text(&[d], Some("one line")), "error[E]: m\n  --> f:9:1\n");
}
