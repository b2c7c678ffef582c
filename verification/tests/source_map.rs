use kil_core::source_map::SourceMap;

#[test]
fn repeated_keys_resolve_inside_the_requested_parent() {
    let source = r#"{ "components": { "R1": { "symbol": "A" }, "R2": { "symbol": "B" } } }"#;
    let map = SourceMap::new(source);
    let span = map.span_for_path("/components/R2/symbol").unwrap();
    assert!(span.start > source.find("R2").unwrap());
    assert_eq!(&source[span.start..span.end], "\"symbol\"");
}

#[test]
fn offsets_report_one_based_lines_and_columns() {
    let source = "{\n  \"a\": 1,\n  \"b\": 2\n}";
    let map = SourceMap::new(source);
    let span = map.at_offset(source.find("\"b\"").unwrap(), 3);
    assert_eq!((span.line, span.column), (3, 3));
    assert_eq!(span.end - span.start, 3);
    let start = map.at_line_column(1, 2);
    assert_eq!((start.line, start.column), (2, 3));
    assert_eq!(start.start, source.find("\"a\"").unwrap());
}

#[test]
fn root_pointer_spans_the_first_byte() {
    let source = "{\"x\": 1}";
    let map = SourceMap::new(source);
    let span = map.span_for_path("").unwrap();
    assert_eq!((span.start, span.end, span.line, span.column), (0, 1, 1, 1));
}
