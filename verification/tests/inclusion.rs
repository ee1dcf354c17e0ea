use org2mdx::parser::org::inclusion::{
    apply_line_filter, check_include_depth, include_line, parse_include_directive, parse_line_range,
    resolve_path, splice_included, IncludeLine,
};

#[test]
fn test_parse_include_with_quotes() {
    let dir = parse_include_directive("#+INCLUDE: \"file.org\"").unwrap();
    assert_eq!(dir.file, "file.org");
    assert!(dir.line_range.is_none());
}

#[test]
fn test_parse_include_without_quotes() {
    let dir = parse_include_directive("#+INCLUDE: file.org").unwrap();
    assert_eq!(dir.file, "file.org");
    assert!(dir.line_range.is_none());
}

#[test]
fn test_parse_include_with_lines() {
    let dir = parse_include_directive("#+INCLUDE: \"file.org\" :lines \"5-10\"").unwrap();
    assert_eq!(dir.file, "file.org");
    assert_eq!(dir.line_range, Some((Some(5), Some(10))));
}

#[test]
fn test_parse_include_lines_from_start() {
    let dir = parse_include_directive("#+INCLUDE: \"file.org\" :lines \"-5\"").unwrap();
    assert_eq!(dir.file, "file.org");
    assert_eq!(dir.line_range, Some((None, Some(5))));
}

#[test]
fn test_parse_include_lines_to_end() {
    let dir = parse_include_directive("#+INCLUDE: \"file.org\" :lines \"5-\"").unwrap();
    assert_eq!(dir.file, "file.org");
    assert_eq!(dir.line_range, Some((Some(5), None)));
}

#[test]
fn test_parse_include_single_line() {
    let dir = parse_include_directive("#+INCLUDE: \"file.org\" :lines \"5\"").unwrap();
    assert_eq!(dir.file, "file.org");
    assert_eq!(dir.line_range, Some((Some(5), Some(5))));
}

#[test]
fn test_apply_line_filter_full() {
    let content = "line1\nline2\nline3\n";
    let result = apply_line_filter(content, None);
    assert_eq!(result, "line1\nline2\nline3\n");
}

#[test]
fn test_apply_line_filter_range() {
    let content = "line1\nline2\nline3\nline4\n";
    let result = apply_line_filter(content, Some((Some(2), Some(3))));
    assert_eq!(result, "line2\nline3\n");
}

#[test]
fn test_apply_line_filter_from_start() {
    let content = "line1\nline2\nline3\n";
    let result = apply_line_filter(content, Some((None, Some(2))));
    assert_eq!(result, "line1\nline2\n");
}

#[test]
fn test_apply_line_filter_to_end() {
    let content = "line1\nline2\nline3\n";
    let result = apply_line_filter(content, Some((Some(2), None)));
    assert_eq!(result, "line2\nline3\n");
}

#[test]
fn parse_include_rejects_other_lines() {
    assert!(parse_include_directive("#+TITLE: x").is_none());
    assert!(parse_include_directive("#+INCLUDE:   ").is_none());
    assert!(parse_include_directive("#+INCLUDE: \"unterminated").is_none());
    assert!(parse_include_directive("#+INCLUDE: a.org :lines \"x-y\"").is_none());
}

#[test]
fn parse_include_unquoted_lines_param() {
    let dir = parse_include_directive("#+INCLUDE: a.org :lines 3-4").unwrap();
    assert_eq!(dir.file, "a.org");
    assert_eq!(dir.line_range, Some((Some(3), Some(4))));
}

#[test]
fn line_range_forms() {
    assert_eq!(parse_line_range(&['-'][..]), None);
    assert_eq!(parse_line_range(&[][..]), None);
    assert_eq!(parse_line_range(&['+', '7'][..]), Some((Some(7), Some(7))));
    assert_eq!(parse_line_range(&['0', '-', '1'][..]), Some((Some(0), Some(1))));
}

#[test]
fn line_filter_edges() {
    assert_eq!(apply_line_filter("", Some((Some(1), None))), "");
    assert_eq!(apply_line_filter("a\nb", Some((Some(3), None))), "");
    assert_eq!(apply_line_filter("a\r\nb", Some((Some(1), Some(1)))), "a\n");
    assert_eq!(apply_line_filter("a\nb", Some((Some(0), Some(0)))), "a\nb\n");
}

#[test]
fn path_resolution() {
    assert_eq!(resolve_path("/abs/f.org", "base"), "/abs/f.org");
    assert_eq!(resolve_path("f.org", "base"), "base/f.org");
    assert_eq!(resolve_path("f.org", "base/"), "base/f.org");
    assert_eq!(resolve_path("f.org", ""), "f.org");
}

#[test]
fn line_classification_and_splicing() {
    match include_line("  #+INCLUDE: \"x.org\" :lines \"2-\"  ", "d") {
        IncludeLine::Include { path, range } => {
            assert_eq!(path, "d/x.org");
            assert_eq!(range, Some((Some(2), None)));
        }
        IncludeLine::Text(_) => panic!("expected a directive"),
    }
    match include_line("plain", "d") {
        IncludeLine::Text(t) => assert_eq!(t, "plain"),
        IncludeLine::Include { .. } => panic!("expected text"),
    }
    let mut out = String::from("a\n");
    splice_included(&mut out, "l1\nl2\nl3", Some((Some(2), None)));
    assert_eq!(out, "a\nl2\nl3\n");
    let mut out2 = String::new();
    splice_included(&mut out2, "x", None);
    assert_eq!(out2, "x\n");
    assert!(check_include_depth(4, 5).is_ok());
    assert!(check_include_depth(5, 5).is_err());
}

#[test]
fn include_depth_error_names_the_limit() {
    assert!(check_include_depth(4, 5).is_ok());
    let e = check_include_depth(5, 5).unwrap_err();
    assert_eq!(e.message(), "Parse error: #+INCLUDE: exceeded maximum recursion depth of 5");
}
