use binspector::banned::{parse_and_sanitize_banned, sanitize_token};
use binspector::pattern::compile_banned_filter;
use binspector::ScanError;

#[test]
fn sanitize_strips_zero_width_space() {
    assert_eq!(sanitize_token("strcpy\u{200B}"), "strcpy");
}

#[test]
fn sanitize_strips_format_and_control_chars_anywhere() {
    assert_eq!(sanitize_token("\u{FEFF}str\u{0007}cpy\u{00AD}"), "strcpy");
    assert_eq!(sanitize_token("ge\u{200C}\u{200D}ts\u{2060}\u{034F}"), "gets");
}

#[test]
fn sanitize_keeps_ordinary_text() {
    assert_eq!(sanitize_token("_vsnprintf_s"), "_vsnprintf_s");
}

#[test]
fn parse_skips_comments_and_blank_lines() {
    let src = "strcpy\n# a comment\n\n   \ngets\n";
    let got = parse_and_sanitize_banned(src, None);
    assert_eq!(got, vec!["gets".to_string(), "strcpy".to_string()]);
}

#[test]
fn parse_splits_multi_token_lines() {
    let src = "strcpy gets\nsprintf\n";
    let got = parse_and_sanitize_banned(src, None);
    assert_eq!(
        got,
        vec!["gets".to_string(), "sprintf".to_string(), "strcpy".to_string()]
    );
}

#[test]
fn parse_deduplicates() {
    let src = "gets\nstrcpy\ngets\nstrcpy gets\n";
    let got = parse_and_sanitize_banned(src, None);
    assert_eq!(got, vec!["gets".to_string(), "strcpy".to_string()]);
}

#[test]
fn parse_sorts_lexicographically() {
    let src = "zebra\nalpha\nmike\n";
    let got = parse_and_sanitize_banned(src, None);
    assert_eq!(
        got,
        vec!["alpha".to_string(), "mike".to_string(), "zebra".to_string()]
    );
}

#[test]
fn parse_handles_crlf_line_endings() {
    let src = "strcpy\r\ngets\r\n";
    let got = parse_and_sanitize_banned(src, None);
    assert_eq!(got, vec!["gets".to_string(), "strcpy".to_string()]);
}

#[test]
fn parse_trims_whitespace_around_names() {
    let src = "  strcpy  \n\tgets\n";
    let got = parse_and_sanitize_banned(src, None);
    assert_eq!(got, vec!["gets".to_string(), "strcpy".to_string()]);
}

#[test]
fn parse_strips_corruption_inside_lines() {
    let src = "str\u{200B}cpy\nge\u{0001}ts\n";
    let got = parse_and_sanitize_banned(src, None);
    assert_eq!(got, vec!["gets".to_string(), "strcpy".to_string()]);
}

#[test]
fn parse_applies_name_filter() {
    let filter = compile_banned_filter("^str").unwrap();
    let src = "strcpy\ngets\nstrcat\nsprintf\n";
    let got = parse_and_sanitize_banned(src, Some(&filter));
    assert_eq!(got, vec!["strcat".to_string(), "strcpy".to_string()]);
}

#[test]
fn invalid_filter_pattern_is_a_configuration_error() {
    let r = compile_banned_filter("(");
    assert!(matches!(r, Err(ScanError::InvalidFilterPattern)));
}

#[test]
fn sanitization_is_idempotent() {
    let src = "gets strcpy\n# note\n  sprintf\u{200B}  \ngets\n";
    let first = parse_and_sanitize_banned(src, None);
    let rejoined = first.join("\n");
    let second = parse_and_sanitize_banned(&rejoined, None);
    assert_eq!(first, second);
}
