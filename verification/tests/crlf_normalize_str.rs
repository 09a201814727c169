use eolify::{Normalize, CRLF};

fn run(input: &str) -> String {
    CRLF::normalize_str(input)
}

#[test]
fn crlf_normalize_str_no_cr_or_lf() {
    let out = run("hello world");
    assert_eq!(out, "hello world".to_string());
}

#[test]
fn crlf_normalize_str_lone_lf_converted_to_crlf() {
    let out = run("line1\nline2");
    assert_eq!(out, "line1\r\nline2".to_string());
}

#[test]
fn crlf_normalize_str_trailing_cr_emits_crlf() {
    let out = run("foo\r");
    assert_eq!(out, "foo\r\n".to_string());
}

#[test]
fn crlf_normalize_str_cr_not_followed_by_lf_in_middle_becomes_crlf() {
    let out = run("a\r");
    assert_eq!(out, "a\r\n".to_string());
}

#[test]
fn crlf_normalize_str_existing_crlf_kept_as_crlf() {
    let out = run("foo\r\nbar");
    assert_eq!(out, "foo\r\nbar".to_string());
}

#[test]
fn crlf_normalize_str_multiple_crs_and_crlf_mixed() {
    let out = run("\r\r\n");
    assert_eq!(out, "\r\n\r\n".to_string());
}
