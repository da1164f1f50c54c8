use liteparse::{decimal_string, format_pypdf, format_text, ParsedPage};

fn page(n: usize, text: &str) -> ParsedPage {
    ParsedPage { page_number: n, text: text.into(), projected_lines: vec![] }
}

#[test]
fn empty() {
    assert_eq!(format_pypdf(&[]), "");
}

#[test]
fn joins_pages_with_newline() {
    let out = format_pypdf(&[page(1, "alpha"), page(2, "beta")]);
    assert_eq!(out, "alpha\nbeta");
}

#[test]
fn format_text_adds_page_headers() {
    let out = format_text(&[page(1, "alpha"), page(12, "beta")]);
    assert_eq!(out, "\n--- Page 1 ---\nalpha\n\n\n--- Page 12 ---\nbeta");
    assert_eq!(format_text(&[]), "");
    assert_eq!(format_text(&[page(0, "")]), "\n--- Page 0 ---\n");
}

#[test]
fn decimal_strings() {
    assert_eq!(decimal_string(0), "0");
    assert_eq!(decimal_string(7), "7");
    assert_eq!(decimal_string(10), "10");
    assert_eq!(decimal_string(4096), "4096");
    assert_eq!(decimal_string(usize::MAX), usize::MAX.to_string());
}

#[test]
fn format_pypdf_keeps_page_texts_verbatim() {
    let out = format_pypdf(&[page(1, "a\n"), page(2, ""), page(3, "c")]);
    assert_eq!(out, "a\n\n\nc");
}
