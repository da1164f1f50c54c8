use liteparse::{compute_header_footer_set, hash_digits, is_header_or_footer, normalize_for_repetition};
use liteparse::{BandedLine, ParsedPage};

fn banded(text: &str, in_header_band: bool, in_footer_band: bool) -> BandedLine {
    BandedLine { text: text.to_string(), in_header_band, in_footer_band }
}

/// A page with a header line in the top band, a body line mid-page and a
/// footer line in the bottom band.
fn header_footer_page(n: usize, header: &str, footer: &str, body: &str) -> ParsedPage {
    ParsedPage {
        page_number: n,
        text: format!("{header}\n{body}\n{footer}"),
        projected_lines: vec![
            banded(header, true, false),
            banded(body, false, false),
            banded(footer, false, true),
        ],
    }
}

#[test]
fn normalize_collapses_digits_and_case() {
    assert_eq!(normalize_for_repetition("Page 1 of 6"), "page # of #");
    assert_eq!(normalize_for_repetition("PAGE 12 OF 6"), "page # of #");
    assert_eq!(normalize_for_repetition("Confidential"), "confidential");
}

#[test]
fn detects_repeating_header_and_footer() {
    let pages = vec![
        header_footer_page(1, "Acme Confidential", "Page 1 of 3", "Body one."),
        header_footer_page(2, "Acme Confidential", "Page 2 of 3", "Body two."),
        header_footer_page(3, "Acme Confidential", "Page 3 of 3", "Body three."),
    ];
    let set = compute_header_footer_set(&pages);
    assert!(set.contains("acme confidential"));
    assert!(set.contains("page # of #"));
}

#[test]
fn skips_repetition_check_on_single_page() {
    let pages = vec![header_footer_page(1, "Solo", "footer", "body")];
    let set = compute_header_footer_set(&pages);
    assert!(set.is_empty());
}

#[test]
fn body_text_not_classified_as_header() {
    // Same text in the body of every page should NOT be stripped — only
    // text within the top/bottom band qualifies.
    let mut pages = Vec::new();
    for n in 1..=3 {
        let mut p = header_footer_page(n, "unique header", "unique footer", "shared body text");
        p.projected_lines[0].text = format!("unique header {n}");
        p.projected_lines[2].text = format!("unique footer {n}");
        pages.push(p);
    }
    let set = compute_header_footer_set(&pages);
    // "shared body text" sits mid-page — never matched.
    assert!(!set.contains("shared body text"));
}

#[test]
fn header_footer_membership_needs_a_band() {
    let pages = vec![
        header_footer_page(1, "Acme Confidential", "Page 1 of 2", "Body one."),
        header_footer_page(2, "Acme  CONFIDENTIAL", "Page 2 of 2", "Body two."),
    ];
    let set = compute_header_footer_set(&pages);
    assert_eq!(set.len(), 2);
    assert!(is_header_or_footer(&banded("ACME confidential", true, false), &set));
    assert!(is_header_or_footer(&banded("Page 10 of 20", false, true), &set));
    // The same text outside the bands is kept.
    assert!(!is_header_or_footer(&banded("Acme Confidential", false, false), &set));
    assert!(!is_header_or_footer(&banded("Body one.", true, false), &set));
}

#[test]
fn header_and_footer_bands_are_counted_apart() {
    // "Draft" is a header on one page and a footer on the other: neither
    // band sees it twice.
    let pages = vec![
        header_footer_page(1, "Draft", "x", "one"),
        header_footer_page(2, "y", "Draft", "two"),
    ];
    assert!(compute_header_footer_set(&pages).is_empty());
}

#[test]
fn repetition_threshold_is_half_the_pages() {
    // Five pages need the line on three of them.
    let mut pages = Vec::new();
    for n in 1..=5 {
        let header = if n <= 2 { "Rare header" } else { "Other" };
        let footer = if n <= 3 { "Common footer" } else { "z" };
        pages.push(header_footer_page(n, header, footer, "body"));
    }
    let set = compute_header_footer_set(&pages);
    assert!(!set.contains("rare header"));
    assert!(set.contains("common footer"));
    assert!(set.contains("other"));
}

#[test]
fn repetition_counts_pages_not_lines() {
    // The same footer twice on one page is one page.
    let mut p1 = header_footer_page(1, "alpha", "Repeated", "b");
    p1.projected_lines.push(banded("Repeated", false, true));
    let p2 = header_footer_page(2, "beta", "other", "b");
    assert!(compute_header_footer_set(&[p1, p2]).is_empty());
}

#[test]
fn normalized_keys_hold_no_digits() {
    for s in ["Page 1 of 6", "2024-01-31", "v1.2.3 build 77", "no digits"] {
        let k = normalize_for_repetition(s);
        assert!(!k.chars().any(|c| c.is_ascii_digit()), "{k}");
    }
    assert_eq!(normalize_for_repetition("  2024-01-31  "), "#-#-#");
}

#[test]
fn digit_runs_of_any_length_share_a_key() {
    let a = normalize_for_repetition("Page 1 of 6");
    assert_eq!(normalize_for_repetition("Page 12 of 600"), a);
    assert_eq!(normalize_for_repetition("Page 0987 of 1"), a);
    assert_eq!(normalize_for_repetition(&a), a);
    for s in ["Section 3.14 draft", "  A  B ", "ÀÉ 42x7"] {
        let k = normalize_for_repetition(s);
        assert_eq!(normalize_for_repetition(&k), k);
    }
}

#[test]
fn page_order_does_not_matter() {
    let pages = vec![
        header_footer_page(1, "Acme", "Page 1 of 3", "one"),
        header_footer_page(2, "Acme", "Page 2 of 3", "two"),
        header_footer_page(3, "Other", "Page 3 of 3", "three"),
    ];
    let mut reordered = pages.clone();
    reordered.reverse();
    reordered.swap(0, 1);
    let a = compute_header_footer_set(&pages);
    let b = compute_header_footer_set(&reordered);
    assert_eq!(a.len(), b.len());
    for k in ["acme", "page # of #", "other"] {
        assert_eq!(a.contains(k), b.contains(k));
    }
    assert!(a.contains("acme") && a.contains("page # of #") && !a.contains("other"));
}

#[test]
fn hash_digits_replaces_runs() {
    assert_eq!(hash_digits("page 12 of 600"), "page # of #");
    assert_eq!(hash_digits("2024-01-31"), "#-#-#");
    assert_eq!(hash_digits("no digits"), "no digits");
    assert_eq!(hash_digits(""), "");
}
