use liteparse::{
    char_counts, is_caption_line, looks_like_bold_heading, looks_like_numbered_bold_heading,
    normalize_outline_text, outline_heading_level, parse_heading_role, struct_heading_level,
};
use liteparse::{OutlineCandidate, SpanStyle, StructNode, StyledSpan};

fn bold() -> Option<SpanStyle> {
    Some(SpanStyle { bold: true, italic: false, mono: false })
}

fn span(text: &str, bold: bool, mono: bool) -> StyledSpan {
    StyledSpan { text: text.to_string(), bold, mono }
}

fn entry(title: &str, level: u8, y_ok: bool) -> OutlineCandidate {
    OutlineCandidate { title: title.to_string(), level, y_ok }
}

#[test]
fn caption_lines_are_recognized() {
    assert!(is_caption_line("Figure 7"));
    assert!(is_caption_line("  Fig. 12. A plot"));
    assert!(is_caption_line("TABLE 3: results"));
    assert!(is_caption_line("Table III"));
    assert!(is_caption_line("Equation (4)"));
    assert!(!is_caption_line("Tables are great"));
    assert!(!is_caption_line("Figure"));
    assert!(!is_caption_line("Figurehead 3"));
    assert!(!is_caption_line("Equation (x)"));
}

#[test]
fn heading_roles_parse() {
    assert_eq!(parse_heading_role("H1"), Some(1));
    assert_eq!(parse_heading_role(" h3 "), Some(3));
    assert_eq!(parse_heading_role("H6"), Some(6));
    assert_eq!(parse_heading_role("H+2"), Some(2));
    assert_eq!(parse_heading_role("H02"), Some(2));
    assert_eq!(parse_heading_role("H7"), None);
    assert_eq!(parse_heading_role("H0"), None);
    assert_eq!(parse_heading_role("H"), None);
    assert_eq!(parse_heading_role("P"), None);
    assert_eq!(parse_heading_role("Hx"), None);
}

#[test]
fn struct_level_takes_first_heading_node() {
    let nodes = vec![
        StructNode { role: "P".to_string(), mcids: vec![5] },
        StructNode { role: "H2".to_string(), mcids: vec![4, 5] },
        StructNode { role: "H1".to_string(), mcids: vec![5] },
    ];
    assert_eq!(struct_heading_level(Some(5), &nodes), Some(2));
    assert_eq!(struct_heading_level(Some(4), &nodes), Some(2));
    assert_eq!(struct_heading_level(Some(9), &nodes), None);
    assert_eq!(struct_heading_level(None, &nodes), None);
}

#[test]
fn outline_text_is_lowered_and_collapsed() {
    let out: String = normalize_outline_text("  Hello \t  WORLD ").into_iter().collect();
    assert_eq!(out, "hello world");
    assert!(normalize_outline_text("   ").is_empty());
}

#[test]
fn outline_level_by_prefix_match() {
    let outline = vec![
        entry("   ", 1, true),
        entry("Introduction", 2, false),
        entry("INTRODUCTION", 3, true),
    ];
    // The blank entry and the one whose position disagrees are passed over.
    assert_eq!(outline_heading_level("Introduction to things", &outline), Some(3));
    // The title may also extend the line.
    assert_eq!(outline_heading_level("intro", &outline), Some(3));
    assert_eq!(outline_heading_level("Methods", &outline), None);
    assert_eq!(outline_heading_level("   ", &outline), None);
    assert_eq!(outline_heading_level("Introduction", &[]), None);
    // Levels are capped at six.
    assert_eq!(outline_heading_level("Deep", &[entry("deep", 9, true)]), Some(6));
    // Two sentence breaks read as prose.
    assert_eq!(outline_heading_level("Deep. One. Two", &[entry("deep", 1, true)]), None);
}

#[test]
fn char_counts_counts_nonspace_and_letters() {
    let cs: Vec<char> = "ab 1\té".chars().collect();
    assert_eq!(char_counts(&cs), (4, 3));
}

#[test]
fn bold_body_heading_rules() {
    assert!(looks_like_bold_heading("1 Introduction", bold(), 1, true, true));
    assert!(!looks_like_bold_heading("1 Introduction", bold(), 1, true, false));
    assert!(!looks_like_bold_heading("1 Introduction", bold(), 1, false, true));
    assert!(!looks_like_bold_heading("1 Introduction", None, 1, true, true));
    let mono = Some(SpanStyle { bold: true, italic: false, mono: true });
    assert!(!looks_like_bold_heading("1 Introduction", mono, 1, true, true));
    assert!(!looks_like_bold_heading("47.5 14", bold(), 1, true, true));
    assert!(!looks_like_bold_heading("Figure 3", bold(), 1, true, true));
    assert!(!looks_like_bold_heading("Model Method", bold(), 3, true, true));
    assert!(!looks_like_bold_heading("Name  Age  City", bold(), 1, true, true));
    assert!(!looks_like_bold_heading("   ", bold(), 1, true, true));
    let long = "a".repeat(81);
    assert!(!looks_like_bold_heading(&long, bold(), 1, true, true));
    let just = "a".repeat(80);
    assert!(looks_like_bold_heading(&just, bold(), 1, true, true));
}

#[test]
fn numbered_bold_heading_rules() {
    let spans = vec![span("1.", false, false), span("Introduction", true, false)];
    assert!(looks_like_numbered_bold_heading("1. Introduction", "Introduction", &spans, true));
    assert!(!looks_like_numbered_bold_heading("1. Introduction", "Introduction", &spans, false));
    let mixed = vec![span("1.", false, false), span("Intro", true, false), span("duction", false, false)];
    assert!(!looks_like_numbered_bold_heading("1. Introduction", "Introduction", &mixed, true));
    let mono = vec![span("1.", false, false), span("Introduction", true, true)];
    assert!(!looks_like_numbered_bold_heading("1. Introduction", "Introduction", &mono, true));
    let plain = vec![span("1.", false, false)];
    assert!(!looks_like_numbered_bold_heading("1. Introduction", "Introduction", &plain, true));
    let two = vec![span("1.", false, false), span("One. Two.", true, false)];
    assert!(!looks_like_numbered_bold_heading("1. One. Two.", "One. Two.", &two, true));
    let digits = vec![span("1.", false, false), span("47 12", true, false)];
    assert!(!looks_like_numbered_bold_heading("1. 47 12", "47 12", &digits, true));
    let cap = vec![span("1.", false, false), span("Figure 2", true, false)];
    assert!(!looks_like_numbered_bold_heading("Figure 2", "Figure 2", &cap, true));
}
