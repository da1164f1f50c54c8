use liteparse::{append_to_paragraph, continues_paragraph, dehyphenate_join};
use liteparse::{PairGeometry, ParaText, SpanStyle};

fn style(bold: bool, italic: bool) -> SpanStyle {
    SpanStyle { bold, italic, mono: false }
}

fn geometry(same_region: bool, indent_shift: bool, gap_ok: bool) -> PairGeometry {
    PairGeometry { centered_mismatch: false, size_close: true, same_region, indent_shift, gap_ok }
}

#[test]
fn dehyphenate_join_only_strips_before_lowercase() {
    let mut s = String::from("co-");
    dehyphenate_join(&mut s, "operate", "operate");
    assert_eq!(s, "cooperate");

    let mut s = String::from("Vitamin-");
    dehyphenate_join(&mut s, "A", "A");
    assert_eq!(s, "Vitamin- A");
}

#[test]
fn dehyphenate_join_edge_cases() {
    // An empty continuation changes nothing.
    let mut s = String::from("word-");
    dehyphenate_join(&mut s, "", "");
    assert_eq!(s, "word-");
    // Joining onto nothing just appends.
    let mut s = String::new();
    dehyphenate_join(&mut s, "start", "start");
    assert_eq!(s, "start");
    // The test runs on `check`, the appended text is `to_append`.
    let mut s = String::from("re-");
    dehyphenate_join(&mut s, "use", "*use*");
    assert_eq!(s, "re*use*");
}

#[test]
fn append_to_paragraph_first_and_later_lines() {
    let mut acc = ParaText { raw: String::new(), inline: String::new(), uniform: None };
    assert!(append_to_paragraph(&mut acc, "  First   line  of the co-", "First line of the co-", Some(style(true, false))));
    assert_eq!(acc.raw, "First line of the co-");
    assert_eq!(acc.inline, "First line of the co-");
    assert_eq!(acc.uniform, Some((true, false)));

    assert!(append_to_paragraph(&mut acc, "operative", "operative", Some(style(true, false))));
    assert_eq!(acc.raw, "First line of the cooperative");
    assert_eq!(acc.inline, "First line of the cooperative");
    assert_eq!(acc.uniform, Some((true, false)));

    // A line in another style ends the uniform style.
    assert!(append_to_paragraph(&mut acc, "More.", "_More._", Some(style(false, true))));
    assert_eq!(acc.raw, "First line of the cooperative More.");
    assert_eq!(acc.inline, "First line of the cooperative _More._");
    assert_eq!(acc.uniform, None);

    // A blank line is not appended.
    assert!(!append_to_paragraph(&mut acc, "   ", "", None));
    assert_eq!(acc.raw, "First line of the cooperative More.");
}

#[test]
fn continues_paragraph_same_region() {
    let plain = Some(style(false, false));
    assert!(continues_paragraph("A line.", "Next line", plain, plain, &geometry(true, false, true)));
    // Too big a gap.
    assert!(!continues_paragraph("A line.", "Next line", plain, plain, &geometry(true, false, false)));
    // Indented right of the previous line.
    assert!(!continues_paragraph("A line.", "Next line", plain, plain, &geometry(true, true, true)));
    // Bold switches off.
    assert!(!continues_paragraph("Heading", "body", Some(style(true, false)), plain, &geometry(true, false, true)));
    // Mixed style on one side does not break.
    assert!(continues_paragraph("Heading", "body", None, plain, &geometry(true, false, true)));
    // Centering differs, or sizes differ.
    let mut g = geometry(true, false, true);
    g.centered_mismatch = true;
    assert!(!continues_paragraph("a", "b", plain, plain, &g));
    let mut g = geometry(true, false, true);
    g.size_close = false;
    assert!(!continues_paragraph("a", "b", plain, plain, &g));
}

#[test]
fn continues_paragraph_across_regions() {
    let plain = Some(style(false, false));
    let g = geometry(false, false, false);
    assert!(continues_paragraph("the column ends with  ", "  wrapped text", plain, plain, &g));
    assert!(!continues_paragraph("the column ends.", "wrapped text", plain, plain, &g));
    assert!(!continues_paragraph("the column ends", "Wrapped text", plain, plain, &g));
    assert!(!continues_paragraph("the column ends", "   ", plain, plain, &g));
}
