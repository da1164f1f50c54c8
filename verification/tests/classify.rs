use liteparse::classify_line;
use liteparse::{
    AdjacentLine, ClassifyState, LineAction, LineFacts, OutlineCandidate, PairGeometry, SpanStyle,
    StructNode, StyledSpan,
};

fn facts(text: &str) -> LineFacts {
    LineFacts {
        text: text.to_string(),
        rotated: false,
        all_mono: false,
        mcid: None,
        outline: vec![],
        size_level: None,
        style: None,
        cell_count: 1,
        spans: vec![],
        prev: None,
        next: None,
    }
}

/// A neighbouring line close enough to continue a paragraph.
fn close(text: &str) -> Option<AdjacentLine> {
    Some(AdjacentLine {
        text: text.to_string(),
        style: None,
        geometry: PairGeometry {
            centered_mismatch: false,
            size_close: true,
            same_region: true,
            indent_shift: false,
            gap_ok: true,
        },
    })
}

/// A neighbouring line separated by a paragraph-sized gap.
fn far(text: &str) -> Option<AdjacentLine> {
    let mut a = close(text);
    if let Some(l) = a.as_mut() {
        l.geometry.gap_ok = false;
    }
    a
}

fn bold() -> Option<SpanStyle> {
    Some(SpanStyle { bold: true, italic: false, mono: false })
}

fn closed() -> ClassifyState {
    ClassifyState { paragraph_open: false, code_open: false, list_open: false }
}

fn para_open() -> ClassifyState {
    ClassifyState { paragraph_open: true, code_open: false, list_open: false }
}

#[test]
fn blank_and_rotated_lines_are_skipped() {
    let mut s = para_open();
    assert_eq!(classify_line(&mut s, &facts("   "), &[], 0), LineAction::Skip);
    let mut f = facts("arXiv:2401.00001");
    f.rotated = true;
    assert_eq!(classify_line(&mut s, &f, &[], 0), LineAction::Skip);
    assert_eq!(s, para_open());
}

#[test]
fn monospace_lines_are_code() {
    let mut s = para_open();
    let mut f = facts("    let x = 1;   ");
    f.all_mono = true;
    f.size_level = Some(1);
    assert_eq!(classify_line(&mut s, &f, &[], 0), LineAction::CodeLine("    let x = 1;".to_string()));
    assert_eq!(s, ClassifyState { paragraph_open: false, code_open: true, list_open: false });
    // The next prose line closes the code block.
    assert_eq!(
        classify_line(&mut s, &facts("After the code."), &[], 0),
        LineAction::ParagraphStart("After the code.".to_string())
    );
    assert_eq!(s, para_open());
}

#[test]
fn heading_sources_in_priority_order() {
    let nodes = vec![StructNode { role: "H2".to_string(), mcids: vec![3] }];
    let mut s = closed();
    let mut f = facts("  Title   of the  document ");
    f.mcid = Some(3);
    f.outline = vec![OutlineCandidate { title: "Title of the".to_string(), level: 1, y_ok: true }];
    f.size_level = Some(3);
    let title = "Title of the document".to_string();
    assert_eq!(classify_line(&mut s, &f, &nodes, 0), LineAction::Heading { level: 2, text: title.clone() });
    f.mcid = Some(4);
    assert_eq!(classify_line(&mut s, &f, &nodes, 0), LineAction::Heading { level: 1, text: title.clone() });
    f.outline[0].y_ok = false;
    assert_eq!(classify_line(&mut s, &f, &nodes, 0), LineAction::Heading { level: 3, text: title.clone() });
    // Levels are clamped into 1..=6.
    f.size_level = Some(9);
    assert_eq!(classify_line(&mut s, &f, &nodes, 0), LineAction::Heading { level: 6, text: title.clone() });
    f.size_level = Some(0);
    assert_eq!(classify_line(&mut s, &f, &nodes, 0), LineAction::Heading { level: 1, text: title });
    assert_eq!(s, closed());
}

#[test]
fn captions_are_not_promoted_by_size() {
    let mut s = closed();
    let mut f = facts("Figure 7: a plot");
    f.size_level = Some(2);
    assert_eq!(
        classify_line(&mut s, &f, &[], 1),
        LineAction::ParagraphStart("Figure 7: a plot".to_string())
    );
    // An explicit outline entry still wins.
    f.outline = vec![OutlineCandidate { title: "Figure 7".to_string(), level: 2, y_ok: true }];
    assert_eq!(
        classify_line(&mut s, &f, &[], 1),
        LineAction::Heading { level: 2, text: "Figure 7: a plot".to_string() }
    );
}

#[test]
fn list_items_and_continuations() {
    let mut s = para_open();
    let mut f = facts("• first bullet");
    f.prev = close("Intro line.");
    assert_eq!(
        classify_line(&mut s, &f, &[], 0),
        LineAction::ListItem { ordered: false, marker: "•".to_string(), rest: "first bullet".to_string() }
    );
    assert_eq!(s, ClassifyState { paragraph_open: false, code_open: false, list_open: true });
    let mut f = facts("wrapped onto a second line");
    f.prev = close("• first bullet");
    assert_eq!(classify_line(&mut s, &f, &[], 0), LineAction::ListContinuation);
    assert_eq!(s, ClassifyState { paragraph_open: false, code_open: false, list_open: true });
    // A line after a gap starts a paragraph instead.
    let mut f = facts("Some later text");
    f.prev = far("wrapped onto a second line");
    assert_eq!(
        classify_line(&mut s, &f, &[], 0),
        LineAction::ParagraphStart("Some later text".to_string())
    );
    assert_eq!(
        classify_line(&mut s, &facts("2) second"), &[], 0),
        LineAction::ListItem { ordered: true, marker: "2)".to_string(), rest: "second".to_string() }
    );
}

#[test]
fn numbered_bold_headings_sit_below_the_map() {
    let spans = vec![
        StyledSpan { text: "1.".to_string(), bold: false, mono: false },
        StyledSpan { text: "Introduction".to_string(), bold: true, mono: false },
    ];
    let mut s = closed();
    let mut f = facts("1. Introduction");
    f.spans = spans.clone();
    // The next line continuing below does not matter here.
    f.next = close("Body text follows");
    assert_eq!(
        classify_line(&mut s, &f, &[], 2),
        LineAction::Heading { level: 3, text: "1. Introduction".to_string() }
    );
    // Continuing an open paragraph makes it a list item.
    let mut s = para_open();
    f.prev = close("a paragraph line");
    assert_eq!(
        classify_line(&mut s, &f, &[], 2),
        LineAction::ListItem { ordered: true, marker: "1.".to_string(), rest: "Introduction".to_string() }
    );
    // Only ordered markers can be numbered headings.
    let mut s = closed();
    let mut f = facts("• Introduction");
    f.spans = spans;
    assert_eq!(
        classify_line(&mut s, &f, &[], 2),
        LineAction::ListItem { ordered: false, marker: "•".to_string(), rest: "Introduction".to_string() }
    );
}

#[test]
fn bold_body_headings_need_breaks_around() {
    let mut s = closed();
    let mut f = facts("Abstract");
    f.style = bold();
    assert_eq!(
        classify_line(&mut s, &f, &[], 6),
        LineAction::Heading { level: 6, text: "Abstract".to_string() }
    );
    assert_eq!(s, closed());
    // A bold line that runs on into the next line is a paragraph.
    f.next = close("more bold words");
    assert_eq!(
        classify_line(&mut s, &f, &[], 0),
        LineAction::ParagraphStart("Abstract".to_string())
    );
    // With a break below and nothing open above, it is a heading again.
    let mut s = closed();
    f.next = far("Body.");
    f.prev = close("a line that is not open any more");
    assert_eq!(
        classify_line(&mut s, &f, &[], 0),
        LineAction::Heading { level: 1, text: "Abstract".to_string() }
    );
}

#[test]
fn paragraphs_start_and_continue() {
    let mut s = closed();
    let mut f = facts("First sentence of the para-");
    // Nothing is open, so a close previous line does not matter.
    f.prev = close("Title");
    assert_eq!(
        classify_line(&mut s, &f, &[], 0),
        LineAction::ParagraphStart("First sentence of the para-".to_string())
    );
    let mut f = facts("graph continues here.");
    f.prev = close("First sentence of the para-");
    assert_eq!(classify_line(&mut s, &f, &[], 0), LineAction::ParagraphAppend);
    assert_eq!(s, para_open());
    let mut f = facts("Another paragraph.");
    f.prev = far("graph continues here.");
    assert_eq!(
        classify_line(&mut s, &f, &[], 0),
        LineAction::ParagraphStart("Another paragraph.".to_string())
    );
}

#[test]
fn a_block_break_closes_everything() {
    let mut s = ClassifyState::new();
    assert_eq!(s, closed());
    classify_line(&mut s, &facts("• item"), &[], 0);
    assert!(s.list_open);
    s.break_blocks();
    assert_eq!(s, closed());
    // After the break, a close line no longer continues the list item.
    let mut f = facts("continued");
    f.prev = close("• item");
    assert_eq!(classify_line(&mut s, &f, &[], 0), LineAction::ParagraphStart("continued".to_string()));
}
