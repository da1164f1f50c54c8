use liteparse::{classify_pdf_char, extract_pages, CharKind, SegmentText};

#[test]
fn pdf_characters_are_classified() {
    assert_eq!(classify_pdf_char(0, false), CharKind::Skip);
    assert_eq!(classify_pdf_char(0xFFFE, false), CharKind::Skip);
    assert_eq!(classify_pdf_char(0xFFFF, false), CharKind::Skip);
    // A surrogate is no character.
    assert_eq!(classify_pdf_char(0xD800, false), CharKind::Skip);
    assert_eq!(classify_pdf_char(0x110000, false), CharKind::Skip);
    assert_eq!(classify_pdf_char(0x02, false), CharKind::Glyph('-'));
    assert_eq!(classify_pdf_char(u32::from('\n'), false), CharKind::LineBreak);
    assert_eq!(classify_pdf_char(u32::from('\r'), true), CharKind::LineBreak);
    assert_eq!(classify_pdf_char(u32::from(' '), true), CharKind::Space);
    assert_eq!(classify_pdf_char(u32::from('A'), false), CharKind::Glyph('A'));
    assert_eq!(classify_pdf_char(u32::from('é'), false), CharKind::Glyph('é'));
    // Generated glyphs are dropped.
    assert_eq!(classify_pdf_char(u32::from('A'), true), CharKind::Skip);
}

#[test]
fn segments_join_glyphs_and_pending_spaces() {
    let mut seg = SegmentText::new();
    assert!(!seg.has_content());
    // A space before any glyph is not pending.
    seg.mark_pending_space();
    assert!(!seg.pending_space());
    assert_eq!(seg.add_glyph('A', true), None);
    assert_eq!(seg.add_glyph('-', false), None);
    assert_eq!(seg.add_glyph('M', false), None);
    seg.mark_pending_space();
    assert!(seg.pending_space());
    assert_eq!(seg.add_glyph('x', false), None);
    assert!(!seg.pending_space());
    // A split hands back the finished segment and starts a new one.
    assert_eq!(seg.add_glyph('B', true), Some("A-M x".to_string()));
    assert!(seg.has_content());
    assert_eq!(seg.flush(), Some("B".to_string()));
    assert!(!seg.has_content());
    assert_eq!(seg.flush(), None);
}

#[test]
fn pending_space_is_dropped_on_split() {
    let mut seg = SegmentText::new();
    seg.add_glyph('a', false);
    seg.mark_pending_space();
    assert_eq!(seg.add_glyph('b', true), Some("a".to_string()));
    assert!(!seg.pending_space());
    assert_eq!(seg.flush(), Some("b".to_string()));
}

#[test]
fn extract_pages_selects_pages() {
    assert_eq!(extract_pages(3, None), vec![0, 1, 2]);
    assert_eq!(extract_pages(3, Some(2)), vec![1]);
    assert_eq!(extract_pages(3, Some(4)), Vec::<i32>::new());
    assert_eq!(extract_pages(3, Some(0)), Vec::<i32>::new());
    assert_eq!(extract_pages(0, None), Vec::<i32>::new());
    assert_eq!(extract_pages(-1, None), Vec::<i32>::new());
}

#[test]
fn take_char_groups_a_line() {
    // "A-MEM, x" then a column gap, then a new line.
    let mut seg = SegmentText::new();
    let mut out = Vec::new();
    let steps = [
        (CharKind::Glyph('A'), true, false),
        (CharKind::Glyph('-'), true, false),
        (CharKind::Glyph('M'), true, false),
        (CharKind::Skip, false, false),
        (CharKind::Space, false, false),
        // Ordinary word spacing keeps the space.
        (CharKind::Glyph('x'), true, false),
        (CharKind::Space, false, false),
        // A wide gap after a space starts a new segment.
        (CharKind::Glyph('y'), true, true),
        // A wide gap without a space does not split.
        (CharKind::Glyph('z'), true, true),
        // Another line always splits.
        (CharKind::Glyph('w'), false, false),
        (CharKind::LineBreak, false, false),
        (CharKind::LineBreak, false, false),
        (CharKind::Glyph('v'), false, false),
    ];
    for (kind, same_line, wide_gap) in steps {
        if let Some(t) = seg.take_char(kind, same_line, wide_gap) {
            out.push(t);
        }
    }
    if let Some(t) = seg.flush() {
        out.push(t);
    }
    assert_eq!(out, vec!["A-M x", "yz", "w", "v"]);
}

#[test]
fn whitespace_only_segments_are_dropped() {
    let mut seg = SegmentText::new();
    assert_eq!(seg.take_char(CharKind::Glyph('\u{A0}'), true, false), None);
    assert_eq!(seg.take_char(CharKind::LineBreak, false, false), None);
    assert!(!seg.has_content());
    assert_eq!(seg.take_char(CharKind::Glyph('\t'), true, false), None);
    assert_eq!(seg.take_char(CharKind::Glyph('a'), true, false), None);
    assert_eq!(seg.take_char(CharKind::LineBreak, false, false), Some("a".to_string()));
}

#[test]
fn joins_reports_the_split_rule() {
    let mut seg = SegmentText::new();
    // Nothing started: a glyph starts a segment, it does not join.
    assert!(!seg.joins(true, false));
    seg.take_char(CharKind::Glyph('a'), true, false);
    assert!(seg.joins(true, false));
    assert!(seg.joins(true, true));
    assert!(!seg.joins(false, false));
    seg.take_char(CharKind::Space, false, false);
    assert!(seg.joins(true, false));
    assert!(!seg.joins(true, true));
}
