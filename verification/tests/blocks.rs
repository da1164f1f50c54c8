use liteparse::{AdjacentLine, Block, LineFacts, PageBuilder, PairGeometry, ParaText};

fn facts(text: &str, prev: Option<&str>) -> LineFacts {
    LineFacts {
        text: text.to_string(),
        rotated: false,
        all_mono: false,
        mcid: None,
        outline: vec![],
        size_level: None,
        style: None,
        cell_count: 1,
        spans: vec![],
        prev: prev.map(|p| AdjacentLine {
            text: p.to_string(),
            style: None,
            geometry: PairGeometry {
                centered_mismatch: false,
                size_close: true,
                same_region: true,
                indent_shift: false,
                gap_ok: true,
            },
        }),
        next: None,
    }
}

fn texts(blocks: &[Block]) -> Vec<String> {
    blocks
        .iter()
        .map(|b| match b {
            Block::Heading { level, text } => format!("h{level}:{text}"),
            Block::Paragraph(ParaText { raw, inline, .. }) => format!("p:{raw}|{inline}"),
            Block::CodeBlock(lines) => format!("code:{}", lines.join("/")),
            Block::ListItem { ordered, marker, level, text } => {
                format!("li:{ordered}:{marker}:{level}:{text}")
            }
            Block::Break => "break".to_string(),
        })
        .collect()
}

#[test]
fn a_page_assembles_into_blocks() {
    let mut b = PageBuilder::new();
    let mut title = facts("Title of the document", None);
    title.size_level = Some(1);
    b.push_line(0, &title, &[], 1, "Title of the document", 0);
    assert_eq!(b.last_line(), Some(0));
    b.push_line(1, &facts("First sentence of the para-", Some("Title")), &[], 1, "First sentence of the para-", 0);
    b.push_line(2, &facts("   ", None), &[], 1, "", 0);
    assert_eq!(b.last_line(), Some(1));
    b.push_line(3, &facts("graph continues here.", Some("First sentence of the para-")), &[], 1, "graph *continues* here.", 0);
    let mut code = facts("    let x = 1;", None);
    code.all_mono = true;
    b.push_line(4, &code, &[], 1, "", 0);
    code.text = "    let y = x + 2;".to_string();
    b.push_line(5, &code, &[], 1, "", 0);
    assert_eq!(b.item_base(6), 6);
    b.push_line(6, &facts("• first bullet", None), &[], 1, "", 0);
    assert_eq!(b.item_base(7), 6);
    b.push_line(7, &facts("wrap-", Some("• first bullet")), &[], 1, "wrap-", 0);
    b.push_line(8, &facts("ped around", Some("wrap-")), &[], 1, "ped around", 0);
    b.push_line(9, &facts("• second", Some("ped around")), &[], 1, "", 1);
    b.push_break();
    assert_eq!(b.last_line(), None);
    assert_eq!(b.item_base(10), 10);
    b.push_line(10, &facts("After the table.", None), &[], 1, "After the table.", 0);
    let blocks = b.finish();
    assert_eq!(
        texts(&blocks),
        vec![
            "h1:Title of the document",
            "p:First sentence of the paragraph continues here.|First sentence of the paragraph *continues* here.",
            "code:    let x = 1;/    let y = x + 2;",
            "li:false:•:0:first bullet wrapped around",
            "li:false:•:1:second",
            "break",
            "p:After the table.|After the table.",
        ]
    );
}

#[test]
fn an_empty_page_has_no_blocks() {
    assert!(PageBuilder::new().finish().is_empty());
}
