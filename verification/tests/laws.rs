use liteparse::{classify_line, collapse_whitespace, dehyphenate_join, extract_pages, parse_list_marker};
use liteparse::{AdjacentLine, ClassifyState, LineFacts, PairGeometry};

fn nonspace(s: &str) -> String {
    s.chars().filter(|c| !c.is_whitespace()).collect()
}

#[test]
fn collapsed_text_has_single_inner_spaces_only() {
    for s in ["  a \t b\n\nc  ", "\u{2003}x\u{A0}\u{A0}y", "plain", "", "  "] {
        let r = collapse_whitespace(s);
        assert!(!r.starts_with(' ') && !r.ends_with(' '), "{r:?}");
        assert!(!r.contains("  "), "{r:?}");
        assert!(r.chars().all(|c| c == ' ' || !c.is_whitespace()), "{r:?}");
        assert_eq!(nonspace(&r), nonspace(s));
    }
}

#[test]
fn list_marker_reassembles_the_line() {
    for text in ["  • item one", "1.\u{A0}first", "123)   deep  item", "◦ nested"] {
        let (_, marker, rest) = parse_list_marker(text).unwrap();
        let t = text.trim_start();
        assert!(t.starts_with(marker.as_str()));
        assert!(t.ends_with(rest));
        let middle = &t[marker.len()..t.len() - rest.len()];
        assert!(!middle.is_empty() && middle.chars().all(char::is_whitespace));
    }
    assert!(parse_list_marker("1234. too many digits").is_none());
}

#[test]
fn dehyphenated_join_keeps_both_sides() {
    let cases = [("co-", "operate"), ("Vitamin-", "A"), ("end", "start"), ("", "x")];
    for (prev, next) in cases {
        let mut s = prev.to_string();
        dehyphenate_join(&mut s, next, next);
        assert!(s.ends_with(next));
        assert!(s.starts_with(prev) || s.starts_with(prev.strip_suffix('-').unwrap()));
        assert!(s.len() <= prev.len() + next.len() + 1);
    }
}

#[test]
fn one_requested_page_gives_at_most_one_index() {
    for count in [0, 1, 5] {
        for t in 0..7u32 {
            let r = extract_pages(count, Some(t));
            assert!(r.len() <= 1);
            if let Some(&p) = r.first() {
                assert_eq!(p as u32 + 1, t);
            }
        }
    }
}

#[test]
fn classification_keeps_at_most_one_block_open() {
    let texts = ["Intro line.", "• first", "continued", "    code();", "Title", "1. Numbered", "more text"];
    let mut s = ClassifyState { paragraph_open: false, code_open: false, list_open: false };
    let mut prev: Option<AdjacentLine> = None;
    for (i, text) in texts.iter().enumerate() {
        let f = LineFacts {
            text: text.to_string(),
            rotated: false,
            all_mono: i == 3,
            mcid: None,
            outline: vec![],
            size_level: if i == 4 { Some(1) } else { None },
            style: None,
            cell_count: 1,
            spans: vec![],
            prev,
            next: None,
        };
        classify_line(&mut s, &f, &[], 0);
        assert!(!(s.paragraph_open && s.list_open));
        assert!(!s.code_open || (!s.paragraph_open && !s.list_open));
        prev = Some(AdjacentLine {
            text: text.to_string(),
            style: None,
            geometry: PairGeometry {
                centered_mismatch: false,
                size_close: true,
                same_region: true,
                indent_shift: false,
                gap_ok: true,
            },
        });
    }
}
