use liteparse::{chars_of, collapse_whitespace, is_whitespace, string_from_chars};

#[test]
fn collapse_whitespace_joins_runs() {
    assert_eq!(collapse_whitespace("for    instance"), "for instance");
    assert_eq!(collapse_whitespace("  lead and trail \t\n"), "lead and trail");
    assert_eq!(collapse_whitespace("a\u{00A0}\u{2003}b"), "a b");
    assert_eq!(collapse_whitespace(""), "");
    assert_eq!(collapse_whitespace(" \t "), "");
}

#[test]
fn collapse_whitespace_is_idempotent_on_examples() {
    for s in ["  a  b  ", "x\n\ny", "", "   ", "one"] {
        let once = collapse_whitespace(s);
        assert_eq!(collapse_whitespace(&once), once);
    }
}

#[test]
fn unicode_whitespace_is_recognized() {
    for c in [' ', '\t', '\n', '\u{0B}', '\u{0C}', '\r', '\u{85}', '\u{A0}', '\u{1680}', '\u{2000}', '\u{200A}', '\u{2028}', '\u{2029}', '\u{202F}', '\u{205F}', '\u{3000}'] {
        assert!(is_whitespace(c), "{c:?}");
        assert_eq!(is_whitespace(c), c.is_whitespace());
    }
    for c in ['a', '\u{200B}', '\u{FEFF}', '-', '\u{0}'] {
        assert!(!is_whitespace(c), "{c:?}");
        assert_eq!(is_whitespace(c), c.is_whitespace());
    }
}

#[test]
fn chars_round_trip() {
    let v = chars_of("héllo");
    assert_eq!(v, vec!['h', 'é', 'l', 'l', 'o']);
    assert_eq!(string_from_chars(&v), "héllo");
}
