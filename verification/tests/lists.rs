use liteparse::parse_list_marker;

#[test]
fn parse_list_marker_bullets() {
    let (ordered, marker, rest) = parse_list_marker("• item one").unwrap();
    assert!(!ordered);
    assert_eq!(marker, "•");
    assert_eq!(rest, "item one");
}

#[test]
fn parse_list_marker_decimal() {
    let (ordered, marker, rest) = parse_list_marker("1. first").unwrap();
    assert!(ordered);
    assert_eq!(marker, "1.");
    assert_eq!(rest, "first");

    let (ordered, marker, rest) = parse_list_marker("12) twelfth").unwrap();
    assert!(ordered);
    assert_eq!(marker, "12)");
    assert_eq!(rest, "twelfth");
}

#[test]
fn parse_list_marker_rejects_prose() {
    assert!(parse_list_marker("This sentence.").is_none());
    // Bare digit with no terminator → not a list
    assert!(parse_list_marker("2023 was a year").is_none());
    // Footnote caller / page number style — no whitespace after
    assert!(parse_list_marker("1.5x growth").is_none());
}
