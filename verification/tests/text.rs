use parakeet_tdt_app::text::{is_white_space_char, join_with_spaces, trim_text};

#[test]
fn white_space_matches_std() {
    for u in 0u32..=0x10FFFF {
        if let Some(c) = char::from_u32(u) {
            assert_eq!(is_white_space_char(c), c.is_whitespace(), "U+{:04X}", u);
        }
    }
}

#[test]
fn trim_matches_std() {
    let cases = [
        "",
        " ",
        "abc",
        "  abc  ",
        "\t\na b\r\n",
        "\u{3000}テキスト\u{2003}",
        "\u{85}x\u{a0}",
        "x\u{200b}",
        "   \u{2028}",
    ];
    for s in cases {
        assert_eq!(trim_text(s), s.trim(), "{:?}", s);
    }
}

#[test]
fn join_uses_single_spaces() {
    let empty: Vec<String> = vec![];
    assert_eq!(join_with_spaces(&empty), "");
    assert_eq!(join_with_spaces(&vec!["one".to_string()]), "one");
    let parts = vec!["a".to_string(), "b c".to_string(), "d".to_string()];
    assert_eq!(join_with_spaces(&parts), parts.join(" "));
}
