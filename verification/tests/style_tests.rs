use pjsekai_scores_rs::style::{
    color_text_is_ok, is_cjk_char, normalize_family_lookup, normalize_font_family, parse_color,
    try_parse_color,
    parse_font_families, split_css_list, strip_css_comments, RGBA,
};

#[test]
fn parses_unquoted_rodin_font_family() {
    assert_eq!(
        parse_font_families("FOT-RodinNTLG Pro DB"),
        Some(vec!["FOT-RodinNTLG Pro DB".to_string()])
    );
}

#[test]
fn parses_quoted_font_family_list() {
    assert_eq!(
        parse_font_families(
            "\"ヒラギノ角ゴ Pro W3\", \"Hiragino Kaku Gothic Pro\", Osaka, sans-serif",
        ),
        Some(vec![
            "ヒラギノ角ゴ Pro W3".to_string(),
            "Hiragino Kaku Gothic Pro".to_string(),
            "Osaka".to_string(),
            "sans-serif".to_string(),
        ])
    );
}

#[test]
fn drops_css_wide_keywords_and_empty_families() {
    assert_eq!(parse_font_families("inherit"), None);
    assert_eq!(parse_font_families(" INITIAL , "), None);
    assert_eq!(parse_font_families(""), None);
    assert_eq!(normalize_font_family("  Osaka "), Some("Osaka".to_string()));
    assert_eq!(normalize_font_family("Inherit"), None);
}

#[test]
fn splits_css_lists_with_quotes_and_escapes() {
    assert_eq!(
        split_css_list("'a, b', c\\d, \"e\\\"f\","),
        vec!["a, b".to_string(), "c\\d".to_string(), "e\"f".to_string()]
    );
    assert_eq!(split_css_list(" x ,, y"), vec!["x".to_string(), "".to_string(), "y".to_string()]);
}

#[test]
fn normalizes_family_lookup_keys() {
    assert_eq!(normalize_family_lookup("  Hiragino   Kaku\tGothic PRO "), "hiragino kaku gothic pro");
    assert_eq!(normalize_family_lookup(""), "");
}

#[test]
fn detects_cjk_characters() {
    assert!(is_cjk_char('ヒ'));
    assert!(is_cjk_char('角'));
    assert!(is_cjk_char('\u{3000}'));
    assert!(!is_cjk_char('A'));
    assert!(!is_cjk_char('é'));
}

#[test]
fn css_comments_are_removed() {
    assert_eq!(
        strip_css_comments(".a { fill: #fff; } /* note */ .b { stroke: black; }"),
        ".a { fill: #fff; }  .b { stroke: black; }"
    );
    assert_eq!(strip_css_comments("a/* open"), "a");
    assert_eq!(strip_css_comments("/**/b/*x*/c"), "bc");
    assert_eq!(strip_css_comments("plain"), "plain");
}

#[test]
fn colors_are_read_from_names_and_hex() {
    let rgba = |r, g, b, a| Some(RGBA { r, g, b, a });
    assert_eq!(parse_color(" black "), rgba(0, 0, 0, 255));
    assert_eq!(parse_color("white"), rgba(255, 255, 255, 255));
    assert_eq!(parse_color("transparent"), None);
    assert_eq!(parse_color("none"), None);
    assert_eq!(parse_color("#f80"), rgba(0xff, 0x88, 0x00, 255));
    assert_eq!(parse_color("#f808"), rgba(0xff, 0x88, 0x00, 0x88));
    assert_eq!(parse_color("#1a2B3c"), rgba(0x1a, 0x2b, 0x3c, 255));
    assert_eq!(parse_color("#1a2b3c80"), rgba(0x1a, 0x2b, 0x3c, 0x80));
    assert_eq!(parse_color("#12345"), None);
    assert_eq!(parse_color("#xyz"), None);
    assert_eq!(parse_color("red"), None);
}

#[test]
fn color_texts_that_would_cut_a_character_are_refused() {
    // "a" then a two-byte character: the first hex pair would end inside it.
    assert!(!color_text_is_ok("#a\u{e9}bcd"));
    assert_eq!(try_parse_color("#a\u{e9}bcd"), None);
    // A first pair that is not hex stops the reading before any cut.
    assert!(color_text_is_ok("#\u{e9}\u{e9}\u{e9}"));
    assert_eq!(try_parse_color("#\u{e9}\u{e9}\u{e9}"), Some(None));
    assert!(color_text_is_ok("#1a2b3c"));
    assert_eq!(
        try_parse_color("#1a2b3c"),
        Some(Some(RGBA { r: 0x1a, g: 0x2b, b: 0x3c, a: 255 }))
    );
    assert!(color_text_is_ok("white"));
}
