use utf8_rs::segment::{get_chars, get_codepoints, get_graphemes};

#[test]
fn empty_text_has_no_parts() {
    assert_eq!(get_chars(""), Vec::<String>::new());
    assert_eq!(get_graphemes(""), Vec::<String>::new());
    assert_eq!(get_codepoints(""), Vec::<u32>::new());
}

#[test]
fn characters_are_single_scalar_strings() {
    assert_eq!(get_chars("h\u{e9}\u{20ac}\u{1F600}"), vec!["h", "\u{e9}", "\u{20ac}", "\u{1F600}"]);
}

#[test]
fn codepoints_are_the_numeric_codes() {
    assert_eq!(get_codepoints("h\u{e9}\u{20ac}\u{1F600}"), vec![0x68, 0xE9, 0x20AC, 0x1F600]);
    assert_eq!(get_codepoints("\u{0}\u{10ffff}"), vec![0, 0x10FFFF]);
}

#[test]
fn as_many_codepoints_as_characters() {
    for text in ["", "abc", "e\u{301}", "\u{1F1F7}\u{1F1FA}\u{1F1F8}\u{1F1F9}", "a\r\nb"] {
        assert_eq!(get_codepoints(text).len(), get_chars(text).len());
        assert_eq!(get_chars(text).len(), text.chars().count());
    }
}

#[test]
fn combining_accent_stays_with_its_letter() {
    let text = "e\u{301}";
    assert_eq!(get_graphemes(text), vec!["e\u{301}"]);
    assert_eq!(get_graphemes(text).len(), 1);
    assert_eq!(get_chars(text), vec!["e", "\u{301}"]);
    assert_eq!(get_chars(text).len(), 2);
}

#[test]
fn clusters_of_marks_line_ends_and_flags() {
    assert_eq!(
        get_graphemes("a\u{310}e\u{301}o\u{308}\u{332}"),
        vec!["a\u{310}", "e\u{301}", "o\u{308}\u{332}"]
    );
    assert_eq!(
        get_graphemes("a\r\nb\u{1F1F7}\u{1F1FA}\u{1F1F8}\u{1F1F9}"),
        vec!["a", "\r\n", "b", "\u{1F1F7}\u{1F1FA}", "\u{1F1F8}\u{1F1F9}"]
    );
}

#[test]
fn clusters_make_up_the_text() {
    let texts = [
        "",
        "abc",
        "e\u{301}x",
        "\u{1F468}\u{200D}\u{1F469}\u{200D}\u{1F467}!",
        "\u{1b}[31mred\u{1b}[0m",
    ];
    for text in texts {
        let parts = get_graphemes(text);
        assert!(parts.iter().all(|part| !part.is_empty()));
        assert_eq!(parts.concat(), text);
        assert!(parts.len() <= get_chars(text).len());
    }
}
