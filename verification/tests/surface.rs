use utf8_rs::{
    calculate_display_width, char_to_codepoint, check_is_valid, codepoint_to_char, get_chars,
    get_codepoints, get_graphemes, TextError,
};

#[test]
fn the_seven_operations_on_one_text() {
    let text = "na\u{ef}ve\u{301}";
    assert_eq!(check_is_valid(text.as_bytes()), (true, text.to_string()));
    assert_eq!(get_chars(text), vec!["n", "a", "\u{ef}", "v", "e", "\u{301}"]);
    assert_eq!(get_graphemes(text), vec!["n", "a", "\u{ef}", "v", "e\u{301}"]);
    assert_eq!(get_codepoints(text), vec![0x6E, 0x61, 0xEF, 0x76, 0x65, 0x301]);
    assert_eq!(char_to_codepoint(text), Ok(0x6E));
    assert_eq!(codepoint_to_char(0xEF), Ok("\u{ef}".to_string()));
    assert_eq!(calculate_display_width(text, None, None), 5);
    assert_eq!(calculate_display_width(text, Some(true), None), 6);
}

#[test]
fn the_two_failures() {
    assert_eq!(char_to_codepoint(""), Err(TextError::EmptyInput));
    assert_eq!(codepoint_to_char(-1), Err(TextError::InvalidCodepoint { value: -1 }));
    assert_eq!(codepoint_to_char(0x110000), Err(TextError::InvalidCodepoint { value: 0x110000 }));
    assert_eq!(codepoint_to_char(0xD800), Err(TextError::InvalidCodepoint { value: 0xD800 }));
}

#[test]
fn malformed_bytes_are_an_answer_and_no_failure() {
    let (valid, diagnostic) = check_is_valid(b"caf\xC3");
    assert!(!valid);
    assert_eq!(diagnostic, "incomplete utf-8 byte sequence from index 3");
}
