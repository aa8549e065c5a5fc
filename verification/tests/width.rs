use regex::Regex;
use utf8_rs::width::{
    calculate_display_width, escape_len, escape_length, subtract_escapes,
    try_calculate_display_width,
};

fn escape_pattern() -> Regex {
    Regex::new(r"\x1b\[[0-9]+(?:;[0-9]+)*[a-zA-Z]").unwrap()
}

fn agrees_with_pattern(pattern: &Regex, text: &str) {
    let found: Vec<(usize, usize)> =
        pattern.find_iter(text).map(|found| (found.start(), found.len())).collect();
    let total: usize = found.iter().map(|(_, len)| len).sum();
    assert_eq!(escape_length(text.as_bytes()), total, "{:?}", text);
    for at in 0..=text.len() {
        let expected = found.iter().find(|(start, _)| *start == at).map_or(0, |(_, len)| *len);
        assert_eq!(escape_len(text.as_bytes(), at), expected, "{:?} at {}", text, at);
    }
}

#[test]
fn width_of_plain_text() {
    assert_eq!(calculate_display_width("abc", None, None), 3);
    assert_eq!(calculate_display_width("", None, None), 0);
    assert_eq!(calculate_display_width("abc", Some(true), Some(true)), 3);
    assert_eq!(calculate_display_width("", Some(true), None), 0);
}

#[test]
fn escapes_are_taken_off() {
    assert_eq!(calculate_display_width("\x1b[31mred\x1b[0m", Some(false), Some(false)), 3);
    assert_eq!(calculate_display_width("\x1b[31mred\x1b[0m", None, None), 3);
    assert_eq!(calculate_display_width("\x1b[31mred\x1b[0m", Some(true), Some(false)), 3);
}

#[test]
fn escapes_are_counted_when_ignored() {
    assert_eq!(calculate_display_width("\x1b[31mred\x1b[0m", Some(false), Some(true)), 12);
    assert_eq!(calculate_display_width("\x1b[31mred\x1b[0m", None, Some(true)), 12);
    assert_eq!(calculate_display_width("\x1b[31mred\x1b[0m", Some(true), Some(true)), 12);
}

#[test]
fn clusters_count_once_unless_ignored() {
    assert_eq!(calculate_display_width("e\u{301}", None, None), 1);
    assert_eq!(calculate_display_width("e\u{301}", Some(false), None), 1);
    assert_eq!(calculate_display_width("e\u{301}", Some(true), None), 2);
    assert_eq!(calculate_display_width("\u{65e5}\u{672c}\u{8a9e}", None, None), 3);
    assert_eq!(calculate_display_width("\u{1F1F7}\u{1F1FA}", None, None), 1);
    assert_eq!(calculate_display_width("\u{1F1F7}\u{1F1FA}", Some(true), None), 2);
}

#[test]
fn text_of_escapes_only_has_no_width() {
    assert_eq!(calculate_display_width("\x1b[0m", None, None), 0);
    assert_eq!(calculate_display_width("\x1b[12;34;56H", None, None), 0);
    assert_eq!(calculate_display_width("\x1b[1m\x1b[2m", Some(true), None), 0);
}

#[test]
fn clusters_are_counted_over_the_whole_text() {
    // Seven characters of escape and one cluster of two characters.
    assert_eq!(calculate_display_width("\x1b[1;31m\r\n", None, None), 8 - 7);
    assert_eq!(calculate_display_width("\x1b[1;31m\r\n", Some(true), None), 9 - 7);
    assert_eq!(calculate_display_width("\x1b[0m\r\n\x1b[0m\r\n", Some(false), Some(false)), 10 - 8);
}

#[test]
fn escape_before_a_combining_mark() {
    // The mark joins the letter that ends the escape sequence: five
    // characters in four clusters, and four bytes of escape.
    let text = "\x1b[0m\u{301}";
    assert_eq!(calculate_display_width(text, Some(true), Some(true)), 5);
    assert_eq!(calculate_display_width(text, Some(false), Some(true)), 4);
    assert_eq!(calculate_display_width(text, Some(true), Some(false)), 1);
    assert_eq!(calculate_display_width(text, Some(false), Some(false)), 0);
}

#[test]
fn subtraction_from_a_given_count() {
    assert_eq!(subtract_escapes(12, b"\x1b[31mred\x1b[0m", false), 3);
    assert_eq!(subtract_escapes(12, b"\x1b[31mred\x1b[0m", true), 12);
    assert_eq!(subtract_escapes(5, b"plain", false), 5);
}

#[test]
fn width_of_a_text_of_any_length() {
    assert_eq!(try_calculate_display_width("\x1b[31mred\x1b[0m", None, None), Some(3));
    assert_eq!(try_calculate_display_width("\x1b[31mred\x1b[0m", None, Some(true)), Some(12));
    assert_eq!(try_calculate_display_width("e\u{301}", Some(true), None), Some(2));
    assert_eq!(try_calculate_display_width("", None, None), Some(0));
}

#[test]
fn width_falls_below_zero() {
    assert_eq!(subtract_escapes(0, b"\x1b[31mred\x1b[0m", false), -9);
    assert_eq!(subtract_escapes(3, b"\x1b[31mred\x1b[0m", false), -6);
    assert_eq!(subtract_escapes(3, b"\x1b[31mred\x1b[0m", true), 3);
}

#[test]
fn length_of_one_escape() {
    assert_eq!(escape_len(b"\x1b[31m", 0), 5);
    assert_eq!(escape_len(b"\x1b[0m", 0), 4);
    assert_eq!(escape_len(b"\x1b[1;31;40m", 0), 10);
    assert_eq!(escape_len(b"ab\x1b[2Jcd", 2), 4);
    assert_eq!(escape_len(b"ab\x1b[2Jcd", 0), 0);
    assert_eq!(escape_len(b"ab\x1b[2Jcd", 3), 0);
    assert_eq!(escape_len(b"\x1b[31m", 5), 0);
    assert_eq!(escape_len(b"\x1b[31m", 9), 0);
}

#[test]
fn what_is_no_escape() {
    let texts = [
        "\x1b[m", "\x1b[;1m", "\x1b[1;m", "\x1b[1;;2m", "\x1b[1", "\x1b[1;", "\x1b[", "\x1b",
        "\x1b]0m", "\x1b[1 m", "\x1b[1\x1b", "[31m", "\x1b[?25h", "\x1b[1@", "\x1b[1[", "\x1b[1`",
        "\x1b[1{",
    ];
    for text in texts {
        assert_eq!(escape_len(text.as_bytes(), 0), 0, "{:?}", text);
        assert_eq!(escape_length(text.as_bytes()), 0, "{:?}", text);
    }
}

#[test]
fn every_letter_ends_an_escape() {
    for letter in (b'a'..=b'z').chain(b'A'..=b'Z') {
        assert_eq!(escape_len(&[0x1B, b'[', b'7', letter], 0), 4);
    }
    for digit in b'0'..=b'9' {
        assert_eq!(escape_len(&[0x1B, b'[', digit, b'm'], 0), 4);
    }
}

#[test]
fn sum_over_all_escapes() {
    assert_eq!(escape_length(b""), 0);
    assert_eq!(escape_length(b"plain"), 0);
    assert_eq!(escape_length(b"\x1b[31mred\x1b[0m"), 9);
    assert_eq!(escape_length(b"\x1b[1m\x1b[2m\x1b[3m"), 12);
    assert_eq!(escape_length(b"\x1b[\x1b[1m"), 4);
    assert_eq!(escape_length(b"\x1b[1;\x1b[22;33mx"), 8);
}

#[test]
fn escapes_agree_with_the_pattern() {
    let pattern = escape_pattern();
    let pieces = ["\x1b", "[", "\x1b[", "0", "19", ";", "m", "H", "\u{e9}", "@"];
    let mut texts = vec![String::new()];
    for _ in 0..4 {
        let mut longer = Vec::new();
        for text in &texts {
            for piece in pieces {
                longer.push(format!("{}{}", text, piece));
            }
        }
        for text in &longer {
            agrees_with_pattern(&pattern, text);
        }
        texts = longer;
    }
}

#[test]
fn escapes_in_longer_texts_agree_with_the_pattern() {
    let pattern = escape_pattern();
    for text in [
        "\x1b[31mred\x1b[0m",
        "\x1b[1;31;40mbold\x1b[0m and \x1b[4munderlined\x1b[24m",
        "\x1b[\x1b[\x1b[1m",
        "\x1b[1;2;3;4;5;6;7;8;9;10m",
        "\x1b[12;\x1b[3m",
        "caf\u{e9} \x1b[38;5;196m\u{65e5}\u{672c}\x1b[0m",
        "\x1b[0\u{301}m",
        "\x1b[1m\u{301}",
    ] {
        agrees_with_pattern(&pattern, text);
    }
}
