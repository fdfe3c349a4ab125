use teacat_lib::expanded::renderer::tcat::surround_curly;
use teacat_lib::lexer::str_walker::StrWalker;
use teacat_lib::text::{char_is_whitespace, chars_of, str_is_blank, tidy_str};

#[test]
fn white_space_is_what_the_standard_library_calls_white_space() {
    for c in '\0'..=char::MAX {
        assert_eq!(char_is_whitespace(c), c.is_whitespace(), "for {:?}", c);
    }
}

#[test]
fn blank_texts() {
    assert!(str_is_blank(""));
    assert!(str_is_blank(" \t\n\r\u{a0}\u{3000}"));
    assert!(!str_is_blank(" a "));
    assert!(!str_is_blank("\u{200b}"));
}

#[test]
fn tidied_texts() {
    assert_eq!(tidy_str(""), "");
    assert_eq!(tidy_str("a"), "a");
    assert_eq!(tidy_str("a b"), "a b");
    assert_eq!(tidy_str("a  b"), "a b");
    assert_eq!(tidy_str("a \n\t b\u{2003}c"), "a b c");
    assert_eq!(tidy_str(" a "), " a ");
    assert_eq!(tidy_str("   a   "), " a ");
    assert_eq!(tidy_str("\na\n"), "a");
    assert_eq!(tidy_str("\ta\t"), "a");
    assert_eq!(tidy_str("\n a \n"), "a");
    assert_eq!(tidy_str(" \na\n "), " a ");
    assert_eq!(tidy_str("\ra\r"), " a ");
    assert_eq!(tidy_str(" "), "  ");
    assert_eq!(tidy_str("\n"), "");
    assert_eq!(tidy_str("\n "), " ");
}

#[test]
fn tidying_collapses_as_the_pattern_for_white_space_does() {
    let pattern = regex::Regex::new("\\s+").unwrap();
    for text in [
        "a",
        "a b",
        "a  b   c",
        "one\ttwo\nthree\r\nfour",
        "x\u{a0}\u{2003}y",
        "Grüße   an\talle",
    ] {
        assert_eq!(tidy_str(text), pattern.replace_all(text, " "), "for {:?}", text);
    }
    for text in ["  a  b  ", "\u{a0}a\u{3000}"] {
        assert_eq!(tidy_str(text), pattern.replace_all(text, " "), "for {:?}", text);
    }
}

#[test]
fn walker_finds_a_text_where_the_prefix_parser_does() {
    for (source, pattern) in [
        ("macro", "macr"),
        ("mac", "macr"),
        (":= x", ":="),
        (": = x", ":="),
        ("é", "é"),
        ("e", "é"),
        ("", "a"),
        ("a", ""),
    ] {
        let parsed: Result<(&str, &str), nom::Err<nom::error::Error<&str>>> =
            nom::Parser::parse(&mut nom::bytes::complete::tag(pattern), source);
        assert_eq!(
            StrWalker::new(source).currently_starts_with(pattern),
            parsed.is_ok(),
            "for {:?} in {:?}",
            pattern,
            source
        );
    }
}

#[test]
fn characters_of_a_text() {
    assert_eq!(chars_of(""), vec![]);
    assert_eq!(chars_of("aé€"), vec!['a', 'é', '€']);
}

#[test]
fn braces_around_a_text() {
    assert_eq!(surround_curly("a".to_string()), "{a}");
    assert_eq!(surround_curly(String::new()), "{}");
}
