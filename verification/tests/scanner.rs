use std::collections::VecDeque;

use teacat_lib::error::TeaCatError;
use teacat_lib::lexer::str_walker::StrWalker;
use teacat_lib::lexer::{Escape, StringLiteral, Token, TokenStream};
use teacat_lib::text::char_len_utf8;

fn lex(source: &str) -> Vec<(usize, Token)> {
    TokenStream::lex(source).0.into_iter().collect()
}

fn text(str: &str) -> Token {
    Token::Text(str.to_string())
}

fn ident(str: &str) -> Token {
    Token::Ident(str.to_string())
}

fn literal(quotes: char, str: &str) -> Token {
    Token::Stringliteral(StringLiteral::new(quotes, str.to_string()))
}

#[test]
fn empty_and_blank_sources_have_no_tokens() {
    assert_eq!(lex(""), vec![]);
    assert_eq!(lex(" \n\t "), vec![]);
    assert_eq!(lex("# only a comment"), vec![]);
    assert_eq!(lex("<# only a comment #>"), vec![]);
}

#[test]
fn comment_runs_to_the_end_of_the_line() {
    assert_eq!(lex("a # b\nc"), vec![(1, text("a c"))]);
    assert_eq!(lex("a # b"), vec![(0, text("a "))]);
    assert_eq!(lex("a #[ :x &y\n]"), vec![(1, text("a")), (1, Token::CloseBracket)]);
}

#[test]
fn comments_nest() {
    assert_eq!(lex("a<# b #>c"), vec![(0, text("ac"))]);
    assert_eq!(lex("a<# b <# c #> d #>e"), vec![(0, text("ae"))]);
    assert_eq!(lex("a<# b <# c #> d"), vec![(0, text("a"))]);
    assert_eq!(lex("a<#\n\n#>b\n"), vec![(3, text("ab"))]);
    assert_eq!(lex("a<# ' : [ #>b"), vec![(0, text("ab"))]);
}

#[test]
fn closing_mark_outside_a_comment_starts_a_comment_line() {
    assert_eq!(lex("a #> b\nc"), vec![(1, text("a c"))]);
    assert_eq!(lex("#>"), vec![]);
}

#[test]
fn backslash_makes_the_next_character_text() {
    assert_eq!(lex("\\:a"), vec![(0, text(":a"))]);
    assert_eq!(lex("\\\\"), vec![(0, text("\\"))]);
    assert_eq!(lex("a\\#b"), vec![(0, text("a#b"))]);
    assert_eq!(lex("\\<#a"), vec![(0, text("<"))]);
    assert_eq!(lex("a\\"), vec![(0, text("a"))]);
    assert_eq!(lex("\\macr"), vec![(0, text("macr"))]);
}

#[test]
fn backslash_and_a_letter_is_an_escape() {
    assert_eq!(
        lex("a\\nb"),
        vec![
            (0, text("a")),
            (0, Token::Escape(Escape::Newline)),
            (0, text("b")),
        ]
    );
    assert_eq!(
        lex("\\r\\t"),
        vec![
            (0, Token::Escape(Escape::CarriageReturn)),
            (0, Token::Escape(Escape::Tab)),
        ]
    );
    assert_eq!(Escape::Newline.to_string(), "\n");
    assert_eq!(Escape::CarriageReturn.to_string(), "\r");
    assert_eq!(Escape::Tab.to_string(), "\t");
    assert_eq!(
        Escape::rules(),
        vec![
            ("r", Escape::CarriageReturn),
            ("n", Escape::Newline),
            ("t", Escape::Tab),
        ]
    );
}

#[test]
fn quotes_make_literals() {
    assert_eq!(lex("'a b'"), vec![(0, literal('\'', "a b"))]);
    assert_eq!(lex("\"a 'b' c\""), vec![(0, literal('"', "a 'b' c"))]);
    assert_eq!(lex("':x[&y]'"), vec![(0, literal('\'', ":x[&y]"))]);
    assert_eq!(lex("'open"), vec![(0, literal('\'', "open"))]);
    assert_eq!(lex("a'b'c"), vec![(0, text("a")), (0, literal('\'', "b")), (0, text("c"))]);
    assert_eq!(lex("'a   b'"), vec![(0, literal('\'', "a b"))]);
    assert_eq!(lex("''"), vec![]);
    assert_eq!(lex("'a # b\nc'"), vec![(1, literal('\'', "a c"))]);
    assert_eq!(lex("'a\\'b'"), vec![(0, literal('\'', "a")), (0, text("b"))]);
}

#[test]
fn identifier_ends_at_white_space() {
    assert_eq!(
        lex("&a b"),
        vec![(0, Token::Andpersand), (0, ident("a")), (0, text(" b"))]
    );
    assert_eq!(
        lex(":a\u{a0}b"),
        vec![(0, Token::Colon), (0, ident("a")), (0, text(" b"))]
    );
    assert_eq!(
        lex("@ a"),
        vec![(0, Token::At), (0, text(" a"))]
    );
    assert_eq!(lex("&a\\:b["), vec![(0, Token::Andpersand), (0, ident("a:b")), (0, Token::OpenBracket)]);
}

#[test]
fn longest_operator_wins() {
    assert_eq!(
        lex("a:= b"),
        vec![(0, text("a")), (0, Token::Walrus), (0, text("b"))]
    );
    assert_eq!(
        lex("a:=b"),
        vec![(0, text("a")), (0, Token::Walrus), (0, text("b"))]
    );
    assert_eq!(
        lex("a:=  b"),
        vec![(0, text("a")), (0, Token::Walrus), (0, text(" b"))]
    );
    assert_eq!(
        lex("xmacry"),
        vec![(0, text("x")), (0, Token::Macr), (0, text("y"))]
    );
}

#[test]
fn lines_are_counted_where_tokens_close() {
    assert_eq!(
        lex("a\n:b\n[\n]"),
        vec![
            (1, text("a")),
            (1, Token::Colon),
            (2, ident("b")),
            (3, Token::OpenBracket),
            (3, Token::CloseBracket),
        ]
    );
    assert_eq!(lex("\\\na"), vec![(1, text("a"))]);
}

#[test]
fn white_space_is_tidied() {
    assert_eq!(lex("  a \t\n b  "), vec![(1, text(" a b "))]);
    assert_eq!(lex("\na\n"), vec![(2, text("a"))]);
    assert_eq!(lex("\t a"), vec![(0, text("a"))]);
    assert_eq!(lex(" \ta"), vec![(0, text(" a"))]);
    assert_eq!(lex("a\u{2003}\u{3000}b"), vec![(0, text("a b"))]);
    assert_eq!(lex("a\u{a0}"), vec![(0, text("a "))]);
}

#[test]
fn printable_forms() {
    assert_eq!(text("a b").to_string(), "a b");
    assert_eq!(ident("a").to_string(), "a");
    assert_eq!(literal('"', "x").to_string(), "\"x\"");
    assert_eq!(literal('\'', "").to_string(), "''");
    assert_eq!(Token::Escape(Escape::Tab).to_string(), "\t");
    assert_eq!(Token::OpenBracket.to_string(), "[");
    assert_eq!(Token::CloseBracket.to_string(), "]");
    assert_eq!(Token::OpenBrace.to_string(), "{");
    assert_eq!(Token::CloseBrace.to_string(), "}");
    assert_eq!(Token::Macr.to_string(), " macr ");
    assert_eq!(Token::Walrus.to_string(), ":=");
    assert_eq!(Token::Colon.to_string(), ":");
    assert_eq!(Token::SemiColon.to_string(), ";");
    assert_eq!(Token::Andpersand.to_string(), "&");
    assert_eq!(Token::At.to_string(), "@");
    assert_eq!(StringLiteral::new('"', "a".to_string()).into_string(), "\"a\"");
    assert_eq!(StringLiteral::empty('\'').into_string(), "''");
    assert_eq!(StringLiteral::from("a"), StringLiteral::new('"', "a".to_string()));
}

#[test]
fn token_helpers() {
    assert_eq!(Token::empty(), text(""));
    assert!(Token::Colon.creates_ident());
    assert!(Token::Andpersand.creates_ident());
    assert!(Token::At.creates_ident());
    assert!(!Token::Macr.creates_ident());
    assert!(!text("a").creates_ident());
    assert_eq!(text("a").string_ref(), Some("a"));
    assert_eq!(ident("b").string_ref(), Some("b"));
    assert_eq!(literal('"', "c").string_ref(), Some("c"));
    assert_eq!(Token::Walrus.string_ref(), None);

    let mut token = text("a");
    token.push_char('b');
    assert_eq!(token, text("ab"));
    let mut token = literal('\'', "a");
    token.push_char('b');
    assert_eq!(token, literal('\'', "ab"));
    let mut token = Token::Colon;
    token.push_char('b');
    assert_eq!(token, Token::Colon);
    assert!(token.string_mut().is_none());
    let mut token = ident("a");
    token.string_mut().unwrap().push_str("bc");
    assert_eq!(token, ident("abc"));
    assert_eq!(token.clone(), token);
    assert_ne!(token, text("abc"));
    assert_ne!(literal('"', "a"), literal('\'', "a"));
    assert_eq!(Token::rules().len(), 11);
    assert_eq!(Token::rules()[5], (":= ", Token::Walrus));
}

#[test]
fn stream_is_read_from_the_front() {
    let mut stream = TokenStream::default();
    assert!(stream.is_empty());
    assert_eq!(stream.pop(), None);
    stream.push((1, Token::Colon));
    stream.push((2, ident("a")));
    stream.push((3, Token::OpenBracket));
    assert!(!stream.is_empty());
    assert!(stream.front_is(&Token::Colon));
    assert!(!stream.front_is(&Token::At));
    assert_eq!(stream.expect(Token::Colon), Ok(()));
    assert_eq!(stream.current_ident(), Ok((2, "a".to_string())));
    assert_eq!(
        stream.expect(Token::CloseBracket),
        Err(TeaCatError::UnexpectedToken(3, Token::OpenBracket))
    );
    assert!(stream.is_empty());
    assert!(!stream.front_is(&Token::Colon));
    assert_eq!(
        stream.expect(Token::Colon),
        Err(TeaCatError::EarlyEof(0, Token::Colon))
    );
    assert_eq!(
        stream.current_ident(),
        Err(TeaCatError::EarlyEof(0, ident("ident")))
    );
    stream.push((4, text("t")));
    assert_eq!(
        stream.current_ident(),
        Err(TeaCatError::ExpectedIdent(4, text("t")))
    );
}

#[test]
fn expect_with_the_errors_of_the_caller() {
    let other = |line: usize, found: Token| TeaCatError::UnexpectedAttr(line + 1, found);
    let end = || TeaCatError::EarlyEof(9, Token::Colon);
    let mut stream = TokenStream(VecDeque::from(vec![(1, Token::Colon), (2, Token::At)]));
    assert_eq!(stream.expect_with_err(Token::Colon, other, end), Ok(()));
    assert_eq!(
        stream.expect_with_err(Token::Colon, other, end),
        Err(TeaCatError::UnexpectedAttr(3, Token::At))
    );
    assert_eq!(
        stream.expect_with_err(Token::Colon, other, end),
        Err(TeaCatError::EarlyEof(9, Token::Colon))
    );
}

#[test]
fn stream_from_tokens_is_on_line_zero() {
    let stream = TokenStream::from(VecDeque::from(vec![Token::Colon, ident("a")]));
    assert_eq!(
        stream,
        TokenStream(VecDeque::from(vec![(0, Token::Colon), (0, ident("a"))]))
    );
    assert_eq!(stream.tokens(), VecDeque::from(vec![Token::Colon, ident("a")]));
}

#[test]
fn walker_walks_characters() {
    let mut walker = StrWalker::new("aé:= b");
    assert!(!walker.reached_end());
    assert!(walker.currently_starts_with("aé"));
    assert!(walker.currently_starts_with(""));
    assert!(!walker.currently_starts_with("é"));
    assert!(!walker.currently_starts_with("aé:= b and more"));
    assert_eq!(walker.next_char(), Some('a'));
    assert_eq!(walker.next_char(), Some('é'));
    assert_eq!(walker.try_each(&[("x", 1), (":=", 2), (":= ", 3)]), Some(2));
    assert_eq!(walker.try_each(&[("x", 1), (":=", 2)]), None);
    assert!(walker.currently_starts_with(" b"));
    walker.jump_by(2);
    assert!(walker.reached_end());
    assert_eq!(walker.next_char(), None);
    assert!(walker.currently_starts_with(""));
    assert!(!walker.currently_starts_with("b"));
}

#[test]
fn walker_jumps_by_bytes_of_whole_characters() {
    let mut walker = StrWalker::new("aé€😀b");
    walker.jump_by(0);
    assert!(walker.currently_starts_with("aé"));
    walker.jump_by("a".len());
    assert!(walker.currently_starts_with("é€"));
    walker.jump_by("é".len());
    assert!(walker.currently_starts_with("€"));
    walker.jump_by("€😀".len());
    assert!(walker.currently_starts_with("b"));
    walker.jump_by(1);
    assert!(walker.reached_end());
    for c in ['a', 'é', '€', '😀', '\u{7f}', '\u{80}', '\u{7ff}', '\u{800}', '\u{ffff}', '\u{10000}'] {
        assert_eq!(char_len_utf8(c), c.len_utf8(), "for {:?}", c);
    }
}

#[test]
fn walker_jumps_to_the_next_place() {
    let mut walker = StrWalker::new("ab\ncd\nef");
    walker.jump_to_next("\n");
    assert!(walker.currently_starts_with("\ncd"));
    walker.jump_to_next("\n");
    assert!(walker.currently_starts_with("\nef"));
    walker.jump_to_next("\n");
    assert!(walker.reached_end());
    walker.jump_to_next("\n");
    assert!(walker.reached_end());

    let mut walker = StrWalker::new("xxabxab");
    walker.jump_to_next("ab");
    assert!(walker.currently_starts_with("abxab"));
    walker.jump_to_next("ab");
    assert!(walker.currently_starts_with("ab"));
    assert!(!walker.currently_starts_with("abx"));
}
