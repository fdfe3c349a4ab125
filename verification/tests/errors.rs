use std::collections::VecDeque;

use teacat_lib::error::lines::{decimal_string, padded_string, split_lines, Lines};
use teacat_lib::error::TeaCatError;
use teacat_lib::lexer::{StringLiteral, Token, TokenStream};
use teacat_lib::parser::attributes::Attributes;
use teacat_lib::parser::{access_macr, macr, tag, var, Ast, AstNode, Var};

const BOLD: &str = "\u{1b}[1m";
const RESET: &str = "\u{1b}[0m";
const DARK: &str = "\u{1b}[90m";
const HELP: &str = "\u{1b}[35m";
const DEFAULT: &str = "\u{1b}[37m";

fn parse(source: &str) -> Result<Ast, TeaCatError> {
    Ast::parse(TokenStream::lex(source))
}

fn stream(list: Vec<(usize, Token)>) -> TokenStream {
    TokenStream(VecDeque::from(list))
}

#[test]
fn identifier_is_required_behind_an_ampersand() {
    assert_eq!(
        parse("& x"),
        Err(TeaCatError::ExpectedIdent(0, Token::Text(" x".to_string())))
    );
    assert_eq!(
        parse("a\n&[x"),
        Err(TeaCatError::ExpectedIdent(1, Token::OpenBracket))
    );
    assert_eq!(
        parse("&"),
        Err(TeaCatError::EarlyEof(0, Token::Ident("ident".to_string())))
    );
}

#[test]
fn identifier_is_required_behind_a_colon() {
    assert_eq!(
        parse("note: this"),
        Err(TeaCatError::ExpectedIdent(0, Token::Text(" this".to_string())))
    );
}

#[test]
fn bracket_is_required_behind_the_name_of_a_tag() {
    assert_eq!(
        parse(":a b"),
        Err(TeaCatError::UnexpectedToken(0, Token::Text(" b".to_string())))
    );
    assert_eq!(parse(":a"), Err(TeaCatError::EarlyEof(0, Token::OpenBracket)));
}

#[test]
fn end_of_input_inside_a_construct() {
    assert_eq!(
        parse(":a[\nb\n"),
        Err(TeaCatError::EarlyEof(2, Token::CloseBracket))
    );
    assert_eq!(
        parse("&x := y"),
        Err(TeaCatError::EarlyEof(0, Token::SemiColon))
    );
    assert_eq!(parse("&x :="), Err(TeaCatError::EarlyEof(0, Token::SemiColon)));
    assert_eq!(parse(":a["), Err(TeaCatError::EarlyEof(0, Token::CloseBracket)));
}

#[test]
fn malformed_attributes() {
    assert_eq!(
        parse(":a{k v}[]"),
        Err(TeaCatError::UnexpectedAttr(0, Token::CloseBrace))
    );
    assert_eq!(
        parse(":a{k:v}[]"),
        Err(TeaCatError::UnexpectedAttr(0, Token::Ident("v".to_string())))
    );
    assert_eq!(
        parse(":a{[}[]"),
        Err(TeaCatError::UnexpectedAttr(0, Token::OpenBracket))
    );
    assert_eq!(
        parse(":a{\nk"),
        Err(TeaCatError::EarlyEof(1, Token::Colon))
    );
    assert_eq!(
        parse(":a{\nk:"),
        Err(TeaCatError::EarlyEof(
            1,
            Token::Stringliteral(StringLiteral::empty('"'))
        ))
    );
    assert_eq!(parse(":a{"), Err(TeaCatError::EarlyEof(0, Token::CloseBrace)));
    assert_eq!(
        parse(":a{\nk:'v'"),
        Err(TeaCatError::EarlyEof(1, Token::CloseBrace))
    );
}

#[test]
fn later_attribute_takes_the_place_of_an_earlier_one() {
    let ast = parse(":a{k:'1' j:'2' k:'3'}[]").unwrap();
    let mut attributes = Attributes::new();
    attributes.insert(" j".to_string(), StringLiteral::new('\'', "2".to_string()));
    attributes.insert("k".to_string(), StringLiteral::new('\'', "1".to_string()));
    attributes.insert(" k".to_string(), StringLiteral::new('\'', "3".to_string()));
    match &ast.0[0] {
        AstNode::Tag(tag) => {
            assert_eq!(tag.attributes, attributes);
            assert_eq!(tag.attributes.len(), 3);
            assert_eq!(tag.attributes.key(0), "k");
            assert_eq!(tag.attributes.key(1), " j");
        }
        other => panic!("expected a tag, found {:?}", other),
    }
    let mut twice = Attributes::new();
    twice.insert("k".to_string(), "1".into());
    twice.insert("k".to_string(), "2".into());
    assert_eq!(twice.len(), 1);
    assert_eq!(twice.value(0), &StringLiteral::from("2"));
    assert_eq!(
        twice.get(&"k".to_string()),
        Some(&StringLiteral::from("2"))
    );
    assert_eq!(twice.get(&"j".to_string()), None);
    assert_ne!(twice, Attributes::new());
    assert!(Attributes::new().is_included_in(&twice));
    assert!(!twice.is_included_in(&Attributes::new()));
}

#[test]
fn malformed_macros() {
    assert_eq!(
        parse("macr m{}[]"),
        Err(TeaCatError::UnexpectedToken(0, Token::Text(" m".to_string())))
    );
    assert_eq!(
        parse("macr @m[]"),
        Err(TeaCatError::UnexpectedToken(0, Token::OpenBracket))
    );
    assert_eq!(
        parse("macr @m{x}[]"),
        Err(TeaCatError::UnexpectedToken(0, Token::Text("x".to_string())))
    );
    assert_eq!(
        parse("macr @m{&}[]"),
        Err(TeaCatError::ExpectedIdent(0, Token::CloseBrace))
    );
    assert_eq!(
        parse("x\nmacr @m{&a"),
        Err(TeaCatError::EarlyEof(1, Token::CloseBrace))
    );
    assert_eq!(parse("macr"), Err(TeaCatError::EarlyEof(0, Token::At)));
    assert_eq!(
        parse("@m[x]"),
        Err(TeaCatError::UnexpectedToken(0, Token::Text("x".to_string())))
    );
    assert_eq!(
        parse("@m[&a]"),
        Err(TeaCatError::UnexpectedToken(0, Token::CloseBracket))
    );
    assert_eq!(parse("@m[&a"), Err(TeaCatError::EarlyEof(0, Token::Walrus)));
    assert_eq!(
        parse("x\n@m[&a := b;"),
        Err(TeaCatError::EarlyEof(1, Token::CloseBracket))
    );
    assert_eq!(parse("@m"), Err(TeaCatError::EarlyEof(0, Token::OpenBracket)));
}

#[test]
fn macros_parse() {
    let ast = parse("macr @m{&a &b}[&a] @m[&a := x; &b := y;]").unwrap();
    assert_eq!(ast.0.len(), 2);
    match &ast.0[0] {
        AstNode::Macr(def) => {
            assert_eq!(def.name, "m");
            assert_eq!(def.args, vec!["a".to_string(), "b".to_string()]);
            assert_eq!(
                def.contents,
                Ast(VecDeque::from(vec![AstNode::AccessVar(0, "a".to_string())]))
            );
        }
        other => panic!("expected a macro, found {:?}", other),
    }
    assert_eq!(
        ast.0[1],
        AstNode::AccessMacr(
            0,
            vec![
                Var {
                    name: "a".to_string(),
                    contents: Ast(VecDeque::from(vec![AstNode::text("x")])),
                },
                Var {
                    name: "b".to_string(),
                    contents: Ast(VecDeque::from(vec![AstNode::text("y")])),
                },
            ],
            "m".to_string()
        )
    );
}

#[test]
fn parts_of_the_grammar_leave_the_rest_of_the_stream() {
    let mut tokens = stream(vec![
        (3, Token::Ident("x".to_string())),
        (4, Token::Text("rest".to_string())),
    ]);
    assert_eq!(var(&mut tokens), Ok(AstNode::AccessVar(3, "x".to_string())));
    assert_eq!(tokens.tokens(), VecDeque::from(vec![Token::Text("rest".to_string())]));

    let mut tokens = stream(vec![
        (1, Token::Ident("t".to_string())),
        (1, Token::OpenBracket),
        (2, Token::CloseBracket),
        (2, Token::SemiColon),
    ]);
    assert!(tag(&mut tokens).is_ok());
    assert_eq!(tokens.tokens(), VecDeque::from(vec![Token::SemiColon]));

    let mut tokens = stream(vec![
        (1, Token::At),
        (1, Token::Ident("m".to_string())),
        (1, Token::OpenBrace),
        (1, Token::CloseBrace),
        (1, Token::OpenBracket),
        (1, Token::CloseBracket),
        (9, Token::Colon),
    ]);
    assert!(macr(&mut tokens).is_ok());
    assert_eq!(tokens.tokens(), VecDeque::from(vec![Token::Colon]));

    let mut tokens = stream(vec![
        (5, Token::Ident("m".to_string())),
        (5, Token::OpenBracket),
        (6, Token::CloseBracket),
        (6, Token::At),
    ]);
    assert_eq!(
        access_macr(&mut tokens),
        Ok(AstNode::AccessMacr(5, vec![], "m".to_string()))
    );
    assert_eq!(tokens.tokens(), VecDeque::from(vec![Token::At]));

    let mut tokens = stream(vec![
        (1, Token::Text("a".to_string())),
        (2, Token::SemiColon),
        (3, Token::Text("b".to_string())),
    ]);
    let var = Var::new("v".to_string(), &mut tokens).unwrap();
    assert_eq!(var.name, "v");
    assert_eq!(var.contents, Ast(VecDeque::from(vec![AstNode::text("a")])));
    assert_eq!(tokens.tokens(), VecDeque::from(vec![Token::Text("b".to_string())]));

    let mut tokens = stream(vec![(1, Token::Text("a".to_string()))]);
    assert_eq!(
        Ast::parse_until(&mut tokens, Some(Token::CloseBracket)),
        Err(TeaCatError::EarlyEof(1, Token::CloseBracket))
    );
}

#[test]
fn stray_tokens_are_text() {
    assert_eq!(
        parse("a ] b } c ; d := e { f [ g"),
        Ok(Ast(VecDeque::from(vec![
            AstNode::text("a "),
            AstNode::text("]"),
            AstNode::text(" b "),
            AstNode::text("}"),
            AstNode::text(" c "),
            AstNode::text(";"),
            AstNode::text(" d "),
            AstNode::text(":="),
            AstNode::text("e "),
            AstNode::text("{"),
            AstNode::text(" f "),
            AstNode::text("["),
            AstNode::text(" g"),
        ])))
    );
    assert_eq!(
        parse("'quoted' \\n"),
        Ok(Ast(VecDeque::from(vec![
            AstNode::text("'quoted'"),
            AstNode::text("\n"),
        ])))
    );
}

#[test]
fn messages() {
    let undefined_var = TeaCatError::UndefinedVar(1, "x".to_string());
    assert_eq!(undefined_var.to_string(), "variable '&x' undefined");
    assert_eq!(
        undefined_var.help_msg(),
        "to insert an '&' directly, use a backslash: '\\&x'"
    );
    assert_eq!(undefined_var.line_num(), 1);

    let undefined_macr = TeaCatError::UndefinedMacr(2, "m".to_string());
    assert_eq!(undefined_macr.to_string(), "macro '&m' undefined");
    assert_eq!(
        undefined_macr.help_msg(),
        "to insert an '@' directly, use a backslash: '\\@m'"
    );
    assert_eq!(undefined_macr.line_num(), 2);

    let too_deep = TeaCatError::RecursionLimit(3, "m".to_string());
    assert_eq!(too_deep.to_string(), "macro '@m' is nested too deeply");
    assert_eq!(too_deep.help_msg(), "make sure that '@m' does not invoke itself");
    assert_eq!(too_deep.line_num(), 3);

    let attr = TeaCatError::UnexpectedAttr(4, Token::Ident("v".to_string()));
    assert_eq!(attr.to_string(), "unexpected input in attributes: 'v'");
    assert_eq!(
        attr.help_msg(),
        "try surrounding the token with quotation marks: '\"v\"'"
    );
    assert_eq!(attr.line_num(), 4);

    let token = TeaCatError::UnexpectedToken(5, Token::Walrus);
    assert_eq!(token.to_string(), "unexpected token: ':='");
    assert_eq!(token.help_msg(), "remove the ':='");
    assert_eq!(token.line_num(), 5);

    let ident = TeaCatError::ExpectedIdent(
        6,
        Token::Stringliteral(StringLiteral::new('\'', "s".to_string())),
    );
    assert_eq!(ident.to_string(), "expected identifier, found ''s''");
    assert_eq!(
        ident.help_msg(),
        "if you intended ''s'' to be an identifier, be sure to remove or escape whitespace"
    );
    assert_eq!(ident.line_num(), 6);

    let eof = TeaCatError::EarlyEof(7, Token::CloseBracket);
    assert_eq!(eof.to_string(), "early end of file while seeking token ']'");
    assert_eq!(
        eof.help_msg(),
        "add the expected token to the end of the file: '..]'"
    );
    assert_eq!(eof.line_num(), 7);
    assert_eq!(eof.clone(), eof);
}

#[test]
fn fancy_rendering() {
    let source = "first\n&x\nthird\nfourth";
    let error = TeaCatError::UndefinedVar(2, "x".to_string());
    let expected = format!(
        "{BOLD}variable '&x' undefined{RESET}\n\n\
         {DARK}  2 | {DEFAULT}&x\n\
         {DARK}  3 | {DEFAULT}third\n\
         {DARK}  4 | {DEFAULT}fourth\n\
         {DARK}    ┆\n\
         {DARK}    ╰─▶ {HELP}{BOLD}help: to insert an '&' directly, use a backslash: '\\&x'{RESET}{DEFAULT}\n"
    );
    assert_eq!(error.err_fancy(source), expected);
}

#[test]
fn fancy_rendering_at_the_edges_of_the_text() {
    let error = TeaCatError::EarlyEof(0, Token::SemiColon);
    let expected = format!(
        "{BOLD}early end of file while seeking token ';'{RESET}\n\n\
         {DARK}    |{DEFAULT}\n\
         {DARK}  1 | {DEFAULT}&x := y\n\
         {DARK}    |{DEFAULT}\n\
         {DARK}    ┆\n\
         {DARK}    ╰─▶ {HELP}{BOLD}help: add the expected token to the end of the file: '..;'{RESET}{DEFAULT}\n"
    );
    assert_eq!(error.err_fancy("&x := y"), expected);

    let far = TeaCatError::EarlyEof(usize::MAX, Token::SemiColon);
    let expected = format!(
        "{BOLD}early end of file while seeking token ';'{RESET}\n\n\
         {DARK}    |{DEFAULT}\n\
         {DARK}    |{DEFAULT}\n\
         {DARK}    |{DEFAULT}\n\
         {DARK}    ┆\n\
         {DARK}    ╰─▶ {HELP}{BOLD}help: add the expected token to the end of the file: '..;'{RESET}{DEFAULT}\n"
    );
    assert_eq!(far.err_fancy("&x := y"), expected);
}

#[test]
fn lines_around_a_line() {
    let lines = Lines::new(2, "a\nb\nc");
    assert_eq!(
        lines.0,
        [
            Some((1, "a".to_string())),
            Some((2, "b".to_string())),
            Some((3, "c".to_string())),
        ]
    );
    let lines = Lines::new(3, "a\nb\nc");
    assert_eq!(
        lines.0,
        [Some((2, "b".to_string())), Some((3, "c".to_string())), None]
    );
    let lines = Lines::new(0, "");
    assert_eq!(lines.0, [None, None, None]);
    let lines = Lines::new(0, "a");
    assert_eq!(lines.0, [None, None, Some((1, "a".to_string()))]);
    let lines = Lines::new(1, "a");
    assert_eq!(lines.0, [None, Some((1, "a".to_string())), None]);
    let lines = Lines::from_line(0, "a\nb");
    assert_eq!(
        lines.0,
        [None, Some((1, "a".to_string())), Some((2, "b".to_string()))]
    );
    let lines = Lines::from_line(1, "a\nb\nc\nd");
    assert_eq!(
        lines.0,
        [
            Some((1, "a".to_string())),
            Some((2, "b".to_string())),
            Some((3, "c".to_string())),
        ]
    );
    assert_eq!(Lines::from_line(usize::MAX, "a").0, [None, None, None]);
    assert_eq!(Lines::from_line(usize::MAX - 1, "a").0, [None, None, None]);
    let lines = Lines::new(100, "a\nb");
    assert_eq!(lines.0, [None, None, None]);
    assert_eq!(
        Lines::new(100, "a").to_string(),
        format!("{DARK}    |{DEFAULT}\n").repeat(3)
    );
}

#[test]
fn lines_of_a_text() {
    assert_eq!(split_lines(""), Vec::<String>::new());
    assert_eq!(split_lines("a"), vec!["a"]);
    assert_eq!(split_lines("a\n"), vec!["a"]);
    assert_eq!(split_lines("a\n\n"), vec!["a", ""]);
    assert_eq!(split_lines("\na"), vec!["", "a"]);
    assert_eq!(split_lines("a\r\nb\rc\r"), vec!["a", "b\rc\r"]);
    assert_eq!(split_lines("a\r\r\nb"), vec!["a\r", "b"]);
    assert_eq!(split_lines("\r\n"), vec![""]);
    for text in ["", "a", "a\n", "a\n\nb", "\r\n\r\n", "x\ry\r\nz\r", "\n\n\n", "a\r"] {
        let expected: Vec<String> = text.lines().map(|line| line.to_string()).collect();
        assert_eq!(split_lines(text), expected, "for {:?}", text);
    }
}

#[test]
fn numbers_in_decimal() {
    assert_eq!(decimal_string(0), "0");
    assert_eq!(decimal_string(7), "7");
    assert_eq!(decimal_string(10), "10");
    assert_eq!(decimal_string(1234567890), "1234567890");
    assert_eq!(decimal_string(usize::MAX), usize::MAX.to_string());
    assert_eq!(padded_string(0), "  0");
    assert_eq!(padded_string(9), "  9");
    assert_eq!(padded_string(10), " 10");
    assert_eq!(padded_string(99), " 99");
    assert_eq!(padded_string(100), "100");
    assert_eq!(padded_string(12345), "12345");
    for n in [0usize, 5, 42, 100, 999, 1000, 65536] {
        assert_eq!(padded_string(n), format!("{n:3}"));
    }
}
