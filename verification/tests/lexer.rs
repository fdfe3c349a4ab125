use std::collections::VecDeque;

use teacat_lib::lexer::{start_of_string, StringLiteral, Token, TokenStream};

fn tokens(list: Vec<Token>) -> VecDeque<Token> {
    VecDeque::from(list)
}

#[test]
fn lexer_variables() {
    let str = "
		&x := X;
		&x
		";

    let tokenstream = TokenStream::lex(str);

    assert_eq!(
        tokenstream.tokens(),
        tokens(vec![
            Token::Andpersand,
            Token::Ident("x".into()),
            Token::Walrus,
            Token::Text("X".into()),
            Token::SemiColon,
            Token::Andpersand,
            Token::Ident("x".into()),
        ])
    );
}

#[test]
fn lexer_rule() {
    assert_eq!(
        start_of_string(&mut "nothing".into(), &Token::rules()),
        None
    );
    assert_eq!(
        start_of_string(&mut ":=".into(), &Token::rules()),
        Some(Token::Walrus)
    );
    assert_eq!(
        start_of_string(&mut "ab := cd".into(), &Token::rules()),
        None
    );
}

#[test]
fn lexer_escape() {
    let str = "
		&x
		\\&x
		";

    let tokenstream = TokenStream::lex(str);

    assert_eq!(
        tokenstream.tokens(),
        tokens(vec![
            Token::Andpersand,
            Token::Ident("x".into()),
            Token::Text("&x".into()),
        ])
    );
}

#[test]
fn lexer_multi_tags() {
    let str = "
		:a[]
		:b[]
		";

    let tokenstream = TokenStream::lex(str);

    assert_eq!(
        tokenstream.tokens(),
        tokens(vec![
            Token::Colon,
            Token::Ident("a".into()),
            Token::OpenBracket,
            Token::CloseBracket,
            Token::Colon,
            Token::Ident("b".into()),
            Token::OpenBracket,
            Token::CloseBracket,
        ])
    );
}

#[test]
fn lexer_attributes() {
    let tokenstream = TokenStream::lex(":tag{x:\"1\" y:'2'}[]");

    assert_eq!(
        tokenstream.tokens(),
        tokens(vec![
            Token::Colon,
            Token::Ident("tag".into()),
            Token::OpenBrace,
            Token::Text("x".into()),
            Token::Colon,
            Token::Stringliteral(StringLiteral::new('"', "1".into())),
            Token::Text(" y".into()),
            Token::Colon,
            Token::Stringliteral(StringLiteral::new('\'', "2".into())),
            Token::CloseBrace,
            Token::OpenBracket,
            Token::CloseBracket,
        ])
    )
}

#[test]
fn lexer_strlit() {
    assert_eq!(
        TokenStream::lex("'input'").tokens(),
        tokens(vec![Token::Stringliteral(StringLiteral::new(
            '\'',
            "input".into()
        ))])
    )
}

#[test]
fn lexer_whitespace() {
    assert_eq!(
        TokenStream::lex("a\ta").tokens(),
        tokens(vec![Token::Text("a a".into())])
    );
}

#[test]
fn lexer_macros() {
    assert_eq!(
        TokenStream::lex("@person[&name := Juni; &pronouns := she/her;]").tokens(),
        tokens(vec![
            Token::At,
            Token::Ident("person".into()),
            Token::OpenBracket,
            Token::Andpersand,
            Token::Ident("name".into()),
            Token::Walrus,
            Token::Text("Juni".into()),
            Token::SemiColon,
            Token::Andpersand,
            Token::Ident("pronouns".into()),
            Token::Walrus,
            Token::Text("she/her".into()),
            Token::SemiColon,
            Token::CloseBracket,
        ])
    );
}

#[test]
fn lexer_final_boss() {
    let str = "
		&title := :title[My Webpage];
		:head[&title]
		:body[:p[\\&title]]
		";

    let tokenstream = TokenStream::lex(str);

    assert_eq!(
        tokenstream.tokens(),
        tokens(vec![
            // Line 1
            Token::Andpersand,
            Token::Ident("title".into()),
            Token::Walrus,
            Token::Colon,
            Token::Ident("title".into()),
            Token::OpenBracket,
            Token::Text("My Webpage".into()),
            Token::CloseBracket,
            Token::SemiColon,
            // Line 2
            Token::Colon,
            Token::Ident("head".into()),
            Token::OpenBracket,
            Token::Andpersand,
            Token::Ident("title".into()),
            Token::CloseBracket,
            // Line 3
            Token::Colon,
            Token::Ident("body".into()),
            Token::OpenBracket,
            Token::Colon,
            Token::Ident("p".into()),
            Token::OpenBracket,
            Token::Text("&title".into()),
            Token::CloseBracket,
            Token::CloseBracket,
        ])
    );
}
