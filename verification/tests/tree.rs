use std::collections::VecDeque;

use teacat_lib::lexer::{Token, TokenStream};
use teacat_lib::parser::attributes::Attributes;
use teacat_lib::parser::{Ast, AstNode, Tag};

fn stream(list: Vec<Token>) -> TokenStream {
    VecDeque::from(list).into()
}

fn ast(list: Vec<AstNode>) -> Ast {
    VecDeque::from(list).into()
}

#[test]
fn tags() {
    let tokenstream = stream(vec![
        Token::Colon,
        Token::Ident("a".into()),
        Token::OpenBracket,
        Token::CloseBracket,
        Token::Colon,
        Token::Ident("b".into()),
        Token::OpenBracket,
        Token::CloseBracket,
    ]);

    let parsed = Ast::parse(tokenstream).unwrap();

    assert_eq!(
        parsed,
        ast(vec![
            AstNode::Tag(Tag {
                name: "a".into(),
                attributes: Attributes::new(),
                contents: Ast::empty()
            }),
            AstNode::Tag(Tag {
                name: "b".into(),
                attributes: Attributes::new(),
                contents: Ast::empty()
            }),
        ])
    );
}

#[test]
fn nested_tags() {
    let tokenstream = stream(vec![
        Token::Colon,
        Token::Ident("a".into()),
        Token::OpenBracket,
        Token::Colon,
        Token::Ident("b".into()),
        Token::OpenBracket,
        Token::CloseBracket,
        Token::CloseBracket,
        Token::Colon,
        Token::Ident("c".into()),
        Token::OpenBracket,
        Token::CloseBracket,
    ]);

    let parsed = Ast::parse(tokenstream).unwrap();

    assert_eq!(
        parsed,
        ast(vec![
            AstNode::Tag(Tag {
                name: "a".into(),
                attributes: Attributes::new(),
                contents: ast(vec![AstNode::Tag(Tag {
                    name: "b".into(),
                    attributes: Attributes::new(),
                    contents: Ast::empty()
                })])
            }),
            AstNode::Tag(Tag {
                name: "c".into(),
                attributes: Attributes::new(),
                contents: Ast::empty()
            }),
        ])
    );
}
