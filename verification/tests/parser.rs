use std::collections::VecDeque;

use teacat_lib::lexer::{StringLiteral, Token, TokenStream};
use teacat_lib::parser::attributes::Attributes;
use teacat_lib::parser::{Ast, AstNode, Tag, Var};

fn stream(list: Vec<Token>) -> TokenStream {
    VecDeque::from(list).into()
}

fn ast(list: Vec<AstNode>) -> Ast {
    VecDeque::from(list).into()
}

#[test]
fn parser_variables() {
    let tokenstream = stream(vec![
        Token::Andpersand,
        Token::Ident("x".into()),
        Token::Walrus,
        Token::Text(" X".into()),
        Token::SemiColon,
        Token::Andpersand,
        Token::Ident("x".into()),
    ]);

    let parsed = Ast::parse(tokenstream).unwrap();

    assert_eq!(
        parsed,
        ast(vec![
            AstNode::Var(Var {
                name: "x".into(),
                contents: ast(vec![AstNode::Text(" X".into())])
            }),
            AstNode::AccessVar(0, "x".into()),
        ])
    );
}

#[test]
fn parser_tags() {
    let tokenstream = stream(vec![
        Token::Colon,
        Token::Ident("a".into()),
        Token::OpenBracket,
        Token::CloseBracket,
        Token::Colon,
        Token::Ident("b".into()),
        Token::OpenBracket,
        Token::CloseBracket,
    ]);

    let parsed = Ast::parse(tokenstream).unwrap();

    assert_eq!(
        parsed,
        ast(vec![
            AstNode::Tag(Tag {
                name: "a".into(),
                attributes: Attributes::new(),
                contents: Ast::empty()
            }),
            AstNode::Tag(Tag {
                name: "b".into(),
                attributes: Attributes::new(),
                contents: Ast::empty()
            }),
        ])
    );
}

#[test]
fn parser_nested_tags() {
    let tokenstream = stream(vec![
        Token::Colon,
        Token::Ident("a".into()),
        Token::OpenBracket,
        Token::Colon,
        Token::Ident("b".into()),
        Token::OpenBracket,
        Token::CloseBracket,
        Token::CloseBracket,
        Token::Colon,
        Token::Ident("c".into()),
        Token::OpenBracket,
        Token::CloseBracket,
    ]);

    let parsed = Ast::parse(tokenstream).unwrap();

    assert_eq!(
        parsed,
        ast(vec![
            AstNode::Tag(Tag {
                name: "a".into(),
                attributes: Attributes::new(),
                contents: ast(vec![AstNode::Tag(Tag {
                    name: "b".into(),
                    attributes: Attributes::new(),
                    contents: Ast::empty()
                })])
            }),
            AstNode::Tag(Tag {
                name: "c".into(),
                attributes: Attributes::new(),
                contents: Ast::empty()
            }),
        ])
    );
}

#[test]
fn parser_attributes() {
    let parsed = Ast::parse(TokenStream::lex(":tag{x:\"1\"y:\"2\"}[]")).unwrap();

    let mut attributes = Attributes::new();
    attributes.insert("x".to_string(), StringLiteral::from("1"));
    attributes.insert("y".to_string(), StringLiteral::from("2"));

    assert_eq!(
        parsed,
        ast(vec![AstNode::Tag(Tag {
            name: "tag".into(),
            attributes,
            contents: Ast::empty(),
        })])
    )
}

#[test]
fn parser_final_boss() {
    let str = "
		&title := :title[My Webpage];
		:head[&title]
		:body[:p[\\&title]]
		";

    let parsed = Ast::parse(TokenStream::lex(str)).unwrap();

    assert_eq!(
        parsed,
        ast(vec![
            AstNode::Var(Var {
                name: "title".into(),
                contents: ast(vec![AstNode::Tag(Tag {
                    name: "title".into(),
                    attributes: Attributes::new(),
                    contents: ast(vec![AstNode::text("My Webpage")])
                })])
            }),
            AstNode::Tag(Tag {
                name: "head".into(),
                attributes: Attributes::new(),
                contents: ast(vec![AstNode::AccessVar(2, "title".into())])
            }),
            AstNode::Tag(Tag {
                name: "body".into(),
                attributes: Attributes::new(),
                contents: ast(vec![AstNode::Tag(Tag {
                    name: "p".into(),
                    attributes: Attributes::new(),
                    contents: ast(vec![AstNode::text("&title")])
                })])
            })
        ])
    );
}
