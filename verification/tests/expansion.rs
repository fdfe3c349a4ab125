use std::collections::VecDeque;

use teacat_lib::error::TeaCatError;
use teacat_lib::expanded::environment::Environment;
use teacat_lib::expanded::renderer::html::HtmlRenderer;
use teacat_lib::expanded::renderer::Renderer;
use teacat_lib::expanded::scope::MACRO_DEPTH;
use teacat_lib::expanded::{ExpandedAst, ExpandedNode, ExpandedTag};
use teacat_lib::lexer::TokenStream;
use teacat_lib::parser::attributes::Attributes;
use teacat_lib::parser::{Ast, AstNode, Macr, Tag, Var};

fn parse(source: &str) -> Ast {
    Ast::parse(TokenStream::lex(source)).unwrap()
}

fn expand(source: &str) -> Result<ExpandedAst, TeaCatError> {
    ExpandedAst::expand(parse(source))
}

fn text(str: &str) -> ExpandedNode {
    ExpandedNode::Text(str.to_string())
}

fn tag(name: &str, contents: Vec<ExpandedNode>) -> ExpandedNode {
    ExpandedNode::Tag(ExpandedTag {
        name: name.to_string(),
        attributes: Attributes::new(),
        contents: ExpandedAst(contents),
    })
}

#[test]
fn tree_without_definitions_expands_to_itself() {
    let ast = Ast(VecDeque::from(vec![
        AstNode::text("a"),
        AstNode::Tag(Tag {
            name: "t".to_string(),
            attributes: Attributes::new(),
            contents: Ast(VecDeque::from(vec![AstNode::text("b")])),
        }),
    ]));
    let expanded = ExpandedAst::expand(ast).unwrap();
    assert_eq!(expanded.0, vec![text("a"), tag("t", vec![text("b")])]);
}

#[test]
fn use_before_definition_fails() {
    assert_eq!(
        expand("&x &x := X;"),
        Err(TeaCatError::UndefinedVar(0, "x".to_string()))
    );
    assert_eq!(
        expand("a\nb &late\n&late := X;"),
        Err(TeaCatError::UndefinedVar(2, "late".to_string()))
    );
}

#[test]
fn use_after_definition_succeeds() {
    assert_eq!(expand("&x := X; &x").unwrap().0, vec![text("X")]);
    assert_eq!(
        expand("&x := X; :t[ &x ]").unwrap().0,
        vec![tag("t", vec![text("X")])]
    );
    assert_eq!(
        expand("&x := X; :t[ :u[ &x ] ]").unwrap().0,
        vec![tag("t", vec![tag("u", vec![text("X")])])]
    );
}

#[test]
fn definition_inside_a_tag_ends_with_the_tag() {
    assert_eq!(
        expand(":t[ &x := X; &x ] &x"),
        Err(TeaCatError::UndefinedVar(0, "x".to_string()))
    );
    assert_eq!(
        expand(":t[ &x := X; &x ]").unwrap().0,
        vec![tag("t", vec![text("X")])]
    );
}

#[test]
fn use_inside_tags_sees_what_is_in_reach_at_the_tags() {
    assert_eq!(
        expand(":a[ :b[ &x ] ] &x := X;"),
        Err(TeaCatError::UndefinedVar(0, "x".to_string()))
    );
    assert_eq!(
        expand(":a[ :b[ &x ] &x := X; ]"),
        Err(TeaCatError::UndefinedVar(0, "x".to_string()))
    );
    assert_eq!(
        expand(":a[ &x := X; :b[ :c[ &x ] ] ]").unwrap().0,
        vec![tag("a", vec![tag("b", vec![tag("c", vec![text("X")])])])]
    );
    assert_eq!(
        expand("&x := X; :a[ &y := Y; :b[ &x &y ] ]").unwrap().0,
        vec![tag("a", vec![tag("b", vec![text("X"), text("Y")])])]
    );
}

#[test]
fn definition_does_not_see_itself() {
    assert_eq!(
        expand("&x := &x; ;"),
        Err(TeaCatError::UndefinedVar(0, "x".to_string()))
    );
}

#[test]
fn later_definition_takes_the_place_of_an_earlier_one() {
    assert_eq!(
        expand("&x := one; &x &x := two; &x").unwrap().0,
        vec![text("one"), text("two")]
    );
    assert_eq!(
        expand("&x := one; &x := &x and more; &x").unwrap().0,
        vec![text("one"), text(" and more")]
    );
}

#[test]
fn each_use_is_a_copy() {
    let mut expanded = expand("&x := :t[X]; &x &x").unwrap();
    assert_eq!(
        expanded.0,
        vec![tag("t", vec![text("X")]), tag("t", vec![text("X")])]
    );
    match &mut expanded.0[0] {
        ExpandedNode::Tag(first) => {
            first.name.push('!');
            first.contents.0.clear();
        }
        other => panic!("expected a tag, found {:?}", other),
    }
    assert_eq!(expanded.0[0], tag("t!", vec![]));
    assert_eq!(expanded.0[1], tag("t", vec![text("X")]));
}

#[test]
fn macro_is_expanded_with_its_arguments() {
    assert_eq!(
        expand("macr @greet{&name}[Hello, &name] @greet[&name := World;]")
            .unwrap()
            .0,
        vec![text("Hello, "), text("World")]
    );
    assert_eq!(
        expand("macr @wrap{&x}[:b[&x]] @wrap[&x := :i[deep];]")
            .unwrap()
            .0,
        vec![tag("b", vec![tag("i", vec![text("deep")])])]
    );
}

#[test]
fn macro_body_does_not_see_the_variables_of_the_invocation() {
    assert_eq!(
        expand("&outer := O; macr @m{}[&outer] @m[]"),
        Err(TeaCatError::UndefinedVar(0, "outer".to_string()))
    );
}

#[test]
fn arguments_see_the_variables_of_the_invocation() {
    assert_eq!(
        expand("&outer := O; macr @m{&a}[&a] @m[&a := &outer;]")
            .unwrap()
            .0,
        vec![text("O")]
    );
}

#[test]
fn invocation_of_an_unbound_macro_is_an_error() {
    assert_eq!(
        expand("@m[]"),
        Err(TeaCatError::UndefinedMacr(0, "m".to_string()))
    );
    assert_eq!(
        expand("@m[] macr @m{}[x]"),
        Err(TeaCatError::UndefinedMacr(0, "m".to_string()))
    );
}

#[test]
fn macro_is_looked_up_before_its_arguments_are_expanded() {
    assert_eq!(
        expand("@m[&a := &z;]"),
        Err(TeaCatError::UndefinedMacr(0, "m".to_string()))
    );
    assert_eq!(
        expand("macr @m{&a}[x] @m[&a := &z;]"),
        Err(TeaCatError::UndefinedVar(0, "z".to_string()))
    );
}

#[test]
fn macro_that_invokes_itself_is_an_error() {
    assert_eq!(
        expand("macr @m{}[@m[]] @m[]"),
        Err(TeaCatError::RecursionLimit(0, "m".to_string()))
    );
}

#[test]
fn macros_nest_up_to_the_limit() {
    let body = Ast(VecDeque::from(vec![AstNode::AccessMacr(
        7,
        vec![],
        "m".to_string(),
    )]));
    let mut env = Environment::new();
    env.define_macr("m".to_string(), Ast::empty());
    let inner = ExpandedAst::expand_inner(body.clone(), &env, 1).unwrap();
    assert_eq!(inner.0, vec![]);
    assert_eq!(
        ExpandedAst::expand_inner(body, &env, 0),
        Err(TeaCatError::RecursionLimit(7, "m".to_string()))
    );
    assert_eq!(MACRO_DEPTH, 64);
}

#[test]
fn environment_binds_and_finds() {
    let mut env = Environment::new();
    assert!(env.var(&"x".to_string()).is_none());
    assert!(env.macr(&"m".to_string()).is_none());
    env.define_var("x".to_string(), ExpandedAst(vec![text("one")]));
    env.define_var("y".to_string(), ExpandedAst(vec![text("why")]));
    env.define_var("x".to_string(), ExpandedAst(vec![text("two")]));
    env.define_macr("m".to_string(), Ast(VecDeque::from(vec![AstNode::text("body")])));
    assert_eq!(env.var(&"x".to_string()).unwrap().0, vec![text("two")]);
    assert_eq!(env.var(&"y".to_string()).unwrap().0, vec![text("why")]);
    assert_eq!(
        env.macr(&"m".to_string()).unwrap().0,
        VecDeque::from(vec![AstNode::text("body")])
    );
    let copy = env.clone();
    assert_eq!(copy.var(&"x".to_string()).unwrap().0, vec![text("two")]);
    let inner = env.without_vars();
    assert!(inner.var(&"x".to_string()).is_none());
    assert!(inner.macr(&"m".to_string()).is_some());
}

#[test]
fn from_tag_expands_the_contents() {
    let mut env = Environment::new();
    env.define_var("x".to_string(), ExpandedAst(vec![text("X")]));
    let mut attributes = Attributes::new();
    attributes.insert("k".to_string(), "v".into());
    let tag = Tag {
        name: "t".to_string(),
        attributes: attributes.clone(),
        contents: Ast(VecDeque::from(vec![AstNode::AccessVar(3, "x".to_string())])),
    };
    let expanded = ExpandedTag::from_tag(tag, &env, 1).unwrap();
    assert_eq!(expanded.name, "t");
    assert_eq!(expanded.attributes, attributes);
    assert_eq!(expanded.contents.0, vec![text("X")]);
}

#[test]
fn definitions_give_no_nodes() {
    let ast = Ast(VecDeque::from(vec![
        AstNode::Var(Var {
            name: "x".to_string(),
            contents: Ast::empty(),
        }),
        AstNode::Macr(Macr {
            name: "m".to_string(),
            args: vec!["a".to_string()],
            contents: Ast::empty(),
        }),
    ]));
    assert_eq!(ExpandedAst::expand(ast).unwrap().0, vec![]);
}

#[test]
fn html_of_nested_tags_and_attributes() {
    let out = HtmlRenderer::render(expand(":a{x:'1'}[:b[one]two]").unwrap());
    assert_eq!(
        out,
        "<!DOCTYPE html><html><a x='1'><b>one</b>two</a></html>"
    );
}
