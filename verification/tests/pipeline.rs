use teacat_lib::error::TeaCatError;
use teacat_lib::expanded::renderer::html::HtmlRenderer;
use teacat_lib::expanded::renderer::tcat::TeaCatRenderer;
use teacat_lib::expanded::renderer::{Renderer, RendererArg};
use teacat_lib::expanded::{ExpandedAst, ExpandedNode, ExpandedTag};
use teacat_lib::lexer::{StringLiteral, TokenStream};
use teacat_lib::parser::attributes::Attributes;
use teacat_lib::parser::{Ast, AstNode};
use teacat_lib::{encode_str, eval_teacat_string};

fn html(source: &str) -> String {
    eval_teacat_string::<HtmlRenderer, String>(source).unwrap()
}

fn markup(source: &str) -> String {
    eval_teacat_string::<TeaCatRenderer, String>(source).unwrap()
}

fn expand(source: &str) -> ExpandedAst {
    ExpandedAst::expand(Ast::parse(TokenStream::lex(source)).unwrap()).unwrap()
}

#[test]
fn empty_tag_renders_as_empty_element() {
    assert_eq!(html(":head[]"), "<!DOCTYPE html><html><head></head></html>");
}

#[test]
fn variable_is_replaced_by_its_contents() {
    assert_eq!(
        html("&title := :title[My Webpage]; :head[&title]"),
        "<!DOCTYPE html><html><head><title>My Webpage</title></head></html>"
    );
}

#[test]
fn whole_document() {
    let source = "
&title := :title[My Webpage];

:head[
	&title
]

:body[
	:p[Hello, World!]
]
";
    assert_eq!(
        html(source),
        "<!DOCTYPE html><html><head><title>My Webpage</title></head><body><p>Hello, World!</p></body></html>"
    );
}

#[test]
fn escaped_ampersand_is_text() {
    let expanded = expand(":p[\\&title]");
    assert_eq!(expanded.0.len(), 1);
    match &expanded.0[0] {
        ExpandedNode::Tag(tag) => {
            assert_eq!(tag.name, "p");
            assert_eq!(tag.contents.0, vec![ExpandedNode::Text("&title".to_string())]);
        }
        other => panic!("expected a tag, found {:?}", other),
    }
    assert_eq!(
        html(":p[\\&title]"),
        "<!DOCTYPE html><html><p>&amp;title</p></html>"
    );
    assert_eq!(markup(":p[\\&title]"), ":p{}[\\&title]");
}

#[test]
fn use_of_an_unbound_variable_is_an_error() {
    let res = eval_teacat_string::<HtmlRenderer, String>("&x");
    assert_eq!(res, Err(TeaCatError::UndefinedVar(0, "x".to_string())));
}

#[test]
fn attribute_is_rendered_in_its_quotes() {
    assert_eq!(
        html(":tag{key:\"v\"}[]"),
        "<!DOCTYPE html><html><tag key=\"v\"></tag></html>"
    );
    assert_eq!(
        html(":tag{key:'v'}[]"),
        "<!DOCTYPE html><html><tag key='v'></tag></html>"
    );
    assert_eq!(markup(":tag{key:\"v\"}[]"), ":tag{key:\"v\" }[]");
}

#[test]
fn siblings_and_nesting() {
    let ast = Ast::parse(TokenStream::lex(":a[ :b[] ] :c[]")).unwrap();
    assert_eq!(ast.0.len(), 2);
    match (&ast.0[0], &ast.0[1]) {
        (AstNode::Tag(a), AstNode::Tag(c)) => {
            assert_eq!(a.name, "a");
            assert_eq!(c.name, "c");
            assert_eq!(a.contents.0.len(), 1);
            assert_eq!(c.contents.0.len(), 0);
            match &a.contents.0[0] {
                AstNode::Tag(b) => {
                    assert_eq!(b.name, "b");
                    assert_eq!(b.contents.0.len(), 0);
                }
                other => panic!("expected a tag, found {:?}", other),
            }
        }
        other => panic!("expected two tags, found {:?}", other),
    }
    assert_eq!(
        html(":a[ :b[] ] :c[]"),
        "<!DOCTYPE html><html><a><b></b></a><c></c></html>"
    );
}

#[test]
fn text_is_escaped_for_html() {
    assert_eq!(
        html("a < b > c \\& d / e"),
        "<!DOCTYPE html><html>a &lt; b &gt; c &amp; d &#x2F; e</html>"
    );
}

#[test]
fn encode_puts_a_backslash_before_each_mark() {
    assert_eq!(encode_str(":head[]"), "\\:head\\[\\]");
    assert_eq!(encode_str("a\\b"), "a\\\\b");
    assert_eq!(encode_str("{x}"), "\\{x\\}");
    assert_eq!(encode_str("a;b&c@d"), "a\\;b\\&c\\@d");
    assert_eq!(encode_str("macro"), "\\macro");
    assert_eq!(encode_str("mac"), "mac");
    assert_eq!(encode_str("x := y"), "x \\:= y");
    assert_eq!(encode_str("plain text"), "plain text");
    assert_eq!(encode_str(""), "");
}

#[test]
fn encoded_text_comes_back() {
    for text in [
        "plain",
        "a b",
        " lead and trail ",
        ":head[]",
        "&x := y; @m[&a] {k:v}",
        "back\\slash",
        "macro and macr",
        "r n t \\r \\n \\t",
        "x:=y",
        "Grüße €",
    ] {
        let source = encode_str(text);
        let expanded = expand(&source);
        assert_eq!(
            expanded.0,
            vec![ExpandedNode::Text(text.to_string())],
            "for {:?}",
            text
        );
        assert_eq!(markup(&source), source);
    }
    assert_eq!(expand(&encode_str("")).0, vec![]);
    assert_eq!(expand(&encode_str("  ")).0, vec![]);
}

#[test]
fn encoded_text_with_runs_of_white_space_comes_back_tidied() {
    assert_eq!(
        expand(&encode_str("a  \n b")).0,
        vec![ExpandedNode::Text("a b".to_string())]
    );
    assert_eq!(
        expand(&encode_str("\ta:b\t")).0,
        vec![ExpandedNode::Text("a:b".to_string())]
    );
}

#[test]
fn rendered_markup_expands_to_the_same_tree() {
    for source in [
        ":a[]",
        ":a[text]",
        ":a[:b[x]y:c[]]",
        ":a{k:\"v\"}[\\&x]",
        "one:two[three]four",
        ":a{x:'1' y:\"2\" z:'three words'}[]",
        ":p[It is 'quoted' text]",
        "'a''b' \"c 'd'\"",
        ":p{k:'[:;&@]'}['\\[:;&@\\]']",
    ] {
        let first = expand(source);
        let again = expand(&markup(source));
        assert_eq!(first, again, "for {:?}", source);
    }
}

#[test]
fn markup_of_some_trees_is_read_as_their_normal_form() {
    // The names of attributes come back with the space that sets them apart.
    let first = expand(":a{x:'1'y:'2'}[]");
    assert_eq!(markup(":a{x:'1'y:'2'}[]"), ":a{x:'1' y:'2' }[]");
    let again = expand(&markup(":a{x:'1'y:'2'}[]"));
    assert_ne!(again, first);
    let mut attributes = Attributes::new();
    attributes.insert("x".to_string(), StringLiteral::new('\'', "1".to_string()));
    attributes.insert(" y".to_string(), StringLiteral::new('\'', "2".to_string()));
    assert_eq!(
        again.0,
        vec![ExpandedNode::Tag(ExpandedTag {
            name: "a".to_string(),
            attributes,
            contents: ExpandedAst(vec![]),
        })]
    );
    assert_eq!(expand(&TeaCatRenderer::render(again.clone())), again);
    // Two texts, one after the other, come back as one.
    let first = expand("a\\] b");
    assert_eq!(first.0.len(), 1);
    let two = ExpandedAst(vec![
        ExpandedNode::Text("a".to_string()),
        ExpandedNode::Text("b".to_string()),
    ]);
    assert_eq!(
        expand(&TeaCatRenderer::render(two)).0,
        vec![ExpandedNode::Text("ab".to_string())]
    );
    // Unless the keyword is made of the end of the one and the start of the
    // other.
    let two = ExpandedAst(vec![
        ExpandedNode::Text("ma".to_string()),
        ExpandedNode::Text("cr".to_string()),
    ]);
    assert_eq!(TeaCatRenderer::render(two), "macr");
    assert!(Ast::parse(TokenStream::lex("macr")).is_err());
    // A quote without its partner.
    let one = ExpandedAst(vec![ExpandedNode::Text("it's".to_string())]);
    assert_eq!(
        expand(&TeaCatRenderer::render(one)).0,
        vec![
            ExpandedNode::Text("it".to_string()),
            ExpandedNode::Text("'s'".to_string()),
        ]
    );
}

#[test]
fn encoded_text_with_pairs_of_quotes_comes_back_in_parts() {
    for (text, parts) in [
        ("a\"b\"c", vec!["a", "\"b\"", "c"]),
        ("say 'hi' and \"bye\"", vec!["say ", "'hi'", " and ", "\"bye\""]),
        ("'a''b'", vec!["'a'", "'b'"]),
        ("[x] 'y:z' &w", vec!["[x] ", "'y:z'", " &w"]),
    ] {
        let expanded = expand(&encode_str(text));
        let expected: Vec<ExpandedNode> = parts
            .iter()
            .map(|part| ExpandedNode::Text(part.to_string()))
            .collect();
        assert_eq!(expanded.0, expected, "for {:?}", text);
        assert_eq!(parts.concat(), text);
    }
}

#[test]
fn encoded_literal_comes_back() {
    for text in ["'b'", "\"two words\"", "'a:b [c] \\ d'", "'it \"is\" so'"] {
        let expanded = expand(&encode_str(text));
        assert_eq!(
            expanded.0,
            vec![ExpandedNode::Text(text.to_string())],
            "for {:?}",
            text
        );
    }
}

#[test]
fn renderers_by_name() {
    assert_eq!(RendererArg::from_name("html"), Some(RendererArg::Html));
    assert_eq!(RendererArg::from_name("teacat"), Some(RendererArg::TeaCat));
    assert_eq!(RendererArg::from_name("tcat"), Some(RendererArg::TeaCat));
    assert_eq!(RendererArg::from_name("tc"), Some(RendererArg::TeaCat));
    assert_eq!(RendererArg::from_name("HTML"), None);
    assert_eq!(RendererArg::from_name(""), None);
    assert_eq!(
        RendererArg::value_variants(),
        [RendererArg::Html, RendererArg::TeaCat]
    );
    for arg in RendererArg::value_variants() {
        assert_eq!(RendererArg::from_name(arg.name()), Some(arg));
        for alias in arg.aliases() {
            assert_eq!(RendererArg::from_name(alias), Some(arg));
        }
    }
    assert_eq!(RendererArg::Html.aliases(), Vec::<&str>::new());
    assert_eq!(RendererArg::TeaCat.aliases(), vec!["tcat", "tc"]);
    assert_eq!(
        RendererArg::Html.render(expand(":p[x]")),
        HtmlRenderer::render(expand(":p[x]"))
    );
    assert_eq!(RendererArg::TeaCat.render(expand(":p[x]")), ":p{}[x]");
}

#[test]
fn renderers_render_each_part() {
    let mut attributes = Attributes::new();
    attributes.insert("a".to_string(), StringLiteral::new('"', "1".to_string()));
    attributes.insert("b".to_string(), StringLiteral::new('\'', "2".to_string()));
    let tag = ExpandedTag {
        name: "t".to_string(),
        attributes: attributes.clone(),
        contents: ExpandedAst(vec![ExpandedNode::Text("<&>\"'/ é".to_string())]),
    };

    let mut html = HtmlRenderer;
    assert_eq!(html.render_attributes(attributes.clone()), " a=\"1\" b='2'");
    assert_eq!(html.render_attributes(Attributes::new()), "");
    assert_eq!(
        html.render_text("<&>\"'/ é".to_string()),
        "&lt;&amp;&gt;&quot;&#x27;&#x2F; é"
    );
    assert_eq!(html.render_text(String::new()), "");
    assert_eq!(
        html.render_tag(tag.clone()),
        "<t a=\"1\" b='2'>&lt;&amp;&gt;&quot;&#x27;&#x2F; é</t>"
    );
    assert_eq!(html.render_ast(ExpandedAst(vec![])), "");
    assert_eq!(
        HtmlRenderer::render(ExpandedAst(vec![])),
        "<!DOCTYPE html><html></html>"
    );

    let mut markup = TeaCatRenderer;
    assert_eq!(markup.render_attributes(attributes), "{a:\"1\" b:'2' }");
    assert_eq!(markup.render_attributes(Attributes::new()), "{}");
    assert_eq!(markup.render_text("a:b".to_string()), "a\\:b");
    assert_eq!(
        markup.render_tag(tag),
        ":t{a:\"1\" b:'2' }[<\\&>\"'/ é]"
    );
    assert_eq!(markup.render_ast(ExpandedAst(vec![])), "");
    assert_eq!(TeaCatRenderer::render(ExpandedAst(vec![])), "");
}
