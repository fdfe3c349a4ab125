//! The renderer for HTML.

use crate::expanded::renderer::Renderer;
use crate::expanded::{ExpandedAst, ExpandedNode, ExpandedNodeView, ExpandedTag, ExpandedTagView};
use crate::lexer::{literal_printed, StringLiteralView};
use crate::parser::attributes::Attributes;
use vstd::prelude::*;

verus! {

/// Renders an expanded tree as an HTML document.
pub struct HtmlRenderer;

/// What stands for the character `c` in HTML text: an entity for each of
/// `&`, `<`, `>`, `"`, `'` and `/`, and the character itself for any other.
pub open spec fn html_entity(c: char) -> Seq<char> {
    if c == '&' {
        "&amp;"@
    } else if c == '<' {
        "&lt;"@
    } else if c == '>' {
        "&gt;"@
    } else if c == '"' {
        "&quot;"@
    } else if c == '\'' {
        "&#x27;"@
    } else if c == '/' {
        "&#x2F;"@
    } else {
        seq![c]
    }
}

/// The text `s` with each character replaced by what stands for it in HTML
/// text.
pub open spec fn html_escaped(s: Seq<char>) -> Seq<char>
    decreases s.len(),
{
    if s.len() == 0 {
        Seq::empty()
    } else {
        html_escaped(s.drop_last()) + html_entity(s.last())
    }
}

/// `html_escape::encode_safe`: replaces each of `&`, `<`, `>`, `"`, `'` and
/// `/` by its entity (`&amp;`, `&lt;`, `&gt;`, `&quot;`, `&#x27;`, `&#x2F;`)
/// and leaves every other character as it is.
#[verifier::external_body]
fn encode_safe(text: &str) -> (escaped: String)
    ensures
        escaped@ == html_escaped(text@),
{
    html_escape::encode_safe(text).into_owned()
}

/// The attributes as they stand in an opening tag: before each a space, then
/// the name, `=` and the literal in its quotes.
pub open spec fn html_attributes(attributes: Seq<(Seq<char>, StringLiteralView)>) -> Seq<char>
    decreases attributes.len(),
{
    if attributes.len() == 0 {
        Seq::empty()
    } else {
        html_attributes(attributes.drop_last()) + " "@ + attributes.last().0 + "="@
            + literal_printed(attributes.last().1)
    }
}

/// The nodes of one level as HTML: text escaped, and each tag as an element.
pub open spec fn html_nodes(ast: Seq<ExpandedNodeView>) -> Seq<char>
    decreases ast, 1int,
{
    if ast.len() == 0 {
        Seq::empty()
    } else {
        html_nodes(ast.subrange(0, ast.len() - 1)) + html_node(ast[ast.len() - 1])
    }
}

/// A node as HTML.
pub open spec fn html_node(node: ExpandedNodeView) -> Seq<char>
    decreases node, 0int,
{
    match node {
        ExpandedNodeView::Text(text) => html_escaped(text),
        ExpandedNodeView::Tag(tag) => html_tag(tag),
    }
}

/// A tag as an HTML element: `<name attributes>contents</name>`.
pub open spec fn html_tag(tag: ExpandedTagView) -> Seq<char>
    decreases tag, 2int,
{
    "<"@ + tag.name + html_attributes(tag.attributes) + ">"@ + html_nodes(tag.contents) + "</"@
        + tag.name + ">"@
}

/// A tree as an HTML document.
pub open spec fn html_document(ast: Seq<ExpandedNodeView>) -> Seq<char> {
    "<!DOCTYPE html><html>"@ + html_nodes(ast) + "</html>"@
}

impl Renderer<String> for HtmlRenderer {
    open spec fn rendered(ast: Seq<ExpandedNodeView>, out: String) -> bool {
        out@ == html_document(ast)
    }

    fn render(ast: ExpandedAst) -> (out: String) {
        let mut renderer = HtmlRenderer;
        let mut out = String::from_str("<!DOCTYPE html><html>");
        out.append(renderer.render_ast(ast).as_str());
        out.append("</html>");
        out
    }

    fn render_ast(&mut self, ast: ExpandedAst) -> (out: String)
        ensures
            out@ == html_nodes(ast@),
        decreases ast, 1int,
    {
        let mut rendered = String::new();
        for node in it: ast.0
            invariant
                it.seq() == ast.0@,
                rendered@ == html_nodes(ast@.take(it.index() as int)),
        {
            proof {
                let i = it.index() as int;
                assert(node == ast.0@[i]);
                assert(decreases_to!(ast => ast.0));
                assert(decreases_to!(ast.0 => ast.0[i]));
                assert(ast@.take(i + 1).subrange(0, i) =~= ast@.take(i));
                assert(ast@.take(i + 1)[i] == node@);
            }
            let ghost node_view = node@;
            let piece = match node {
                ExpandedNode::Tag(tag) => {
                    proof {
                        assert(decreases_to!(node => node->Tag_0));
                    }
                    self.render_tag(tag)
                },
                ExpandedNode::Text(text) => self.render_text(text),
            };
            rendered.append(piece.as_str());
            proof {
                let i = it.index() as int;
                let upto = ast@.take(i + 1);
                assert(piece@ == html_node(node_view));
                assert(upto.len() - 1 == i);
                assert(html_nodes(upto) == html_nodes(upto.subrange(0, upto.len() - 1)) + html_node(
                    upto[upto.len() - 1],
                ));
            }
        }
        assert(ast@.take(ast@.len() as int) =~= ast@);
        rendered
    }

    fn render_tag(&mut self, tag: ExpandedTag) -> (out: String)
        ensures
            out@ == html_tag(tag@),
        decreases tag, 2int,
    {
        let mut out = String::from_str("<");
        out.append(tag.name.as_str());
        out.append(self.render_attributes(tag.attributes).as_str());
        out.append(">");
        out.append(self.render_ast(tag.contents).as_str());
        out.append("</");
        out.append(tag.name.as_str());
        out.append(">");
        out
    }

    fn render_text(&mut self, text: String) -> (out: String)
        ensures
            out@ == html_escaped(text@),
    {
        encode_safe(text.as_str())
    }

    fn render_attributes(&mut self, attributes: Attributes) -> (out: String)
        ensures
            out@ == html_attributes(attributes@),
    {
        let mut rendered = String::new();
        let mut i: usize = 0;
        assert(attributes@.take(0) =~= Seq::empty());
        while i < attributes.len()
            invariant
                i <= attributes@.len(),
                rendered@ == html_attributes(attributes@.take(i as int)),
            decreases attributes@.len() - i,
        {
            assert(attributes@.take(i + 1).drop_last() =~= attributes@.take(i as int));
            rendered.append(" ");
            rendered.append(attributes.key(i).as_str());
            rendered.append("=");
            rendered.append(attributes.value(i).into_string().as_str());
            i += 1;
        }
        assert(attributes@.take(i as int) =~= attributes@);
        rendered
    }
}

} // verus!
