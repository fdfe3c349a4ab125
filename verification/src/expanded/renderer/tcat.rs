//! The renderer for the markup itself.

use crate::expanded::renderer::Renderer;
use crate::expanded::{ExpandedAst, ExpandedNode, ExpandedNodeView, ExpandedTag, ExpandedTagView};
use crate::lexer::{literal_printed, StringLiteralView};
use crate::parser::attributes::Attributes;
use crate::{encode_str, encoded};
use vstd::prelude::*;

verus! {

/// Renders an expanded tree as a source text that expands to it.
pub struct TeaCatRenderer;

/// The attributes as they stand in an attribute block: behind each name a
/// colon, the literal in its quotes and a space.
pub open spec fn tcat_entries(attributes: Seq<(Seq<char>, StringLiteralView)>) -> Seq<char>
    decreases attributes.len(),
{
    if attributes.len() == 0 {
        Seq::empty()
    } else {
        tcat_entries(attributes.drop_last()) + attributes.last().0 + ":"@ + literal_printed(
            attributes.last().1,
        ) + " "@
    }
}

/// The attribute block of a tag: the attributes in braces.
pub open spec fn tcat_attributes(attributes: Seq<(Seq<char>, StringLiteralView)>) -> Seq<char> {
    "{"@ + tcat_entries(attributes) + "}"@
}

/// The nodes of one level as markup: text encoded, and each tag written
/// out.
pub open spec fn tcat_nodes(ast: Seq<ExpandedNodeView>) -> Seq<char>
    decreases ast, 1int,
{
    if ast.len() == 0 {
        Seq::empty()
    } else {
        tcat_nodes(ast.subrange(0, ast.len() - 1)) + tcat_node(ast[ast.len() - 1])
    }
}

/// A node as markup.
pub open spec fn tcat_node(node: ExpandedNodeView) -> Seq<char>
    decreases node, 0int,
{
    match node {
        ExpandedNodeView::Text(text) => encoded(text),
        ExpandedNodeView::Tag(tag) => tcat_tag(tag),
    }
}

/// A tag as markup: `:name{attributes}[contents]`.
pub open spec fn tcat_tag(tag: ExpandedTagView) -> Seq<char>
    decreases tag, 2int,
{
    ":"@ + tag.name + tcat_attributes(tag.attributes) + "["@ + tcat_nodes(tag.contents) + "]"@
}

/// `str` in braces.
pub fn surround_curly(str: String) -> (out: String)
    ensures
        out@ == "{"@ + str@ + "}"@,
{
    let mut out = String::from_str("{");
    out.append(str.as_str());
    out.append("}");
    out
}

impl Renderer<String> for TeaCatRenderer {
    open spec fn rendered(ast: Seq<ExpandedNodeView>, out: String) -> bool {
        out@ == tcat_nodes(ast)
    }

    fn render(ast: ExpandedAst) -> (out: String) {
        let mut renderer = TeaCatRenderer;
        renderer.render_ast(ast)
    }

    fn render_ast(&mut self, ast: ExpandedAst) -> (out: String)
        ensures
            out@ == tcat_nodes(ast@),
        decreases ast, 1int,
    {
        let mut rendered = String::new();
        for node in it: ast.0
            invariant
                it.seq() == ast.0@,
                rendered@ == tcat_nodes(ast@.take(it.index() as int)),
        {
            proof {
                let i = it.index() as int;
                assert(node == ast.0@[i]);
                assert(decreases_to!(ast => ast.0));
                assert(decreases_to!(ast.0 => ast.0[i]));
                assert(ast@.take(i + 1).subrange(0, i) =~= ast@.take(i));
                assert(ast@.take(i + 1)[i] == node@);
            }
            let ghost node_view = node@;
            let piece = match node {
                ExpandedNode::Tag(tag) => {
                    proof {
                        assert(decreases_to!(node => node->Tag_0));
                    }
                    self.render_tag(tag)
                },
                ExpandedNode::Text(text) => self.render_text(text),
            };
            rendered.append(piece.as_str());
            proof {
                let i = it.index() as int;
                let upto = ast@.take(i + 1);
                assert(piece@ == tcat_node(node_view));
                assert(upto.len() - 1 == i);
                assert(tcat_nodes(upto) == tcat_nodes(upto.subrange(0, upto.len() - 1)) + tcat_node(
                    upto[upto.len() - 1],
                ));
            }
        }
        assert(ast@.take(ast@.len() as int) =~= ast@);
        rendered
    }

    fn render_tag(&mut self, tag: ExpandedTag) -> (out: String)
        ensures
            out@ == tcat_tag(tag@),
        decreases tag, 2int,
    {
        let mut out = String::from_str(":");
        out.append(tag.name.as_str());
        out.append(self.render_attributes(tag.attributes).as_str());
        out.append("[");
        out.append(self.render_ast(tag.contents).as_str());
        out.append("]");
        out
    }

    fn render_text(&mut self, text: String) -> (out: String)
        ensures
            out@ == encoded(text@),
    {
        encode_str(text.as_str())
    }

    fn render_attributes(&mut self, attributes: Attributes) -> (out: String)
        ensures
            out@ == tcat_attributes(attributes@),
    {
        let mut rendered = String::new();
        let mut i: usize = 0;
        assert(attributes@.take(0) =~= Seq::empty());
        while i < attributes.len()
            invariant
                i <= attributes@.len(),
                rendered@ == tcat_entries(attributes@.take(i as int)),
            decreases attributes@.len() - i,
        {
            assert(attributes@.take(i + 1).drop_last() =~= attributes@.take(i as int));
            rendered.append(attributes.key(i).as_str());
            rendered.append(":");
            rendered.append(attributes.value(i).into_string().as_str());
            rendered.append(" ");
            i += 1;
        }
        assert(attributes@.take(i as int) =~= attributes@);
        surround_curly(rendered)
    }
}

} // verus!
