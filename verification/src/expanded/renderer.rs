//! Renderers: an expanded tree to its output.

pub mod html;
pub mod tcat;

use crate::expanded::{ExpandedAst, ExpandedNodeView, ExpandedTag};
use crate::parser::attributes::Attributes;
use vstd::prelude::*;

verus! {

/// Renders an expanded tree into another form, most often a text.
pub trait Renderer<Out> {
    /// Whether `out` is the rendering of the tree `ast`.
    spec fn rendered(ast: Seq<ExpandedNodeView>, out: Out) -> bool;

    /// Renders a whole tree.
    fn render(ast: ExpandedAst) -> (out: Out)
        ensures
            Self::rendered(ast@, out),
    ;

    /// Renders the nodes of one level.
    fn render_ast(&mut self, ast: ExpandedAst) -> Out;

    /// Renders a tag with its contents.
    fn render_tag(&mut self, tag: ExpandedTag) -> Out;

    /// Renders literal text.
    fn render_text(&mut self, text: String) -> Out;

    /// Renders the attributes of a tag.
    fn render_attributes(&mut self, attributes: Attributes) -> Out;
}


/// The renderers of the library, as a user names one.
#[derive(Debug, Clone, Copy, PartialEq, Eq, Structural)]
pub enum RendererArg {
    /// The renderer for HTML.
    Html,
    /// The renderer for the markup itself.
    TeaCat,
}

/// The renderer with the name or alias `name`: `html` for the one, and
/// `teacat`, `tcat` or `tc` for the other.
pub open spec fn renderer_named(name: Seq<char>) -> Option<RendererArg> {
    if name == "html"@ {
        Some(RendererArg::Html)
    } else if name == "teacat"@ || name == "tcat"@ || name == "tc"@ {
        Some(RendererArg::TeaCat)
    } else {
        None
    }
}

/// What the renderer `arg` makes of the tree `ast`.
pub open spec fn rendered_by(arg: RendererArg, ast: Seq<ExpandedNodeView>) -> Seq<char> {
    match arg {
        RendererArg::Html => html::html_document(ast),
        RendererArg::TeaCat => tcat::tcat_nodes(ast),
    }
}

impl RendererArg {
    /// Every renderer.
    pub fn value_variants() -> (all: [RendererArg; 2])
        ensures
            all@ == seq![RendererArg::Html, RendererArg::TeaCat],
    {
        let all = [RendererArg::Html, RendererArg::TeaCat];
        assert(all@ =~= seq![RendererArg::Html, RendererArg::TeaCat]);
        all
    }

    /// The name of the renderer.
    pub fn name(&self) -> (name: &'static str)
        ensures
            renderer_named(name@) == Some(*self),
            name@ == (match self {
                RendererArg::Html => "html"@,
                RendererArg::TeaCat => "teacat"@,
            }),
    {
        proof {
            reveal_strlit("html");
            reveal_strlit("teacat");
            assert("html"@.len() == 4 && "teacat"@.len() == 6);
        }
        match self {
            RendererArg::Html => "html",
            RendererArg::TeaCat => "teacat",
        }
    }

    /// The other names by which a user may name the renderer.
    pub fn aliases(&self) -> (aliases: Vec<&'static str>)
        ensures
            forall|i: int|
                0 <= i < aliases@.len() ==> renderer_named((#[trigger] aliases@[i])@) == Some(
                    *self,
                ),
            aliases@.len() == (match self {
                RendererArg::Html => 0nat,
                RendererArg::TeaCat => 2nat,
            }),
    {
        proof {
            reveal_strlit("html");
            reveal_strlit("tcat");
            reveal_strlit("tc");
            assert("html"@.len() == 4 && "tcat"@.len() == 4 && "tc"@.len() == 2);
            assert("html"@[0] == 'h' && "tcat"@[0] == 't');
        }
        match self {
            RendererArg::Html => Vec::new(),
            RendererArg::TeaCat => vec!["tcat", "tc"],
        }
    }

    /// The renderer with the name or alias `name`.
    pub fn from_name(name: &str) -> (arg: Option<RendererArg>)
        ensures
            arg == renderer_named(name@),
    {
        let name = String::from_str(name);
        if name == String::from_str("html") {
            Some(RendererArg::Html)
        } else if name == String::from_str("teacat") || name == String::from_str("tcat") || name
            == String::from_str("tc") {
            Some(RendererArg::TeaCat)
        } else {
            None
        }
    }

    /// Renders a tree with the renderer.
    pub fn render(&self, ast: ExpandedAst) -> (out: String)
        ensures
            out@ == rendered_by(*self, ast@),
    {
        match self {
            RendererArg::Html => html::HtmlRenderer::render(ast),
            RendererArg::TeaCat => tcat::TeaCatRenderer::render(ast),
        }
    }
}

} // verus!
