//! The names that most users of the library need.

pub use crate::error::{CatResult, TeaCatError};
pub use crate::expanded::renderer::html::HtmlRenderer;
pub use crate::expanded::renderer::tcat::TeaCatRenderer;
pub use crate::expanded::renderer::Renderer;
pub use crate::expanded::{ExpandedAst, ExpandedNode, ExpandedTag};
pub use crate::lexer::TokenStream;
pub use crate::parser::attributes::Attributes;
pub use crate::parser::Ast;
pub use crate::{encode_str, eval_teacat_string};
