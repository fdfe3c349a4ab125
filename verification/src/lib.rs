//! A compiler for the TeaCat markup language: nestable tags, attribute lists,
//! lexically scoped variables and parameterised macros, rendered to one string.
//!
//! A source text goes through four stages: the lexer turns it into tokens,
//! the parser turns the tokens into a tree, the expansion replaces every
//! variable and macro by what it stands for, and a renderer turns the
//! expanded tree into its output.

pub mod error;
pub mod escaping;
pub mod expanded;
pub mod lexer;
pub mod parser;
pub mod prelude;
pub mod round_trip;
pub mod text;

use error::{CatResult, ErrorView};
use expanded::renderer::Renderer;
use expanded::scope::expanded;
use expanded::{ExpandedAst, ExpandedNodeView};
use lexer::str_walker::StrWalker;
use lexer::{lexed, TokenStream};
use parser::grammar::parsed;
use parser::Ast;
use text::{first_match, first_match_from, push_char};
use vstd::prelude::*;

verus! {

/// The expanded tree of the source text `s`, or the first error of the
/// parser or of the expansion.
pub open spec fn compiled(s: Seq<char>) -> Result<Seq<ExpandedNodeView>, ErrorView> {
    match parsed(lexed(s)) {
        Ok(ast) => expanded(ast),
        Err(e) => Err(e),
    }
}

/// Takes a source text through all four stages: the rendering of its
/// expanded tree, or the first error.
pub fn eval_teacat_string<Rend: Renderer<Out>, Out>(teacat_string: &str) -> (res: CatResult<Out>)
    ensures
        match res {
            Ok(out) => compiled(teacat_string@) matches Ok(tree) && Rend::rendered(tree, out),
            Err(e) => compiled(teacat_string@) == Err::<Seq<ExpandedNodeView>, ErrorView>(e@),
        },
{
    let tokenstream = TokenStream::lex(teacat_string);
    let ast = match Ast::parse(tokenstream) {
        Ok(ast) => ast,
        Err(e) => {
            return Err(e);
        },
    };
    let expanded = match ExpandedAst::expand(ast) {
        Ok(expanded) => expanded,
        Err(e) => {
            return Err(e);
        },
    };
    Ok(Rend::render(expanded))
}

/// The marks of the markup: where one of them stands in a text, the text
/// would not be read as it is written.
pub open spec fn marks() -> Seq<Seq<char>> {
    seq!["\\"@, "["@, "]"@, "{"@, "}"@, "macr"@, ":="@, ":"@, ";"@, "&"@, "@"@]
}

/// The first `n` characters of `s`, with a backslash before each at which a
/// mark starts.
pub open spec fn encoded_to(s: Seq<char>, n: int) -> Seq<char>
    decreases n,
{
    if n <= 0 {
        Seq::empty()
    } else if first_match(marks(), s, n - 1).is_some() {
        encoded_to(s, n - 1).push('\\').push(s[n - 1])
    } else {
        encoded_to(s, n - 1).push(s[n - 1])
    }
}

/// The text `s` with a backslash before each character at which a mark
/// starts.
pub open spec fn encoded(s: Seq<char>) -> Seq<char> {
    encoded_to(s, s.len() as int)
}

/// Whether a mark starts at the place the walk has come to.
fn at_mark(walker: &StrWalker) -> (found: bool)
    ensures
        found == first_match(marks(), walker.text(), walker.position()).is_some(),
{
    let marks: [&str; 11] = ["\\", "[", "]", "{", "}", "macr", ":=", ":", ";", "&", "@"];
    assert(Seq::new(11, |k: int| marks@[k]@) =~= self::marks());
    let mut k: usize = 0;
    while k < 11
        invariant
            k <= 11,
            Seq::new(11, |k: int| marks@[k]@) == self::marks(),
            first_match(self::marks(), walker.text(), walker.position()) == first_match_from(
                self::marks(),
                walker.text(),
                walker.position(),
                k as int,
            ),
        decreases 11 - k,
    {
        assert(self::marks()[k as int] == marks@[k as int]@);
        if walker.currently_starts_with(marks[k]) {
            return true;
        }
        k += 1;
    }
    false
}

/// Encodes a text so that it can stand in a source text and be read there as
/// literal text: puts a backslash before each character at which a mark
/// starts.
pub fn encode_str(str: &str) -> (out: String)
    ensures
        out@ == encoded(str@),
{
    let mut walker = StrWalker::new(str);
    let mut out = String::new();
    while !walker.reached_end()
        invariant
            walker.text() == str@,
            0 <= walker.position() <= str@.len(),
            out@ == encoded_to(str@, walker.position()),
        decreases str@.len() - walker.position(),
    {
        if at_mark(&walker) {
            push_char(&mut out, '\\');
        }
        match walker.next_char() {
            Some(ch) => push_char(&mut out, ch),
            None => {},
        }
    }
    out
}

} // verus!
