//! What the expansion gives, as a function of the tree and of what is bound
//! where it stands.

use crate::error::ErrorView;
use crate::expanded::{ExpandedNodeView, ExpandedTagView};
use crate::parser::{AstNodeView, VarView};
use vstd::prelude::*;

verus! {

/// How many invocations of macros the expansion follows, one inside the
/// body of the other.
pub const MACRO_DEPTH: usize = 64;

/// The variables in reach: what each name stands for.
pub type Variables = Map<Seq<char>, Seq<ExpandedNodeView>>;

/// The macros in reach: the body of each name.
pub type Macros = Map<Seq<char>, Seq<AstNodeView>>;

/// `first`, then what `rest` gives; the error of `rest` where it fails.
pub open spec fn followed_by(
    first: Seq<ExpandedNodeView>,
    rest: Result<Seq<ExpandedNodeView>, ErrorView>,
) -> Result<Seq<ExpandedNodeView>, ErrorView> {
    match rest {
        Ok(nodes) => Ok(first + nodes),
        Err(e) => Err(e),
    }
}

/// The expansion of the nodes `ast` of one level, where `vars` and `macrs`
/// are in reach and `depth` more levels of macros may be entered.
///
/// The nodes are taken in order, and the first error ends the expansion.
/// - Text stays as it is.
/// - A tag keeps its name and attributes; its contents are expanded with
///   what is in reach at the tag.
/// - The definition of a variable gives nothing. Its contents are expanded
///   with what is in reach at the definition, and the name stands for the
///   result in the nodes that follow at this level.
/// - The use of a variable gives what the name stands for.
/// - The definition of a macro gives nothing; the name stands for the body in
///   the nodes that follow at this level.
/// - The invocation of a macro looks the macro up first, and fails where it
///   is not in reach. Then it expands the arguments with what is in reach at
///   the invocation, and gives the expansion of the body, with the arguments
///   as the only variables in reach and with the macros in reach at the
///   invocation.
pub open spec fn expand_scope(ast: Seq<AstNodeView>, vars: Variables, macrs: Macros, depth: nat) -> Result<
    Seq<ExpandedNodeView>,
    ErrorView,
>
    decreases depth, ast, 0int,
{
    if ast.len() == 0 {
        Ok(Seq::empty())
    } else {
        let rest = ast.subrange(1, ast.len() as int);
        match ast[0] {
            AstNodeView::Text(text) => followed_by(
                seq![ExpandedNodeView::Text(text)],
                expand_scope(rest, vars, macrs, depth),
            ),
            AstNodeView::Tag(tag) => match expand_scope(tag.contents, vars, macrs, depth) {
                Ok(contents) => followed_by(
                    seq![
                        ExpandedNodeView::Tag(
                            ExpandedTagView { name: tag.name, attributes: tag.attributes, contents },
                        ),
                    ],
                    expand_scope(rest, vars, macrs, depth),
                ),
                Err(e) => Err(e),
            },
            AstNodeView::Var(var) => match expand_scope(var.contents, vars, macrs, depth) {
                Ok(contents) => expand_scope(rest, vars.insert(var.name, contents), macrs, depth),
                Err(e) => Err(e),
            },
            AstNodeView::AccessVar(line, name) => if vars.contains_key(name) {
                followed_by(vars[name], expand_scope(rest, vars, macrs, depth))
            } else {
                Err(ErrorView::UndefinedVar(line, name))
            },
            AstNodeView::Macr(macr) => expand_scope(
                rest,
                vars,
                macrs.insert(macr.name, macr.contents),
                depth,
            ),
            AstNodeView::AccessMacr(line, args, name) => if !macrs.contains_key(name) {
                Err(ErrorView::UndefinedMacr(line, name))
            } else {
                match bound_args(args, vars, macrs, Map::empty(), depth) {
                    Ok(bound) => if depth == 0 {
                        Err(ErrorView::RecursionLimit(line, name))
                    } else {
                        match expand_scope(macrs[name], bound, macrs, (depth - 1) as nat) {
                            Ok(body) => followed_by(body, expand_scope(rest, vars, macrs, depth)),
                            Err(e) => Err(e),
                        }
                    },
                    Err(e) => Err(e),
                }
            },
        }
    }
}

/// The variables that an invocation binds: `bound`, and each of `args`,
/// expanded with what is in reach at the invocation.
pub open spec fn bound_args(
    args: Seq<VarView>,
    vars: Variables,
    macrs: Macros,
    bound: Variables,
    depth: nat,
) -> Result<Variables, ErrorView>
    decreases depth, args, 0int,
{
    if args.len() == 0 {
        Ok(bound)
    } else {
        match expand_scope(args[0].contents, vars, macrs, depth) {
            Ok(contents) => bound_args(
                args.subrange(1, args.len() as int),
                vars,
                macrs,
                bound.insert(args[0].name, contents),
                depth,
            ),
            Err(e) => Err(e),
        }
    }
}

/// The expansion of a whole tree: nothing is in reach at its start.
pub open spec fn expanded(ast: Seq<AstNodeView>) -> Result<Seq<ExpandedNodeView>, ErrorView> {
    expand_scope(ast, Map::empty(), Map::empty(), MACRO_DEPTH as nat)
}

} // verus!
