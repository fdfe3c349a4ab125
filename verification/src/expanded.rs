//! The expansion: a tree with variables and macros to a tree without them.

pub mod environment;
pub mod renderer;
pub mod scope;
pub mod scoping;

use crate::error::{CatResult, ErrorView, TeaCatError};
use crate::lexer::StringLiteralView;
use crate::parser::attributes::Attributes;
use crate::parser::{vars_seq, vars_view, Ast, AstNode, Tag};
use environment::Environment;
use scope::{bound_args, expand_scope, expanded, MACRO_DEPTH};
use vstd::prelude::*;
use vstd::std_specs::vecdeque::VecDequeAdditionalSpecFns;

verus! {

/// A tree in which every variable and macro has been replaced by what it
/// stands for: text and tags only.
#[derive(Debug, PartialEq, Eq)]
pub struct ExpandedAst(pub Vec<ExpandedNode>);

/// A single node of an [`ExpandedAst`].
#[derive(Debug, PartialEq, Eq)]
pub enum ExpandedNode {
    Text(String),
    Tag(ExpandedTag),
}

/// A tag whose contents are expanded.
#[derive(Debug, PartialEq, Eq)]
pub struct ExpandedTag {
    pub name: String,
    pub attributes: Attributes,
    pub contents: ExpandedAst,
}

/// What an [`ExpandedNode`] holds.
pub enum ExpandedNodeView {
    Text(Seq<char>),
    Tag(ExpandedTagView),
}

/// What an [`ExpandedTag`] holds.
pub struct ExpandedTagView {
    pub name: Seq<char>,
    pub attributes: Seq<(Seq<char>, StringLiteralView)>,
    pub contents: Seq<ExpandedNodeView>,
}

impl View for ExpandedAst {
    type V = Seq<ExpandedNodeView>;

    open spec fn view(&self) -> Seq<ExpandedNodeView>
        decreases self,
    {
        Seq::new(
            self.0@.len(),
            |i: int|
                if 0 <= i < self.0@.len() {
                    proof {
                        assert(decreases_to!(self.0 => self.0[i]));
                    }
                    self.0[i]@
                } else {
                    arbitrary()
                },
        )
    }
}

impl View for ExpandedTag {
    type V = ExpandedTagView;

    open spec fn view(&self) -> ExpandedTagView
        decreases self,
    {
        ExpandedTagView { name: self.name@, attributes: self.attributes@, contents: self.contents@ }
    }
}

impl View for ExpandedNode {
    type V = ExpandedNodeView;

    open spec fn view(&self) -> ExpandedNodeView
        decreases self,
    {
        match self {
            ExpandedNode::Text(text) => ExpandedNodeView::Text(text@),
            ExpandedNode::Tag(tag) => ExpandedNodeView::Tag(tag@),
        }
    }
}

impl Clone for ExpandedAst {
    fn clone(&self) -> (res: Self)
        ensures
            res@ == self@,
        decreases self,
    {
        let mut nodes: Vec<ExpandedNode> = Vec::new();
        let mut i: usize = 0;
        while i < self.0.len()
            invariant
                i <= self.0.len(),
                nodes@.len() == i,
                forall|k: int| 0 <= k < i ==> (#[trigger] nodes@[k])@ == self.0@[k]@,
            decreases self.0.len() - i,
        {
            nodes.push(self.0[i].clone());
            i += 1;
        }
        let res = ExpandedAst(nodes);
        assert(res@ =~= self@);
        res
    }
}

impl Clone for ExpandedTag {
    fn clone(&self) -> (res: Self)
        ensures
            res@ == self@,
        decreases self,
    {
        ExpandedTag {
            name: self.name.clone(),
            attributes: self.attributes.clone(),
            contents: self.contents.clone(),
        }
    }
}

impl Clone for ExpandedNode {
    fn clone(&self) -> (res: Self)
        ensures
            res@ == self@,
        decreases self,
    {
        match self {
            ExpandedNode::Text(text) => ExpandedNode::Text(text.clone()),
            ExpandedNode::Tag(tag) => ExpandedNode::Tag(tag.clone()),
        }
    }
}


/// Whether a result of the expansion is what `spec` gives.
pub open spec fn expands_to<T: View>(res: CatResult<T>, spec: Result<T::V, ErrorView>) -> bool {
    match res {
        Ok(value) => spec == Ok::<T::V, ErrorView>(value@),
        Err(e) => spec == Err::<T::V, ErrorView>(e@),
    }
}

impl ExpandedAst {
    /// Expands a tree: replaces every use of a variable and every
    /// invocation of a macro by what it stands for.
    pub fn expand(ast: Ast) -> (res: CatResult<Self>)
        ensures
            expands_to(res, expanded(ast@)),
    {
        Self::expand_inner(ast, &Environment::new(), MACRO_DEPTH)
    }

    /// Expands the nodes of one level, where `env` is in reach and `depth`
    /// more levels of macros may be entered.
    #[verifier::loop_isolation(false)]
    pub fn expand_inner(ast: Ast, env: &Environment, depth: usize) -> (res: CatResult<Self>)
        ensures
            expands_to(res, expand_scope(ast@, env@.vars, env@.macrs, depth as nat)),
        decreases depth, ast, 0int,
    {
        let mut expanded = ExpandedAst(Vec::new());
        let mut scope = env.clone();
        let mut rest = ast;
        let ghost goal = expand_scope(ast@, env@.vars, env@.macrs, depth as nat);
        let ghost mut done: int = 0;
        assert(expanded@ =~= Seq::empty());
        assert(rest.0@ =~= ast.0@.subrange(0, ast.0@.len() as int));
        proof {
            match goal {
                Ok(more) => {
                    assert(Seq::<ExpandedNodeView>::empty() + more =~= more);
                },
                Err(e) => {},
            }
        }
        while rest.0.len() > 0
            invariant
                0 <= done <= ast.0@.len(),
                rest.0@ == ast.0@.subrange(done, ast.0@.len() as int),
                match expand_scope(rest@, scope@.vars, scope@.macrs, depth as nat) {
                    Ok(more) => goal == Ok::<Seq<ExpandedNodeView>, ErrorView>(expanded@ + more),
                    Err(e) => goal == Err::<Seq<ExpandedNodeView>, ErrorView>(e),
                },
            decreases rest.0@.len(),
        {
            let ghost before = rest@;
            let ghost so_far = expanded@;
            let node = rest.0.pop_front().unwrap();
            proof {
                assert(node == ast.0[done]);
                assert(decreases_to!(ast.0 => ast.0[done]));
                assert(decreases_to!(ast => ast.0));
                assert(rest@ =~= before.subrange(1, before.len() as int));
                assert(before[0] == node@);
                assert(rest.0@ =~= ast.0@.subrange(done + 1, ast.0@.len() as int));
                done = done + 1;
            }
            match node {
                AstNode::Var(var) => {
                    proof {
                        assert(decreases_to!(node => node->Var_0));
                        assert(decreases_to!(var => var.contents));
                    }
                    match Self::expand_inner(var.contents, &scope, depth) {
                        Ok(contents) => {
                            scope.define_var(var.name, contents);
                        },
                        Err(e) => {
                            return Err(e);
                        },
                    }
                },
                AstNode::AccessVar(line, name) => {
                    let mut copy = match scope.var(&name) {
                        Some(contents) => contents.clone(),
                        None => {
                            return Err(TeaCatError::UndefinedVar(line, name));
                        },
                    };
                    let ghost spliced = copy@;
                    append_nodes(&mut expanded, &mut copy);
                    proof {
                        match expand_scope(rest@, scope@.vars, scope@.macrs, depth as nat) {
                            Ok(more) => {
                                assert(so_far + (spliced + more) =~= expanded@ + more);
                            },
                            Err(e) => {},
                        }
                    }
                },
                AstNode::AccessMacr(line, args, name) => {
                    proof {
                        assert(decreases_to!(node => node->AccessMacr_1));
                    }
                    let body = match scope.macr(&name) {
                        Some(body) => body.clone(),
                        None => {
                            return Err(TeaCatError::UndefinedMacr(line, name));
                        },
                    };
                    let mut child = scope.without_vars();
                    proof {
                        let all = vars_seq(args@);
                        assert(all.skip(0) =~= all);
                        assert(all =~= vars_view(args));
                    }
                    for arg in it: args
                        invariant
                            decreases_to!(ast => args),
                            it.seq() == args@,
                            child@.macrs == scope@.macrs,
                            bound_args(
                                vars_seq(args@).skip(it.index() as int),
                                scope@.vars,
                                scope@.macrs,
                                child@.vars,
                                depth as nat,
                            ) == bound_args(
                                vars_seq(args@),
                                scope@.vars,
                                scope@.macrs,
                                Map::empty(),
                                depth as nat,
                            ),
                    {
                        proof {
                            let all = vars_seq(args@);
                            let i = it.index() as int;
                            assert(all.skip(i)[0] == arg@);
                            assert(all.skip(i).subrange(1, all.skip(i).len() as int) =~= all.skip(
                                i + 1,
                            ));
                            assert(arg == args[it.index() as int]);
                            assert(decreases_to!(args => args[it.index() as int]));
                            assert(decreases_to!(arg => arg.contents));
                        }
                        match Self::expand_inner(arg.contents, &scope, depth) {
                            Ok(contents) => {
                                child.define_var(arg.name, contents);
                            },
                            Err(e) => {
                                return Err(e);
                            },
                        }
                    }
                    proof {
                        let all = vars_seq(args@);
                        assert(all.skip(all.len() as int) =~= Seq::empty());
                    }
                    if depth == 0 {
                        return Err(TeaCatError::RecursionLimit(line, name));
                    }
                    let mut inner = match Self::expand_inner(body, &child, depth - 1) {
                        Ok(inner) => inner,
                        Err(e) => {
                            return Err(e);
                        },
                    };
                    let ghost spliced = inner@;
                    append_nodes(&mut expanded, &mut inner);
                    proof {
                        match expand_scope(rest@, scope@.vars, scope@.macrs, depth as nat) {
                            Ok(more) => {
                                assert(so_far + (spliced + more) =~= expanded@ + more);
                            },
                            Err(e) => {},
                        }
                    }
                },
                AstNode::Macr(macr) => {
                    scope.define_macr(macr.name, macr.contents);
                },
                AstNode::Tag(tag) => {
                    proof {
                        assert(decreases_to!(node => node->Tag_0));
                    }
                    let tag = match ExpandedTag::from_tag(tag, &scope, depth) {
                        Ok(tag) => tag,
                        Err(e) => {
                            return Err(e);
                        },
                    };
                    let ghost tag_view = tag@;
                    push_node(&mut expanded, ExpandedNode::Tag(tag));
                    proof {
                        match expand_scope(rest@, scope@.vars, scope@.macrs, depth as nat) {
                            Ok(more) => {
                                assert(so_far + (seq![ExpandedNodeView::Tag(tag_view)] + more)
                                    =~= expanded@ + more);
                            },
                            Err(e) => {},
                        }
                    }
                },
                AstNode::Text(text) => {
                    let ghost text_view = text@;
                    push_node(&mut expanded, ExpandedNode::Text(text));
                    proof {
                        match expand_scope(rest@, scope@.vars, scope@.macrs, depth as nat) {
                            Ok(more) => {
                                assert(so_far + (seq![ExpandedNodeView::Text(text_view)] + more)
                                    =~= expanded@ + more);
                            },
                            Err(e) => {},
                        }
                    }
                },
            }
        }
        assert(expanded@ + Seq::<ExpandedNodeView>::empty() =~= expanded@);
        Ok(expanded)
    }
}

/// Puts `node` at the end of `nodes`.
fn push_node(nodes: &mut ExpandedAst, node: ExpandedNode)
    ensures
        final(nodes)@ == old(nodes)@.push(node@),
{
    nodes.0.push(node);
    assert(nodes@ =~= old(nodes)@.push(node@));
}

/// Moves the nodes of `more` to the end of `nodes`.
fn append_nodes(nodes: &mut ExpandedAst, more: &mut ExpandedAst)
    ensures
        final(nodes)@ == old(nodes)@ + old(more)@,
{
    nodes.0.append(&mut more.0);
    assert(nodes@ =~= old(nodes)@ + old(more)@);
}

impl ExpandedTag {
    /// Expands the contents of a tag, where `env` is in reach at the tag.
    pub fn from_tag(tag: Tag, env: &Environment, depth: usize) -> (res: CatResult<Self>)
        ensures
            expands_to(
                res,
                match expand_scope(tag@.contents, env@.vars, env@.macrs, depth as nat) {
                    Ok(contents) => Ok(
                        ExpandedTagView { name: tag@.name, attributes: tag@.attributes, contents },
                    ),
                    Err(e) => Err(e),
                },
            ),
        decreases depth, tag, 1int,
    {
        match ExpandedAst::expand_inner(tag.contents, env, depth) {
            Ok(contents) => Ok(ExpandedTag { name: tag.name, attributes: tag.attributes, contents }),
            Err(e) => Err(e),
        }
    }
}

} // verus!
