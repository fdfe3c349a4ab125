//! The parser: a stream of tokens to a tree.

pub mod attributes;
pub mod grammar;

use crate::error::{CatResult, ErrorView, TeaCatError};
use crate::lexer::{StringLiteralView, Token, TokenStream, TokenView};
use attributes::Attributes;
use grammar::{
    access_macr_after_at, args_until_bracket, formals_until_brace, macr_after_keyword, node_after,
    nodes_until, parsed, tag_after_colon, var_after_ampersand, var_after_walrus, Tokens,
};
use std::collections::VecDeque;
use vstd::prelude::*;
use vstd::std_specs::vecdeque::VecDequeAdditionalSpecFns;

verus! {
/// A source text as a tree: the nodes of one level, in order.
#[derive(Debug, PartialEq, Eq)]
pub struct Ast(pub VecDeque<AstNode>);

/// A single node of an [`Ast`].
#[derive(Debug, PartialEq, Eq)]
pub enum AstNode {
    /// Literal text.
    Text(String),
    /// A tag with its contents.
    Tag(Tag),
    /// The definition of a variable.
    Var(Var),
    /// The use of a variable: the line and the name.
    AccessVar(usize, String),
    /// The definition of a macro.
    Macr(Macr),
    /// The invocation of a macro: the line, the arguments that it binds,
    /// and the name.
    AccessMacr(usize, Vec<Var>, String),
}

/// A named container of nested content, with attributes.
#[derive(Debug, PartialEq, Eq)]
pub struct Tag {
    pub name: String,
    pub attributes: Attributes,
    pub contents: Ast,
}

/// A name bound to content.
#[derive(Debug, PartialEq, Eq)]
pub struct Var {
    pub name: String,
    pub contents: Ast,
}

/// A named template: the names of its parameters and its body.
#[derive(Debug, PartialEq, Eq)]
pub struct Macr {
    pub name: String,
    pub args: Vec<String>,
    pub contents: Ast,
}

/// What an [`AstNode`] holds.
pub enum AstNodeView {
    Text(Seq<char>),
    Tag(TagView),
    Var(VarView),
    AccessVar(usize, Seq<char>),
    Macr(MacrView),
    AccessMacr(usize, Seq<VarView>, Seq<char>),
}

/// What a [`Tag`] holds.
pub struct TagView {
    pub name: Seq<char>,
    pub attributes: Seq<(Seq<char>, StringLiteralView)>,
    pub contents: Seq<AstNodeView>,
}

/// What a [`Var`] holds.
pub struct VarView {
    pub name: Seq<char>,
    pub contents: Seq<AstNodeView>,
}

/// What a [`Macr`] holds.
pub struct MacrView {
    pub name: Seq<char>,
    pub args: Seq<Seq<char>>,
    pub contents: Seq<AstNodeView>,
}

impl View for Ast {
    type V = Seq<AstNodeView>;

    open spec fn view(&self) -> Seq<AstNodeView>
        decreases self,
    {
        Seq::new(
            self.0@.len(),
            |i: int|
                if 0 <= i < self.0@.len() {
                    proof {
                        assert(decreases_to!(self.0 => self.0[i]));
                    }
                    self.0[i]@
                } else {
                    arbitrary()
                },
        )
    }
}

impl View for Tag {
    type V = TagView;

    open spec fn view(&self) -> TagView
        decreases self,
    {
        TagView { name: self.name@, attributes: self.attributes@, contents: self.contents@ }
    }
}

impl View for Var {
    type V = VarView;

    open spec fn view(&self) -> VarView
        decreases self,
    {
        VarView { name: self.name@, contents: self.contents@ }
    }
}

impl View for Macr {
    type V = MacrView;

    open spec fn view(&self) -> MacrView
        decreases self,
    {
        MacrView {
            name: self.name@,
            args: Seq::new(self.args@.len(), |i: int| self.args@[i]@),
            contents: self.contents@,
        }
    }
}

/// What a list of variables holds.
pub open spec fn vars_view(vars: Vec<Var>) -> Seq<VarView>
    decreases vars,
{
    Seq::new(
        vars@.len(),
        |i: int|
            if 0 <= i < vars@.len() {
                proof {
                    assert(decreases_to!(vars => vars[i]));
                }
                vars[i]@
            } else {
                arbitrary()
            },
    )
}

/// What each of some variables holds.
pub open spec fn vars_seq(vars: Seq<Var>) -> Seq<VarView> {
    Seq::new(vars.len(), |i: int| vars[i]@)
}

/// What a list of names holds.
pub open spec fn names_view(names: Vec<String>) -> Seq<Seq<char>> {
    Seq::new(names@.len(), |i: int| names@[i]@)
}

impl View for AstNode {
    type V = AstNodeView;

    open spec fn view(&self) -> AstNodeView
        decreases self,
    {
        match self {
            AstNode::Text(text) => AstNodeView::Text(text@),
            AstNode::Tag(tag) => AstNodeView::Tag(tag@),
            AstNode::Var(var) => AstNodeView::Var(var@),
            AstNode::AccessVar(line, name) => AstNodeView::AccessVar(*line, name@),
            AstNode::Macr(macr) => AstNodeView::Macr(macr@),
            AstNode::AccessMacr(line, vars, name) => AstNodeView::AccessMacr(
                *line,
                vars_view(*vars),
                name@,
            ),
        }
    }
}

impl Clone for Ast {
    fn clone(&self) -> (res: Self)
        ensures
            res@ == self@,
        decreases self,
    {
        let mut nodes: VecDeque<AstNode> = VecDeque::new();
        let mut i: usize = 0;
        while i < self.0.len()
            invariant
                i <= self.0.len(),
                nodes@.len() == i,
                forall|k: int| 0 <= k < i ==> (#[trigger] nodes@[k])@ == self.0@[k]@,
            decreases self.0.len() - i,
        {
            nodes.push_back(self.0[i].clone());
            i += 1;
        }
        let res = Ast(nodes);
        assert(res@ =~= self@);
        res
    }
}

impl Clone for Var {
    fn clone(&self) -> (res: Self)
        ensures
            res@ == self@,
        decreases self,
    {
        Var { name: self.name.clone(), contents: self.contents.clone() }
    }
}

impl Clone for Tag {
    fn clone(&self) -> (res: Self)
        ensures
            res@ == self@,
        decreases self,
    {
        Tag {
            name: self.name.clone(),
            attributes: self.attributes.clone(),
            contents: self.contents.clone(),
        }
    }
}

impl Clone for Macr {
    fn clone(&self) -> (res: Self)
        ensures
            res@ == self@,
        decreases self,
    {
        let mut args: Vec<String> = Vec::new();
        let mut i: usize = 0;
        while i < self.args.len()
            invariant
                i <= self.args.len(),
                args@.len() == i,
                forall|k: int| 0 <= k < i ==> (#[trigger] args@[k])@ == self.args@[k]@,
            decreases self.args.len() - i,
        {
            args.push(self.args[i].clone());
            i += 1;
        }
        let res = Macr { name: self.name.clone(), args, contents: self.contents.clone() };
        assert(res@.args =~= self@.args);
        res
    }
}

impl Clone for AstNode {
    fn clone(&self) -> (res: Self)
        ensures
            res@ == self@,
        decreases self,
    {
        match self {
            AstNode::Text(text) => AstNode::Text(text.clone()),
            AstNode::Tag(tag) => AstNode::Tag(tag.clone()),
            AstNode::Var(var) => AstNode::Var(var.clone()),
            AstNode::AccessVar(line, name) => AstNode::AccessVar(*line, name.clone()),
            AstNode::Macr(macr) => AstNode::Macr(macr.clone()),
            AstNode::AccessMacr(line, vars, name) => {
                let mut copies: Vec<Var> = Vec::new();
                let mut i: usize = 0;
                while i < vars.len()
                    invariant
                        *self == AstNode::AccessMacr(*line, *vars, *name),
                        i <= vars.len(),
                        copies@.len() == i,
                        forall|k: int| 0 <= k < i ==> (#[trigger] copies@[k])@ == vars@[k]@,
                    decreases vars.len() - i,
                {
                    let var = &vars[i];
                    proof {
                        assert(self is AccessMacr);
                        assert(self->AccessMacr_1 == *vars);
                        assert(decreases_to!(self => self->AccessMacr_1));
                        assert(decreases_to!(*vars => vars[i as int]));
                    }
                    copies.push(var.clone());
                    i += 1;
                }
                assert(vars_view(copies) =~= vars_view(*vars));
                AstNode::AccessMacr(*line, copies, name.clone())
            },
        }
    }
}

/// What an optional token holds.
pub open spec fn until_view(until: Option<Token>) -> Option<TokenView> {
    match until {
        Some(token) => Some(token@),
        None => None,
    }
}

/// Whether a result of the parser, with the tokens that it has left, is what
/// the grammar gives.
pub open spec fn agrees<T: View>(
    res: CatResult<T>,
    left: Tokens,
    grammar: Result<(T::V, Tokens), ErrorView>,
) -> bool {
    match res {
        Ok(value) => grammar == Ok::<(T::V, Tokens), ErrorView>((value@, left)),
        Err(e) => grammar == Err::<(T::V, Tokens), ErrorView>(e@),
    }
}

impl Ast {
    /// The tree without nodes.
    pub fn empty() -> (ast: Self)
        ensures
            ast@ == Seq::<AstNodeView>::empty(),
    {
        let ast = Ast(VecDeque::new());
        assert(ast@ =~= Seq::empty());
        ast
    }

    /// Turns a stream of tokens into a tree.
    pub fn parse(tokenstream: TokenStream) -> (res: CatResult<Self>)
        ensures
            match res {
                Ok(ast) => parsed(tokenstream@) == Ok::<Seq<AstNodeView>, ErrorView>(ast@),
                Err(e) => parsed(tokenstream@) == Err::<Seq<AstNodeView>, ErrorView>(e@),
            },
    {
        let mut tokenstream = tokenstream;
        Self::parse_until(&mut tokenstream, None)
    }

    /// Reads nodes up to the token `until`, which is read too, or up to the
    /// end of the stream where there is no `until`.
    pub fn parse_until(tokenstream: &mut TokenStream, until: Option<Token>) -> (res: CatResult<Self>)
        ensures
            agrees(res, final(tokenstream)@, nodes_until(old(tokenstream)@, until_view(until), 0)),
            final(tokenstream)@.len() <= old(tokenstream)@.len(),
        decreases old(tokenstream)@.len(), 2int,
    {
        let mut nodes: VecDeque<AstNode> = VecDeque::new();
        let mut current_line: usize = 0;
        let ghost goal = nodes_until(old(tokenstream)@, until_view(until), 0);
        assert(Ast(nodes)@ =~= Seq::empty());
        proof {
            match goal {
                Ok((more, left)) => {
                    assert(Seq::<AstNodeView>::empty() + more =~= more);
                },
                Err(e) => {},
            }
        }
        while !tokenstream.is_empty()
            invariant
                tokenstream@.len() <= old(tokenstream)@.len(),
                goal == nodes_until(old(tokenstream)@, until_view(until), 0),
                match nodes_until(tokenstream@, until_view(until), current_line) {
                    Ok((more, left)) => goal == Ok::<(Seq<AstNodeView>, Tokens), ErrorView>(
                        (Ast(nodes)@ + more, left),
                    ),
                    Err(e) => goal == Err::<(Seq<AstNodeView>, Tokens), ErrorView>(e),
                },
            decreases tokenstream@.len(),
        {
            let ghost before = tokenstream@;
            let ghost read = Ast(nodes)@;
            let (line, token) = tokenstream.pop().unwrap();
            let ghost rest = tokenstream@;
            let ghost first = token@;
            let stop = match &until {
                Some(end) => *end == token,
                None => false,
            };
            if stop {
                assert(read + Seq::<AstNodeView>::empty() =~= read);
                return Ok(Ast(nodes));
            }
            let parsed = match token {
                Token::Andpersand => var(tokenstream),
                Token::Colon => tag(tokenstream),
                Token::Macr => macr(tokenstream),
                Token::At => access_macr(tokenstream),
                other => Ok(AstNode::Text(other.to_string())),
            };
            assert(agrees(parsed, tokenstream@, node_after(first, rest)));
            let node = match parsed {
                Ok(node) => node,
                Err(e) => {
                    return Err(e);
                },
            };
            let ghost node_view = node@;
            nodes.push_back(node);
            current_line = line;
            proof {
                assert(Ast(nodes)@ =~= read.push(node_view));
                match nodes_until(tokenstream@, until_view(until), current_line) {
                    Ok((more, left)) => {
                        assert(read + (seq![node_view] + more) =~= Ast(nodes)@ + more);
                    },
                    Err(e) => {},
                }
            }
        }
        match until {
            Some(token) => Err(TeaCatError::EarlyEof(current_line, token)),
            None => {
                assert(Ast(nodes)@ + Seq::<AstNodeView>::empty() =~= Ast(nodes)@);
                Ok(Ast(nodes))
            },
        }
    }
}

impl From<VecDeque<AstNode>> for Ast {
    fn from(value: VecDeque<AstNode>) -> (ast: Self)
        ensures
            ast == Ast(value),
    {
        Ast(value)
    }
}

impl vstd::std_specs::convert::FromSpecImpl<VecDeque<AstNode>> for Ast {
    open spec fn obeys_from_spec() -> bool {
        true
    }

    open spec fn from_spec(value: VecDeque<AstNode>) -> Self {
        Ast(value)
    }
}

impl AstNode {
    /// A node of literal text.
    pub fn text(str: &str) -> (node: Self)
        ensures
            node@ == AstNodeView::Text(str@),
    {
        AstNode::Text(String::from_str(str))
    }
}

impl Var {
    /// Reads the contents of the variable `name`, up to and with the
    /// semicolon.
    pub fn new(name: String, tokenstream: &mut TokenStream) -> (res: CatResult<Self>)
        ensures
            agrees(res, final(tokenstream)@, var_after_walrus(name@, old(tokenstream)@)),
            final(tokenstream)@.len() <= old(tokenstream)@.len(),
        decreases old(tokenstream)@.len(), 3int,
    {
        match Ast::parse_until(tokenstream, Some(Token::SemiColon)) {
            Ok(contents) => Ok(Var { name, contents }),
            Err(e) => Err(e),
        }
    }
}

/// Reads a variable, whose ampersand has been read: its definition or its
/// use.
pub fn var(tokenstream: &mut TokenStream) -> (res: CatResult<AstNode>)
    ensures
        agrees(res, final(tokenstream)@, var_after_ampersand(old(tokenstream)@)),
        final(tokenstream)@.len() <= old(tokenstream)@.len(),
    decreases old(tokenstream)@.len(), 0int,
{
    let (line, name) = match tokenstream.current_ident() {
        Ok(pair) => pair,
        Err(e) => {
            return Err(e);
        },
    };
    if tokenstream.front_is(&Token::Walrus) {
        tokenstream.pop();
        match Var::new(name, tokenstream) {
            Ok(var) => Ok(AstNode::Var(var)),
            Err(e) => Err(e),
        }
    } else {
        Ok(AstNode::AccessVar(line, name))
    }
}

/// Reads a tag, whose colon has been read.
pub fn tag(tokenstream: &mut TokenStream) -> (res: CatResult<AstNode>)
    ensures
        agrees(res, final(tokenstream)@, tag_after_colon(old(tokenstream)@)),
        final(tokenstream)@.len() <= old(tokenstream)@.len(),
    decreases old(tokenstream)@.len(), 0int,
{
    let (_, name) = match tokenstream.current_ident() {
        Ok(pair) => pair,
        Err(e) => {
            return Err(e);
        },
    };
    let mut attributes = Attributes::new();
    if tokenstream.front_is(&Token::OpenBrace) {
        tokenstream.pop();
        attributes = match Attributes::parse(tokenstream) {
            Ok(attributes) => attributes,
            Err(e) => {
                return Err(e);
            },
        };
    }
    match tokenstream.expect(Token::OpenBracket) {
        Ok(_) => {},
        Err(e) => {
            return Err(e);
        },
    }
    match Ast::parse_until(tokenstream, Some(Token::CloseBracket)) {
        Ok(contents) => Ok(AstNode::Tag(Tag { name, attributes, contents })),
        Err(e) => Err(e),
    }
}

/// Reads the definition of a macro, whose keyword has been read.
#[verifier::loop_isolation(false)]
pub fn macr(tokenstream: &mut TokenStream) -> (res: CatResult<AstNode>)
    ensures
        agrees(res, final(tokenstream)@, macr_after_keyword(old(tokenstream)@)),
        final(tokenstream)@.len() <= old(tokenstream)@.len(),
    decreases old(tokenstream)@.len(), 0int,
{
    match tokenstream.expect(Token::At) {
        Ok(_) => {},
        Err(e) => {
            return Err(e);
        },
    }
    let (line, name) = match tokenstream.current_ident() {
        Ok(pair) => pair,
        Err(e) => {
            return Err(e);
        },
    };
    match tokenstream.expect(Token::OpenBrace) {
        Ok(_) => {},
        Err(e) => {
            return Err(e);
        },
    }
    let mut args: Vec<String> = Vec::new();
    let ghost start = tokenstream@;
    assert(names_view(args) =~= Seq::empty());
    loop
        invariant
            tokenstream@.len() <= start.len(),
            formals_until_brace(tokenstream@, names_view(args), line) == formals_until_brace(
                start,
                Seq::empty(),
                line,
            ),
        decreases tokenstream@.len(),
    {
        let (at, token) = match tokenstream.pop() {
            Some(pair) => pair,
            None => {
                return Err(TeaCatError::EarlyEof(line, Token::CloseBrace));
            },
        };
        match token {
            Token::CloseBrace => {
                break ;
            },
            Token::Andpersand => {
                let ghost names = names_view(args);
                match tokenstream.current_ident() {
                    Ok((_, name)) => {
                        args.push(name);
                        assert(names_view(args) =~= names.push(name@));
                    },
                    Err(e) => {
                        return Err(e);
                    },
                }
            },
            other => {
                return Err(TeaCatError::UnexpectedToken(at, other));
            },
        }
    }
    match tokenstream.expect(Token::OpenBracket) {
        Ok(_) => {},
        Err(e) => {
            return Err(e);
        },
    }
    match Ast::parse_until(tokenstream, Some(Token::CloseBracket)) {
        Ok(contents) => {
            let macr = Macr { name, args, contents };
            assert(macr@.args =~= names_view(macr.args));
            Ok(AstNode::Macr(macr))
        },
        Err(e) => Err(e),
    }
}

/// Reads the invocation of a macro, whose at sign has been read.
#[verifier::loop_isolation(false)]
pub fn access_macr(tokenstream: &mut TokenStream) -> (res: CatResult<AstNode>)
    ensures
        agrees(res, final(tokenstream)@, access_macr_after_at(old(tokenstream)@)),
        final(tokenstream)@.len() <= old(tokenstream)@.len(),
    decreases old(tokenstream)@.len(), 0int,
{
    let (line, name) = match tokenstream.current_ident() {
        Ok(pair) => pair,
        Err(e) => {
            return Err(e);
        },
    };
    match tokenstream.expect(Token::OpenBracket) {
        Ok(_) => {},
        Err(e) => {
            return Err(e);
        },
    }
    let mut vars: Vec<Var> = Vec::new();
    let ghost start = tokenstream@;
    assert(vars_view(vars) =~= Seq::empty());
    loop
        invariant
            tokenstream@.len() <= start.len(),
            args_until_bracket(tokenstream@, vars_view(vars), line) == args_until_bracket(
                start,
                Seq::empty(),
                line,
            ),
        decreases tokenstream@.len(),
    {
        let (at, token) = match tokenstream.pop() {
            Some(pair) => pair,
            None => {
                return Err(TeaCatError::EarlyEof(line, Token::CloseBracket));
            },
        };
        match token {
            Token::CloseBracket => {
                break ;
            },
            Token::Andpersand => {
                let name = match tokenstream.current_ident() {
                    Ok((_, name)) => name,
                    Err(e) => {
                        return Err(e);
                    },
                };
                match tokenstream.expect(Token::Walrus) {
                    Ok(_) => {},
                    Err(e) => {
                        return Err(e);
                    },
                }
                let ghost bound = vars_view(vars);
                match Var::new(name, tokenstream) {
                    Ok(var) => {
                        let ghost var_view = var@;
                        vars.push(var);
                        assert(vars_view(vars) =~= bound.push(var_view));
                    },
                    Err(e) => {
                        return Err(e);
                    },
                }
            },
            other => {
                return Err(TeaCatError::UnexpectedToken(at, other));
            },
        }
    }
    Ok(AstNode::AccessMacr(line, vars, name))
}

} // verus!
