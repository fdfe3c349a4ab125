//! How the parser reads the tokens of a tree.

use crate::error::ErrorView;
use crate::expanded::scoping::{as_ast, node_as_ast};
use crate::expanded::ExpandedNodeView;
use crate::lexer::{expected, StringLiteralView, TokenView};
use crate::parser::attributes::{distinct_keys, inserted, lemma_position_from, position};
use crate::parser::grammar::{
    attributes_after_name, attributes_until_brace, node_after, nodes_until, Tokens,
};
use crate::parser::AstNodeView;
use crate::escaping::is_literal_free;
use crate::round_trip::{
    attribute_tokens, is_quoted_text, is_readable, node_is_readable, node_tokens, quoted_content,
    tokens_of,
};
use vstd::prelude::*;

verus! {

/// The tokens of some nodes are the tokens of the first of them and then
/// the tokens of the others.
pub proof fn lemma_tokens_of_first(nodes: Seq<ExpandedNodeView>, line: usize)
    requires
        nodes.len() > 0,
    ensures
        tokens_of(nodes, line) == node_tokens(nodes[0], line) + tokens_of(
            nodes.subrange(1, nodes.len() as int),
            line,
        ),
    decreases nodes.len(),
{
    let n = nodes.len() as int;
    let others = nodes.subrange(1, n);
    if n == 1 {
        assert(nodes.subrange(0, 0) =~= Seq::empty());
        assert(tokens_of(nodes.subrange(0, 0), line) =~= Seq::empty());
        assert(tokens_of(others, line) =~= Seq::empty());
        assert(tokens_of(nodes, line) =~= node_tokens(nodes[0], line) + tokens_of(others, line));
    } else {
        let before = nodes.subrange(0, n - 1);
        lemma_tokens_of_first(before, line);
        assert(before.subrange(1, n - 1) =~= others.subrange(0, n - 2));
        assert(others[n - 2] == nodes[n - 1]);
        assert(before[0] == nodes[0]);
        assert(tokens_of(nodes, line) =~= node_tokens(nodes[0], line) + tokens_of(others, line));
    }
}

/// The tokens of some attributes are the tokens of the first of them and
/// then the tokens of the others.
pub proof fn lemma_attribute_tokens_of_first(
    attributes: Seq<(Seq<char>, StringLiteralView)>,
    line: usize,
)
    requires
        attributes.len() > 0,
    ensures
        attribute_tokens(attributes, line) == seq![
            (line, TokenView::Text(attributes[0].0)),
            (line, TokenView::Colon),
            (line, TokenView::Stringliteral(attributes[0].1)),
        ] + attribute_tokens(attributes.drop_first(), line),
    decreases attributes.len(),
{
    let others = attributes.drop_first();
    let head = seq![
        (line, TokenView::Text(attributes[0].0)),
        (line, TokenView::Colon),
        (line, TokenView::Stringliteral(attributes[0].1)),
    ];
    if attributes.len() == 1 {
        assert(attributes.drop_last() =~= Seq::empty());
        assert(attribute_tokens(attributes.drop_last(), line) =~= Seq::empty());
        assert(attribute_tokens(others, line) =~= Seq::empty());
        assert(attribute_tokens(attributes, line) =~= head + attribute_tokens(others, line));
    } else {
        let before = attributes.drop_last();
        lemma_attribute_tokens_of_first(before, line);
        assert(before.drop_first() =~= others.drop_last());
        assert(others.last() == attributes.last());
        assert(before[0] == attributes[0]);
        assert(attribute_tokens(attributes, line) =~= head + attribute_tokens(others, line));
    }
}

/// The attributes of a block, behind those that are read, are read as
/// themselves, where no two of them all have the same name.
pub proof fn lemma_reads_entries(
    done: Seq<(Seq<char>, StringLiteralView)>,
    waiting: Seq<(Seq<char>, StringLiteralView)>,
    line: usize,
    more: Tokens,
    at: usize,
)
    requires
        distinct_keys(done + waiting),
    ensures
        attributes_until_brace(
            attribute_tokens(waiting, line) + seq![(line, TokenView::CloseBrace)] + more,
            done,
            at,
        ) == Ok::<(Seq<(Seq<char>, StringLiteralView)>, Tokens), ErrorView>((done + waiting, more)),
    decreases waiting.len(),
{
    let tokens = attribute_tokens(waiting, line) + seq![(line, TokenView::CloseBrace)] + more;
    if waiting.len() == 0 {
        assert(attribute_tokens(waiting, line) =~= Seq::empty());
        assert(tokens[0] == (line, TokenView::CloseBrace));
        assert(tokens.drop_first() =~= more);
        assert(done + waiting =~= done);
    } else {
        let key = waiting[0].0;
        let value = waiting[0].1;
        let others = waiting.drop_first();
        lemma_attribute_tokens_of_first(waiting, line);
        assert(tokens[0] == (line, TokenView::Text(key)));
        assert(tokens[1] == (line, TokenView::Colon));
        assert(tokens[2] == (line, TokenView::Stringliteral(value)));
        assert(tokens.skip(3) =~= attribute_tokens(others, line) + seq![
            (line, TokenView::CloseBrace),
        ] + more);
        // The name is new.
        lemma_position_from(done, key, 0);
        assert(position(done, key).is_none()) by {
            if position(done, key).is_some() {
                let i = position(done, key).unwrap();
                assert((done + waiting)[i] == done[i]);
                assert((done + waiting)[done.len() as int] == waiting[0]);
            }
        }
        assert(inserted(done, key, value) =~= done.push(waiting[0]));
        assert(done.push(waiting[0]) + others =~= done + waiting);
        lemma_reads_entries(done.push(waiting[0]), others, line, more, line);
    }
}

/// The attribute block of a tag, behind its opening brace, is read as the
/// attributes, where no two of them have the same name.
pub proof fn lemma_reads_attributes(
    attributes: Seq<(Seq<char>, StringLiteralView)>,
    line: usize,
    more: Tokens,
)
    requires
        distinct_keys(attributes),
    ensures
        attributes_until_brace(
            attribute_tokens(attributes, line) + seq![(line, TokenView::CloseBrace)] + more,
            Seq::empty(),
            0,
        ) == Ok::<(Seq<(Seq<char>, StringLiteralView)>, Tokens), ErrorView>((attributes, more)),
{
    assert(Seq::<(Seq<char>, StringLiteralView)>::empty() + attributes =~= attributes);
    lemma_reads_entries(Seq::empty(), attributes, line, more, 0);
}

/// The tokens of a node, but for the first, followed by `more`.
pub open spec fn behind_first(node: ExpandedNodeView, line: usize, more: Tokens) -> Tokens {
    node_tokens(node, line).subrange(1, node_tokens(node, line).len() as int) + more
}

/// The parser reads the tokens of a node as the node, and leaves what
/// follows them.
pub proof fn lemma_reads_node(node: ExpandedNodeView, line: usize, more: Tokens)
    requires
        node_is_readable(node),
    ensures
        node_tokens(node, line).len() > 0,
        node_tokens(node, line)[0].0 == line,
        node_tokens(node, line)[0].1 != TokenView::CloseBracket,
        node_after(node_tokens(node, line)[0].1, behind_first(node, line, more)) == Ok::<
            (AstNodeView, Tokens),
            ErrorView,
        >((node_as_ast(node), more)),
    decreases node, 0int,
{
    match node {
        ExpandedNodeView::Text(text) => {
            assert(behind_first(node, line, more) =~= more);
            if !is_literal_free(text) {
                assert(is_quoted_text(text));
                assert(seq![text[0]] + quoted_content(text) + seq![text[0]] =~= text);
            }
        },
        ExpandedNodeView::Tag(tag) => {
            let inner = tokens_of(tag.contents, line);
            let closing = seq![(line, TokenView::CloseBracket)] + more;
            let all = node_tokens(node, line);
            let t1 = behind_first(node, line, more);
            assert(all[0] == (line, TokenView::Colon));
            assert(t1[0] == (line, TokenView::Ident(tag.name)));
            let t2 = t1.drop_first();
            assert(t2[0] == (line, TokenView::OpenBrace));
            let t3 = t2.drop_first();
            let t4 = seq![(line, TokenView::OpenBracket)] + (inner + closing);
            assert(t3 =~= attribute_tokens(tag.attributes, line) + seq![
                (line, TokenView::CloseBrace),
            ] + t4);
            lemma_reads_attributes(tag.attributes, line, t4);
            assert(attributes_after_name(t2) == Ok::<
                (Seq<(Seq<char>, StringLiteralView)>, Tokens),
                ErrorView,
            >((tag.attributes, t4)));
            assert(t4[0] == (line, TokenView::OpenBracket));
            let t5 = t4.drop_first();
            assert(t5 =~= inner + closing);
            assert(expected(t4, TokenView::OpenBracket) == Ok::<Tokens, ErrorView>(t5));
            lemma_reads_nodes(tag.contents, line, Some(TokenView::CloseBracket), closing, 0);
            assert(closing.drop_first() =~= more);
            assert(t5.len() < t1.len());
        },
    }
}

/// The parser reads the tokens of the nodes of one level as the nodes, up
/// to the closing bracket behind them or, where nothing follows them, up to
/// the end.
pub proof fn lemma_reads_nodes(
    nodes: Seq<ExpandedNodeView>,
    line: usize,
    until: Option<TokenView>,
    rest: Tokens,
    at: usize,
)
    requires
        is_readable(nodes),
        until is None ==> rest.len() == 0,
        until is Some ==> until == Some(TokenView::CloseBracket) && rest.len() > 0 && rest[0].1
            == TokenView::CloseBracket,
    ensures
        nodes_until(tokens_of(nodes, line) + rest, until, at) == Ok::<
            (Seq<AstNodeView>, Tokens),
            ErrorView,
        >(
            (
                as_ast(nodes),
                if until is None {
                    rest
                } else {
                    rest.drop_first()
                },
            ),
        ),
    decreases nodes, 1int,
{
    let tokens = tokens_of(nodes, line) + rest;
    if nodes.len() == 0 {
        assert(tokens =~= rest);
        assert(as_ast(nodes) =~= Seq::empty());
    } else {
        let n = nodes.len() as int;
        let first = nodes[0];
        let others = nodes.subrange(1, n);
        lemma_tokens_of_first(nodes, line);
        assert(node_is_readable(first));
        assert(is_readable(others)) by {
            assert forall|i: int| 0 <= i < others.len() implies node_is_readable(
                #[trigger] others[i],
            ) by {
                assert(others[i] == nodes[i + 1]);
            }
        }
        let more = tokens_of(others, line) + rest;
        lemma_reads_node(first, line, more);
        let head = node_tokens(first, line);
        assert(tokens =~= head + more);
        assert(tokens[0] == head[0]);
        assert(tokens.drop_first() =~= behind_first(first, line, more));
        lemma_reads_nodes(others, line, until, rest, line);
        assert(seq![node_as_ast(first)] + as_ast(others) =~= as_ast(nodes));
        assert(more.len() < tokens.len());
    }
}

} // verus!
