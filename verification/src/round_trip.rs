//! What holds of every tree that is rendered as markup: the markup expands
//! to the tree.

pub mod reading;
pub mod runs;
pub mod scanning;
pub mod steps;

use crate::expanded::renderer::html::{html_escaped, html_nodes};
use crate::expanded::renderer::{rendered_by, RendererArg};
use crate::{compiled, encoded};
use crate::error::ErrorView;
use crate::escaping::{is_literal_free, lemma_encoding_of_parts, meet_at_quote};
use crate::expanded::renderer::tcat::{tcat_node, tcat_nodes};
use crate::expanded::scope::{expanded, MACRO_DEPTH};
use crate::expanded::scoping::{as_ast, lemma_expansion_is_idempotent};
use crate::expanded::{ExpandedNodeView, ExpandedTagView};
use crate::lexer::{
    cleaned, is_quote, lemma_cleaned_push, lexed, scanned, LexState, StringLiteralView, TokenView,
};
use crate::parser::attributes::distinct_keys;
use crate::parser::grammar::{parsed, Tokens};
use crate::parser::AstNodeView;
use crate::text::{is_blank, is_whitespace, tidy};
use reading::lemma_reads_nodes;
use runs::is_bare;
use scanning::lemma_scans_nodes;
use vstd::prelude::*;

verus! {

/// Whether `s` can be the name of a tag: it is not empty, holds no white
/// space and nothing that the scanner reads as anything but a character of
/// the name, and does not start with `=`, which would make `:=` of the colon
/// before it.
pub open spec fn is_name(s: Seq<char>) -> bool {
    &&& s.len() > 0
    &&& s[0] != '='
    &&& is_bare(s)
    &&& forall|i: int| 0 <= i < s.len() ==> !is_whitespace(#[trigger] s[i])
}

/// Whether `s` can be the name of an attribute: it is not blank and holds
/// nothing that the scanner reads as anything but a character of the name.
pub open spec fn is_key(s: Seq<char>) -> bool {
    &&& is_bare(s)
    &&& !is_blank(s)
}

/// The name of the attribute at index `i` of a tag as it is read from the
/// markup: tidied, and for every attribute but the first with the space that
/// the markup puts before it.
pub open spec fn tidied_name(i: int, key: Seq<char>) -> Seq<char> {
    if i == 0 {
        tidy(key)
    } else {
        tidy(seq![' '] + key)
    }
}

/// The attributes with their names as they are read from the markup.
pub open spec fn tidied_attributes(attributes: Seq<(Seq<char>, StringLiteralView)>) -> Seq<
    (Seq<char>, StringLiteralView),
> {
    Seq::new(attributes.len(), |i: int| (tidied_name(i, attributes[i].0), attributes[i].1))
}

/// Whether the markup of the attributes is read as attributes: each name
/// and each literal can be one, and no two names are read as the same name.
pub open spec fn are_attributes(attributes: Seq<(Seq<char>, StringLiteralView)>) -> bool {
    &&& distinct_keys(tidied_attributes(attributes))
    &&& forall|i: int|
        0 <= i < attributes.len() ==> is_key((#[trigger] attributes[i]).0) && is_value(
            attributes[i].1,
        )
}

/// Whether `value` can be the literal of an attribute: it stands between
/// quotes, is tidy and not blank, and holds no backslash, no `#` and not its
/// own quote.
pub open spec fn is_value(value: StringLiteralView) -> bool {
    &&& is_quote(value.quotes)
    &&& !is_blank(value.content)
    &&& tidy(value.content) == value.content
    &&& forall|i: int|
        0 <= i < value.content.len() ==> {
            let c = #[trigger] value.content[i];
            c != value.quotes && c != '\\' && c != '#'
        }
}

/// Whether `s` is a text that is read as a text: it is tidy, not blank, and
/// holds no quote and no `#`.
pub open spec fn is_plain_text(s: Seq<char>) -> bool {
    &&& is_literal_free(s)
    &&& !is_blank(s)
    &&& tidy(s) == s
}

/// What stands between the first and the last character of `s`.
pub open spec fn quoted_content(s: Seq<char>) -> Seq<char> {
    s.subrange(1, s.len() - 1)
}

/// Whether `s` is a text that is read as a literal, and so as the same
/// text again: it stands between two quotes of one kind, and what stands
/// between them is tidy, not blank, and holds no `#` and no quote of that
/// kind.
pub open spec fn is_quoted_text(s: Seq<char>) -> bool {
    &&& s.len() >= 2
    &&& is_quote(s[0])
    &&& s[s.len() - 1] == s[0]
    &&& !is_blank(quoted_content(s))
    &&& tidy(quoted_content(s)) == quoted_content(s)
    &&& forall|i: int| 1 <= i < s.len() - 1 ==> #[trigger] s[i] != s[0] && s[i] != '#'
}

/// Whether `s` can be the text of a node.
pub open spec fn is_text(s: Seq<char>) -> bool {
    is_plain_text(s) || is_quoted_text(s)
}

/// Whether the node is a text without quote and `#`, which is read as a
/// text.
pub open spec fn is_plain_node(node: ExpandedNodeView) -> bool {
    node matches ExpandedNodeView::Text(text) && is_literal_free(text)
}

/// Whether the markup of the nodes is read as the nodes: each of them is,
/// and no text without quotes stands next to another, since the markup of the
/// two would be one text.
pub open spec fn is_printable(nodes: Seq<ExpandedNodeView>) -> bool
    decreases nodes, 1int,
{
    &&& forall|i: int| 0 <= i < nodes.len() ==> node_is_printable(#[trigger] nodes[i])
    &&& forall|i: int|
        0 <= i < nodes.len() - 1 ==> !(is_plain_node(#[trigger] nodes[i]) && is_plain_node(
            nodes[i + 1],
        ))
}

/// Whether the markup of the node is read as the node: a text that can be
/// the text of a node, or a tag with a name and attributes that can be such,
/// and contents of which the same holds.
pub open spec fn node_is_printable(node: ExpandedNodeView) -> bool
    decreases node, 0int,
{
    match node {
        ExpandedNodeView::Text(text) => is_text(text),
        ExpandedNodeView::Tag(tag) => {
            &&& is_name(tag.name)
            &&& are_attributes(tag.attributes)
            &&& is_printable(tag.contents)
        },
    }
}

/// The nodes as they are read from their markup: each tag with the names of
/// its attributes as they are read.
pub open spec fn normal(nodes: Seq<ExpandedNodeView>) -> Seq<ExpandedNodeView>
    decreases nodes, 1int,
{
    Seq::new(
        nodes.len(),
        |i: int|
            if 0 <= i < nodes.len() {
                normal_node(nodes[i])
            } else {
                arbitrary()
            },
    )
}

/// A node as it is read from its markup.
pub open spec fn normal_node(node: ExpandedNodeView) -> ExpandedNodeView
    decreases node, 0int,
{
    match node {
        ExpandedNodeView::Text(text) => ExpandedNodeView::Text(text),
        ExpandedNodeView::Tag(tag) => ExpandedNodeView::Tag(
            ExpandedTagView {
                name: tag.name,
                attributes: tidied_attributes(tag.attributes),
                contents: normal(tag.contents),
            },
        ),
    }
}

/// Whether the tokens that the nodes are written as are read as the nodes:
/// each text holds no quote and no `#` or is a literal in its quotes, and no
/// two attributes of a tag have the same name.
pub open spec fn is_readable(nodes: Seq<ExpandedNodeView>) -> bool
    decreases nodes, 1int,
{
    forall|i: int| 0 <= i < nodes.len() ==> node_is_readable(#[trigger] nodes[i])
}

/// Whether the tokens that the node is written as are read as the node.
pub open spec fn node_is_readable(node: ExpandedNodeView) -> bool
    decreases node, 0int,
{
    match node {
        ExpandedNodeView::Text(text) => is_literal_free(text) || is_quoted_text(text),
        ExpandedNodeView::Tag(tag) => distinct_keys(tag.attributes) && is_readable(tag.contents),
    }
}

/// The nodes of a tree whose markup is read as it is written are, with the
/// names of their attributes as they are read, nodes whose tokens are read as
/// the nodes.
pub proof fn lemma_normal_is_readable(nodes: Seq<ExpandedNodeView>)
    requires
        is_printable(nodes),
    ensures
        is_readable(normal(nodes)),
    decreases nodes,
{
    assert forall|i: int| 0 <= i < nodes.len() implies node_is_readable(
        #[trigger] normal(nodes)[i],
    ) by {
        assert(node_is_printable(nodes[i]));
        match nodes[i] {
            ExpandedNodeView::Text(text) => {},
            ExpandedNodeView::Tag(tag) => {
                lemma_normal_is_readable(tag.contents);
            },
        }
    }
}

/// The tokens that the attributes are written as, without the braces
/// around them: for each its name, a colon and its literal.
pub open spec fn attribute_tokens(
    attributes: Seq<(Seq<char>, StringLiteralView)>,
    line: usize,
) -> Tokens
    decreases attributes.len(),
{
    if attributes.len() == 0 {
        Seq::empty()
    } else {
        attribute_tokens(attributes.drop_last(), line) + seq![
            (line, TokenView::Text(attributes.last().0)),
            (line, TokenView::Colon),
            (line, TokenView::Stringliteral(attributes.last().1)),
        ]
    }
}

/// The tokens that the nodes are written as, all on the line `line`.
pub open spec fn tokens_of(nodes: Seq<ExpandedNodeView>, line: usize) -> Tokens
    decreases nodes, 1int,
{
    if nodes.len() == 0 {
        Seq::empty()
    } else {
        tokens_of(nodes.subrange(0, nodes.len() - 1), line) + node_tokens(
            nodes[nodes.len() - 1],
            line,
        )
    }
}

/// The tokens that a node is written as, all on the line `line`.
pub open spec fn node_tokens(node: ExpandedNodeView, line: usize) -> Tokens
    decreases node, 0int,
{
    match node {
        ExpandedNodeView::Text(text) => if is_literal_free(text) {
            seq![(line, TokenView::Text(text))]
        } else {
            seq![
                (
                    line,
                    TokenView::Stringliteral(
                        StringLiteralView { quotes: text[0], content: quoted_content(text) },
                    ),
                ),
            ]
        },
        ExpandedNodeView::Tag(tag) => seq![
            (line, TokenView::Colon),
            (line, TokenView::Ident(tag.name)),
            (line, TokenView::OpenBrace),
        ] + attribute_tokens(tag.attributes, line) + seq![
            (line, TokenView::CloseBrace),
            (line, TokenView::OpenBracket),
        ] + tokens_of(tag.contents, line) + seq![(line, TokenView::CloseBracket)],
    }
}

/// The tokens that the scanner would give if the text ended where it
/// stands.
pub open spec fn seen(st: LexState) -> Tokens {
    cleaned(st.tokens.push((st.line as usize, st.current)))
}

/// Whether a text that follows the token starts a token of its own: the
/// token holds no text and asks for no identifier, or it is the empty text.
pub open spec fn is_fresh(token: TokenView) -> bool {
    (token.text().is_none() && !token.creates_ident()) || token == TokenView::empty()
}


/// The lexer reads the markup of a tree as the tokens that the tree is
/// written as, with the names of the attributes as they are read.
pub proof fn lemma_markup_is_read_as_written(nodes: Seq<ExpandedNodeView>)
    requires
        is_printable(nodes),
    ensures
        lexed(tcat_nodes(nodes)) == tokens_of(normal(nodes), 0),
{
    let w = tcat_nodes(nodes);
    let start = LexState::start();
    assert(w.subrange(0, w.len() as int) =~= w);
    let after = lemma_scans_nodes(w, start, nodes);
    assert(after.run(w) == after);
    lemma_cleaned_push(Seq::empty(), (0usize, TokenView::empty()));
    assert(is_blank(Seq::<char>::empty()));
    assert(seen(start) =~= Seq::empty());
    assert(seen(start) + tokens_of(normal(nodes), 0) =~= tokens_of(normal(nodes), 0));
    assert(scanned(w) == after.tokens.push((after.line as usize, after.current)));
}

/// The parser reads the tokens that a tree is written as, as the tree.
pub proof fn lemma_tokens_are_read_as_the_tree(nodes: Seq<ExpandedNodeView>)
    requires
        is_readable(nodes),
    ensures
        parsed(tokens_of(nodes, 0)) == Ok::<Seq<AstNodeView>, ErrorView>(as_ast(nodes)),
{
    lemma_reads_nodes(nodes, 0, None, Seq::empty(), 0);
    assert(tokens_of(nodes, 0) + Seq::<(usize, TokenView)>::empty() =~= tokens_of(nodes, 0));
}

/// The markup of a tree expands to the tree: to render an expanded tree as
/// markup and take the markup through the lexer, the parser and the
/// expansion gives the tree back, with the names of the attributes as they
/// are read: tidied, and with a space before every name but the first of a
/// tag, which stays one space where the name starts with a space.
///
/// This holds of the trees whose markup is read as it is written: each
/// text is tidy and holds no quote and no `#`, or is a literal in its quotes;
/// no two texts without quotes stand next to one another; and the names and
/// literals hold nothing but what the scanner takes as part of them.
pub proof fn lemma_markup_round_trip(nodes: Seq<ExpandedNodeView>)
    requires
        is_printable(nodes),
    ensures
        compiled(tcat_nodes(nodes)) == Ok::<Seq<ExpandedNodeView>, ErrorView>(normal(nodes)),
{
    lemma_markup_is_read_as_written(nodes);
    lemma_normal_is_readable(nodes);
    lemma_tokens_are_read_as_the_tree(normal(nodes));
    lemma_expansion_is_idempotent(normal(nodes), Map::empty(), Map::empty(), MACRO_DEPTH as nat);
}

/// The nodes with every run of texts without quotes made one text, at
/// every level: the markup of such texts, one after the other, is the markup of
/// one text.
pub open spec fn joined(nodes: Seq<ExpandedNodeView>) -> Seq<ExpandedNodeView>
    decreases nodes, 1int,
{
    if nodes.len() == 0 {
        Seq::empty()
    } else {
        let before = joined(nodes.subrange(0, nodes.len() - 1));
        let last = joined_node(nodes[nodes.len() - 1]);
        if before.len() > 0 && is_plain_node(before.last()) && is_plain_node(last) {
            before.drop_last().push(
                ExpandedNodeView::Text(before.last()->Text_0 + last->Text_0),
            )
        } else {
            before.push(last)
        }
    }
}

/// A node with every run of texts without quotes inside it made one text.
pub open spec fn joined_node(node: ExpandedNodeView) -> ExpandedNodeView
    decreases node, 0int,
{
    match node {
        ExpandedNodeView::Text(text) => ExpandedNodeView::Text(text),
        ExpandedNodeView::Tag(tag) => ExpandedNodeView::Tag(
            ExpandedTagView {
                name: tag.name,
                attributes: tag.attributes,
                contents: joined(tag.contents),
            },
        ),
    }
}

/// Whether the texts of every run are joined without a change to the
/// markup: wherever a text without quotes follows another, the encoding of the
/// two as one text is the encoding of the first and then of the second. That
/// is so unless the keyword starts in the one and ends in the other.
pub open spec fn joins_cleanly(nodes: Seq<ExpandedNodeView>) -> bool
    decreases nodes, 1int,
{
    if nodes.len() == 0 {
        true
    } else {
        let before = joined(nodes.subrange(0, nodes.len() - 1));
        let last = nodes[nodes.len() - 1];
        &&& joins_cleanly(nodes.subrange(0, nodes.len() - 1))
        &&& node_joins_cleanly(last)
        &&& before.len() > 0 && is_plain_node(before.last()) && is_plain_node(last) ==> encoded(
            before.last()->Text_0 + last->Text_0,
        ) == encoded(before.last()->Text_0) + encoded(last->Text_0)
    }
}

/// Whether the texts of every run inside the node are joined without a
/// change to the markup.
pub open spec fn node_joins_cleanly(node: ExpandedNodeView) -> bool
    decreases node, 0int,
{
    match node {
        ExpandedNodeView::Text(_) => true,
        ExpandedNodeView::Tag(tag) => joins_cleanly(tag.contents),
    }
}

/// The markup of nodes whose texts are joined without a change to the
/// markup is the markup of the nodes with the texts joined.
pub proof fn lemma_markup_of_joined(nodes: Seq<ExpandedNodeView>)
    requires
        joins_cleanly(nodes),
    ensures
        tcat_nodes(joined(nodes)) == tcat_nodes(nodes),
    decreases nodes, 1int,
{
    if nodes.len() > 0 {
        let n = nodes.len() as int;
        let prefix = nodes.subrange(0, n - 1);
        let before = joined(prefix);
        let last = joined_node(nodes[n - 1]);
        let all = joined(nodes);
        lemma_markup_of_joined(prefix);
        lemma_markup_of_joined_node(nodes[n - 1]);
        if before.len() > 0 && is_plain_node(before.last()) && is_plain_node(last) {
            let m = before.len() as int;
            let first = before.last()->Text_0;
            let second = last->Text_0;
            let head = tcat_nodes(before.drop_last());
            assert(before.subrange(0, m - 1) =~= before.drop_last());
            assert(all.subrange(0, all.len() - 1) =~= before.drop_last());
            assert(before[m - 1] == ExpandedNodeView::Text(first));
            assert(all[all.len() - 1] == ExpandedNodeView::Text(first + second));
            assert(tcat_node(ExpandedNodeView::Text(first)) == encoded(first));
            assert(tcat_node(ExpandedNodeView::Text(first + second)) == encoded(first + second));
            assert(tcat_node(last) == encoded(second));
            assert(tcat_nodes(before) == head + encoded(first));
            assert(tcat_nodes(all) == head + encoded(first + second));
            assert(tcat_nodes(nodes) == tcat_nodes(prefix) + tcat_node(nodes[n - 1]));
            assert(head + (encoded(first) + encoded(second)) =~= head + encoded(first) + encoded(
                second,
            ));
        } else {
            assert(all.subrange(0, all.len() - 1) =~= before);
            assert(tcat_nodes(all) =~= tcat_nodes(nodes));
        }
    }
}

/// The markup of a node whose texts are joined without a change to the
/// markup is the markup of the node with the texts joined.
pub proof fn lemma_markup_of_joined_node(node: ExpandedNodeView)
    requires
        node_joins_cleanly(node),
    ensures
        tcat_node(joined_node(node)) == tcat_node(node),
        is_plain_node(joined_node(node)) == is_plain_node(node),
    decreases node, 0int,
{
    match node {
        ExpandedNodeView::Text(_) => {},
        ExpandedNodeView::Tag(tag) => {
            lemma_markup_of_joined(tag.contents);
        },
    }
}

/// The markup of a tree expands to the tree in its normal form: with every
/// run of texts without quotes made one text, and with the names of the
/// attributes as they are read.
///
/// This holds of the trees whose texts are joined without a change to the
/// markup, and whose markup is read as it is written once they are joined.
pub proof fn lemma_markup_expands_to_normal_form(nodes: Seq<ExpandedNodeView>)
    requires
        joins_cleanly(nodes),
        is_printable(joined(nodes)),
    ensures
        compiled(tcat_nodes(nodes)) == Ok::<Seq<ExpandedNodeView>, ErrorView>(
            normal(joined(nodes)),
        ),
{
    lemma_markup_of_joined(nodes);
    lemma_markup_round_trip(joined(nodes));
}

/// To encode a text and take the encoding through the lexer, the parser
/// and the expansion gives the text back: a tree of one text node that holds
/// the text. The markup of that tree is the encoding again, and its HTML is a
/// document that holds the text, escaped for HTML.
///
/// This holds of every text that can be the text of a node: one that is
/// tidy and holds no quote and no `#`, or a literal in its quotes.
pub proof fn lemma_escape_round_trip(s: Seq<char>)
    requires
        is_text(s),
    ensures
        compiled(encoded(s)) == Ok::<Seq<ExpandedNodeView>, ErrorView>(
            seq![ExpandedNodeView::Text(s)],
        ),
        rendered_by(RendererArg::TeaCat, seq![ExpandedNodeView::Text(s)]) == encoded(s),
        rendered_by(RendererArg::Html, seq![ExpandedNodeView::Text(s)])
            == "<!DOCTYPE html><html>"@ + html_escaped(s) + "</html>"@,
{
    let tree = seq![ExpandedNodeView::Text(s)];
    assert(tree.subrange(0, 0) =~= Seq::empty());
    reveal_with_fuel(tcat_nodes, 2);
    reveal_with_fuel(html_nodes, 2);
    assert(tcat_nodes(tree) =~= encoded(s));
    assert(html_nodes(tree) =~= html_escaped(s));
    assert(node_is_printable(tree[0]));
    lemma_markup_round_trip(tree);
    assert(normal(tree) =~= tree);
}

/// The texts as the text nodes of one level.
pub open spec fn texts(parts: Seq<Seq<char>>) -> Seq<ExpandedNodeView> {
    Seq::new(parts.len(), |i: int| ExpandedNodeView::Text(parts[i]))
}

/// The texts, one after the other, as one text.
pub open spec fn concat(parts: Seq<Seq<char>>) -> Seq<char>
    decreases parts.len(),
{
    if parts.len() == 0 {
        Seq::empty()
    } else {
        concat(parts.drop_last()) + parts.last()
    }
}

/// The encoding of a text that is made of texts without quotes and of
/// literals in their quotes is the markup of those parts as text nodes.
pub proof fn lemma_encoding_of_texts(parts: Seq<Seq<char>>)
    requires
        is_printable(texts(parts)),
    ensures
        encoded(concat(parts)) == tcat_nodes(texts(parts)),
        parts.len() > 0 && !is_literal_free(parts.last()) ==> concat(parts).len() > 0 && is_quote(
            concat(parts)[concat(parts).len() - 1],
        ),
    decreases parts.len(),
{
    let nodes = texts(parts);
    if parts.len() == 0 {
        assert(nodes =~= Seq::empty());
    } else {
        let n = parts.len() as int;
        let before = parts.drop_last();
        let last = parts.last();
        let a = concat(before);
        assert(nodes.subrange(0, n - 1) =~= texts(before));
        assert(is_printable(texts(before))) by {
            assert forall|i: int| 0 <= i < before.len() implies node_is_printable(
                #[trigger] texts(before)[i],
            ) by {
                assert(texts(before)[i] == nodes[i]);
            }
            assert forall|i: int| 0 <= i < before.len() - 1 implies !(is_plain_node(
                #[trigger] texts(before)[i],
            ) && is_plain_node(texts(before)[i + 1])) by {
                assert(texts(before)[i] == nodes[i]);
                assert(texts(before)[i + 1] == nodes[i + 1]);
            }
        }
        lemma_encoding_of_texts(before);
        assert(node_is_printable(nodes[n - 1]));
        assert(is_text(last));
        assert(meet_at_quote(a, last)) by {
            if before.len() > 0 && is_literal_free(last) {
                assert(!(is_plain_node(nodes[n - 2]) && is_plain_node(nodes[n - 2 + 1])));
                assert(nodes[n - 2] == ExpandedNodeView::Text(before.last()));
            }
        }
        lemma_encoding_of_parts(a, last);
        assert(tcat_node(nodes[n - 1]) == encoded(last));
        if !is_literal_free(last) {
            assert((a + last)[(a + last).len() - 1] == last[last.len() - 1]);
        }
    }
}

/// To encode a text and take the encoding through the lexer, the parser
/// and the expansion gives the text back in parts: text nodes that hold, one
/// after the other, the text.
///
/// This holds of every text whose quotes stand in pairs, that is one made of
/// parts, each a tidy text without quote and `#` or a literal in its quotes,
/// no two texts without quotes one after the other.
pub proof fn lemma_escape_round_trip_of_parts(parts: Seq<Seq<char>>)
    requires
        is_printable(texts(parts)),
    ensures
        compiled(encoded(concat(parts))) == Ok::<Seq<ExpandedNodeView>, ErrorView>(texts(parts)),
{
    lemma_encoding_of_texts(parts);
    lemma_markup_round_trip(texts(parts));
    assert(normal(texts(parts)) =~= texts(parts));
}

} // verus!
