//! How the scanner reads the markup of a tree.

use crate::escaping::{is_literal_free, is_marked, lemma_encoding_at, lemma_is_marked};
use crate::expanded::renderer::tcat::{
    tcat_attributes, tcat_entries, tcat_node, tcat_nodes, tcat_tag,
};
use crate::expanded::{ExpandedNodeView, ExpandedTagView};
use crate::lexer::{
    cleaned, is_quote, lemma_cleaned_push, lemma_rule_lengths, LexState, StringLiteralView,
    TokenView,
};
use crate::round_trip::runs::{
    is_stop, lemma_bare_run_is_inert, lemma_encoded_char, lemma_scans_encoded, lemma_scans_literal,
    lemma_scans_quoted, lemma_scans_run,
};
use crate::round_trip::steps::{
    is_inert_at, lemma_step_appends, lemma_step_closes_literal, lemma_step_operator,
    lemma_step_opens, lemma_step_opens_literal, lemma_steps_escaped, lemma_steps_escaped_open,
};
use crate::round_trip::{
    are_attributes, attribute_tokens, is_fresh, is_key, is_name, is_plain_node, is_plain_text,
    is_printable, is_quoted_text, is_value, normal, normal_node, quoted_content,
    tidied_attributes, tidied_name,
    node_is_printable, node_tokens, seen, tokens_of,
};
use crate::text::{
    is_blank, is_whitespace, tidy, lemma_tidy_leaves_spaces, lemma_tidy_without_white_space, starts_with_at,
};
use crate::encoded;
use vstd::prelude::*;

verus! {

/// Where two texts stand in `w` one after the other, each of them stands
/// there.
pub proof fn lemma_stands_in_parts(w: Seq<char>, at: int, first: Seq<char>, second: Seq<char>)
    requires
        starts_with_at(w, at, first + second),
    ensures
        starts_with_at(w, at, first),
        starts_with_at(w, at + first.len(), second),
{
    let whole = w.subrange(at, at + (first + second).len());
    assert(w.subrange(at, at + first.len()) =~= first) by {
        assert forall|i: int| 0 <= i < first.len() implies w[at + i] == first[i] by {
            assert(whole[i] == (first + second)[i]);
        }
    }
    assert(w.subrange(at + first.len(), at + first.len() + second.len()) =~= second) by {
        assert forall|i: int| 0 <= i < second.len() implies w[at + first.len() + i]
            == second[i] by {
            assert(whole[first.len() + i] == (first + second)[first.len() + i]);
        }
    }
}

/// The scanner reads the encoding of a text as a token of its own, where
/// it follows a token that lets a text start anew.
pub proof fn lemma_scans_text(w: Seq<char>, st: LexState, t: Seq<char>) -> (after: LexState)
    requires
        0 <= st.pos,
        starts_with_at(w, st.pos, encoded(t)),
        is_stop(w, st.pos + encoded(t).len()),
        st.depth == 0,
        !st.escaped,
        is_fresh(st.current),
        is_plain_text(t),
    ensures
        st.run(w) == after.run(w),
        after.pos == st.pos + encoded(t).len(),
        after.depth == 0,
        !after.escaped,
        after.line == st.line,
        after.current == TokenView::Text(t),
        seen(after) == seen(st) + seq![(st.line as usize, TokenView::Text(t))],
{
    let line = st.line as usize;
    lemma_tidy_leaves_spaces(t);
    assert(t.len() > 0);
    let fresh = if st.current == TokenView::empty() {
        st
    } else {
        LexState {
            tokens: st.tokens.push((line, st.current)),
            current: TokenView::empty(),
            ..st
        }
    };
    if st.current != TokenView::empty() {
        // The first character opens the text.
        lemma_encoded_char(w, st.pos, t, 0);
        assert(encoded(t).len() >= 1);
        if is_marked(t, 0) {
            lemma_steps_escaped_open(w, st);
            lemma_steps_escaped(w, fresh);
            assert(Seq::<char>::empty().push(t[0]) =~= seq![t[0]]);
            assert(st.step(w).step(w) == fresh.step(w).step(w));
            assert(st.run(w) == st.step(w).run(w));
            assert(st.step(w).run(w) == st.step(w).step(w).run(w));
            assert(fresh.run(w) == fresh.step(w).run(w));
            assert(fresh.step(w).run(w) == fresh.step(w).step(w).run(w));
        } else {
            lemma_step_opens(w, st);
            lemma_step_appends(w, fresh);
            assert(Seq::<char>::empty().push(t[0]) =~= seq![t[0]]);
            assert(st.step(w) == fresh.step(w));
        }
        lemma_cleaned_push(fresh.tokens, (line, TokenView::empty()));
    }
    assert(st.run(w) == fresh.run(w));
    assert(seen(fresh) == seen(st)) by {
        lemma_cleaned_push(fresh.tokens, (line, TokenView::empty()));
        assert(is_blank(Seq::<char>::empty()));
    }
    let after = lemma_scans_encoded(w, fresh, t);
    assert(Seq::<char>::empty() + t =~= t);
    lemma_cleaned_push(fresh.tokens, (line, TokenView::Text(t)));
    lemma_cleaned_push(fresh.tokens, (line, TokenView::empty()));
    assert(seen(after) =~= seen(st) + seq![(line, TokenView::Text(t))]);
    after
}


/// The scanner reads the encoding of a text that is a literal in its quotes
/// as the literal, and has an empty text in progress behind it.
pub proof fn lemma_scans_quoted_text(w: Seq<char>, st: LexState, t: Seq<char>) -> (after:
    LexState)
    requires
        0 <= st.pos,
        starts_with_at(w, st.pos, encoded(t)),
        st.depth == 0,
        !st.escaped,
        !(st.current is Stringliteral),
        is_quoted_text(t),
    ensures
        st.run(w) == after.run(w),
        after.pos == st.pos + encoded(t).len(),
        after.depth == 0,
        !after.escaped,
        after.line == st.line,
        after.current == TokenView::empty(),
        seen(after) == seen(st) + seq![
            (
                st.line as usize,
                TokenView::Stringliteral(
                    StringLiteralView { quotes: t[0], content: quoted_content(t) },
                ),
            ),
        ],
{
    let line = st.line as usize;
    let content = quoted_content(t);
    let literal = TokenView::Stringliteral(StringLiteralView { quotes: t[0], content });
    lemma_tidy_leaves_spaces(content);
    assert forall|i: int| 1 <= i < t.len() - 1 implies #[trigger] t[i] != t[0] && t[i] != '#'
        && t[i] != '\n' by {
        assert(content[i - 1] == t[i]);
    }
    let after = lemma_scans_quoted(w, st, t);
    let t0 = st.tokens.push((line, st.current));
    lemma_cleaned_push(t0, (line, literal));
    lemma_cleaned_push(t0.push((line, literal)), (line, TokenView::empty()));
    assert(is_blank(Seq::<char>::empty()));
    assert(seen(after) =~= seen(st) + seq![(line, literal)]);
    after
}

/// The character at index `j` of a text that stands in `w`.
pub proof fn lemma_char_at(w: Seq<char>, at: int, piece: Seq<char>, j: int)
    requires
        starts_with_at(w, at, piece),
        0 <= j < piece.len(),
    ensures
        at + j < w.len(),
        w[at + j] == piece[j],
{
    assert(w.subrange(at, at + piece.len())[j] == w[at + j]);
}

/// The scanner reads the name of an attribute, behind an opening brace, as
/// a text.
proof fn lemma_scans_key(w: Seq<char>, st: LexState, key: Seq<char>) -> (after: LexState)
    requires
        0 <= st.pos,
        starts_with_at(w, st.pos, key + seq![':']),
        st.depth == 0,
        !st.escaped,
        st.current == TokenView::OpenBrace,
        is_key(key),
    ensures
        st.run(w) == after.run(w),
        after == (LexState {
            tokens: st.tokens.push((st.line as usize, st.current)),
            current: TokenView::Text(key),
            pos: st.pos + key.len(),
            ..st
        }),
{
    let at = st.pos;
    let n = key.len() as int;
    assert(n > 0);
    lemma_stands_in_parts(w, at, key, seq![':']);
    lemma_char_at(w, at + n, seq![':'], 0);
    lemma_char_at(w, at, key, 0);
    lemma_bare_run_is_inert(w, at, key);
    lemma_step_opens(w, st);
    let named = st.step(w);
    assert(st.run(w) == named.run(w));
    let rest = key.subrange(1, n);
    assert(w.subrange(at + 1, at + n) =~= rest) by {
        assert forall|j: int| 0 <= j < rest.len() implies w[at + 1 + j] == rest[j] by {
            lemma_char_at(w, at, key, 1 + j);
        }
    }
    let after = lemma_scans_run(w, named, rest);
    assert(seq![key[0]] + rest =~= key);
    after
}

/// The scanner reads a colon, a literal in its quotes and a space as the
/// colon, the literal and a blank text.
proof fn lemma_scans_value(w: Seq<char>, st: LexState, value: StringLiteralView) -> (after:
    LexState)
    requires
        0 <= st.pos,
        starts_with_at(
            w,
            st.pos,
            seq![':', value.quotes] + value.content + seq![value.quotes, ' '],
        ),
        st.depth == 0,
        !st.escaped,
        !(st.current is Stringliteral),
        is_value(value),
    ensures
        st.run(w) == after.run(w),
        after == (LexState {
            tokens: st.tokens.push((st.line as usize, st.current)).push(
                (st.line as usize, TokenView::Colon),
            ).push((st.line as usize, TokenView::Stringliteral(value))),
            current: TokenView::Text(seq![' ']),
            pos: st.pos + value.content.len() + 4,
            ..st
        }),
{
    let at = st.pos;
    let quotes = value.quotes;
    let content = value.content;
    let m = content.len() as int;
    let piece = seq![':', quotes] + content + seq![quotes, ' '];
    lemma_tidy_leaves_spaces(content);
    lemma_char_at(w, at, piece, 0);
    lemma_char_at(w, at, piece, 1);
    lemma_char_at(w, at, piece, 2 + m);
    lemma_char_at(w, at, piece, 3 + m);
    lemma_step_operator(w, st, TokenView::Colon);
    let split = st.step(w);
    assert(st.run(w) == split.run(w));
    lemma_step_opens_literal(w, split);
    let quoted = split.step(w);
    assert(split.run(w) == quoted.run(w));
    assert(w.subrange(at + 2, at + 2 + m) =~= content) by {
        assert forall|j: int| 0 <= j < m implies w[at + 2 + j] == content[j] by {
            lemma_char_at(w, at, piece, 2 + j);
        }
    }
    let filled = lemma_scans_literal(w, quoted, content);
    assert(Seq::<char>::empty() + content =~= content);
    assert(filled.current == TokenView::Stringliteral(value));
    lemma_step_closes_literal(w, filled);
    let closed = filled.step(w);
    assert(filled.run(w) == closed.run(w));
    assert(is_inert_at(w, at + 3 + m)) by {
        if starts_with_at(w, at + 3 + m, seq!['m', 'a', 'c', 'r']) {
            assert(w.subrange(at + 3 + m, at + 7 + m)[0] == 'm');
        }
    }
    lemma_step_appends(w, closed);
    let after = closed.step(w);
    assert(closed.run(w) == after.run(w));
    assert(Seq::<char>::empty().push(' ') =~= seq![' ']);
    after
}

/// The markup of some attributes is the markup of all but the last, and
/// then the name of the last, a colon, its literal in its quotes and a space.
pub proof fn lemma_markup_of_entries(attributes: Seq<(Seq<char>, StringLiteralView)>)
    requires
        attributes.len() > 0,
    ensures
        tcat_entries(attributes) == tcat_entries(attributes.drop_last()) + attributes.last().0
            + (seq![':', attributes.last().1.quotes] + attributes.last().1.content + seq![
            attributes.last().1.quotes,
            ' ',
        ]),
{
    lemma_rule_lengths();
    reveal_strlit(" ");
    assert(" "@ =~= seq![' ']);
    let value = attributes.last().1;
    assert(tcat_entries(attributes) =~= tcat_entries(attributes.drop_last()) + attributes.last().0
        + (seq![':', value.quotes] + value.content + seq![value.quotes, ' ']));
}

/// Attributes that can be such are so without the last of them too.
proof fn lemma_attributes_but_last(attributes: Seq<(Seq<char>, StringLiteralView)>)
    requires
        attributes.len() > 0,
        are_attributes(attributes),
    ensures
        are_attributes(attributes.drop_last()),
        is_value(attributes.last().1),
        is_key(attributes.last().0),
        tidied_attributes(attributes).drop_last() == tidied_attributes(attributes.drop_last()),
        tidied_attributes(attributes).last() == (
            tidied_name(attributes.len() - 1, attributes.last().0),
            attributes.last().1,
        ),
{
    let before = attributes.drop_last();
    let all = tidied_attributes(attributes);
    assert(attributes.last() == attributes[attributes.len() - 1]);
    assert(all.drop_last() =~= tidied_attributes(before));
    assert forall|i: int| 0 <= i < before.len() implies is_key((#[trigger] before[i]).0)
        && is_value(before[i].1) by {
        assert(before[i] == attributes[i]);
    }
    assert forall|i: int, j: int| 0 <= i < j < before.len() implies (#[trigger] tidied_attributes(
        before,
    )[i]).0 != (#[trigger] tidied_attributes(before)[j]).0 by {
        assert(tidied_attributes(before)[i] == all[i]);
        assert(tidied_attributes(before)[j] == all[j]);
    }
}

/// The scanner reads the name of an attribute as a text: a text of its own
/// behind the opening brace, or the blank text behind the attribute before
/// it with the name added.
proof fn lemma_scans_entry_key(w: Seq<char>, st: LexState, key: Seq<char>) -> (after: LexState)
    requires
        0 <= st.pos,
        starts_with_at(w, st.pos, key + seq![':']),
        st.depth == 0,
        !st.escaped,
        st.current == TokenView::OpenBrace || st.current == TokenView::Text(seq![' ']),
        is_key(key),
    ensures
        st.run(w) == after.run(w),
        after.pos == st.pos + key.len(),
        after.depth == 0,
        !after.escaped,
        after.line == st.line,
        !(after.current is Stringliteral),
        cleaned(after.tokens.push((st.line as usize, after.current))) == cleaned(
            st.tokens.push((st.line as usize, st.current)),
        ).push(
            (
                st.line as usize,
                TokenView::Text(
                    if st.current == TokenView::OpenBrace {
                        tidy(key)
                    } else {
                        tidy(seq![' '] + key)
                    },
                ),
            ),
        ),
{
    let line = st.line as usize;
    let n = key.len() as int;
    if st.current == TokenView::OpenBrace {
        let after = lemma_scans_key(w, st, key);
        lemma_cleaned_push(st.tokens.push((line, st.current)), (line, TokenView::Text(key)));
        after
    } else {
        lemma_stands_in_parts(w, st.pos, key, seq![':']);
        lemma_char_at(w, st.pos + n, seq![':'], 0);
        lemma_bare_run_is_inert(w, st.pos, key);
        let after = lemma_scans_run(w, st, key);
        assert(after.current == TokenView::Text(seq![' '] + key));
        assert(!is_blank(seq![' '] + key)) by {
            let i = choose|i: int| 0 <= i < key.len() && !is_whitespace(key[i]);
            assert((seq![' '] + key)[i + 1] == key[i]);
        }
        assert(is_blank(seq![' ']));
        lemma_cleaned_push(st.tokens, (line, TokenView::Text(seq![' '] + key)));
        lemma_cleaned_push(st.tokens, (line, st.current));
        after
    }
}

/// The scanner reads the attributes of a block, behind its opening brace,
/// as their names, colons and literals, with a blank text in progress behind
/// the last.
proof fn lemma_scans_entries(
    w: Seq<char>,
    st: LexState,
    attributes: Seq<(Seq<char>, StringLiteralView)>,
) -> (after: LexState)
    requires
        0 <= st.pos,
        starts_with_at(w, st.pos, tcat_entries(attributes)),
        st.depth == 0,
        !st.escaped,
        st.current == TokenView::OpenBrace,
        are_attributes(attributes),
    ensures
        st.run(w) == after.run(w),
        after.pos == st.pos + tcat_entries(attributes).len(),
        after.depth == 0,
        !after.escaped,
        after.line == st.line,
        attributes.len() == 0 ==> after == st,
        attributes.len() > 0 ==> after.current == TokenView::Text(seq![' ']) && cleaned(
            after.tokens,
        ) == seen(st) + attribute_tokens(tidied_attributes(attributes), st.line as usize),
    decreases attributes.len(),
{
    let line = st.line as usize;
    if attributes.len() == 0 {
        st
    } else {
        let before = attributes.drop_last();
        let key = attributes.last().0;
        let value = attributes.last().1;
        let n = key.len() as int;
        let tail = seq![':', value.quotes] + value.content + seq![value.quotes, ' '];
        let first = tcat_entries(before);
        lemma_markup_of_entries(attributes);
        assert(attributes.last() == attributes[attributes.len() - 1]);
        lemma_attributes_but_last(attributes);
        assert(tcat_entries(attributes) =~= first + (key + tail));
        lemma_stands_in_parts(w, st.pos, first, key + tail);
        let at = st.pos + first.len();
        lemma_stands_in_parts(w, at, key, tail);
        lemma_char_at(w, at + n, tail, 0);
        let middle = lemma_scans_entries(w, st, before);
        assert(starts_with_at(w, at, key + seq![':'])) by {
            assert forall|j: int| 0 <= j < n + 1 implies w[at + j] == (key + seq![':'])[j] by {
                if j < n {
                    lemma_char_at(w, at, key, j);
                }
            }
            assert(w.subrange(at, at + n + 1) =~= key + seq![':']);
        }
        let keyed = lemma_scans_entry_key(w, middle, key);
        let after = lemma_scans_value(w, keyed, value);
        // The tokens.
        let t1 = keyed.tokens.push((line, keyed.current));
        let t2 = t1.push((line, TokenView::Colon));
        lemma_cleaned_push(t1, (line, TokenView::Colon));
        lemma_cleaned_push(t2, (line, TokenView::Stringliteral(value)));
        if before.len() == 0 {
            assert(attribute_tokens(tidied_attributes(before), line) =~= Seq::empty());
        } else {
            assert(is_blank(seq![' ']));
            lemma_cleaned_push(middle.tokens, (line, middle.current));
        }
        assert(cleaned(after.tokens) =~= seen(st) + attribute_tokens(
            tidied_attributes(attributes),
            line,
        ));
        after
    }
}

/// The scanner reads an attribute block as its braces and, between them,
/// the names, colons and literals of the attributes.
pub proof fn lemma_scans_attributes(
    w: Seq<char>,
    st: LexState,
    attributes: Seq<(Seq<char>, StringLiteralView)>,
) -> (after: LexState)
    requires
        0 <= st.pos,
        starts_with_at(w, st.pos, tcat_attributes(attributes)),
        st.depth == 0,
        !st.escaped,
        !(st.current is Stringliteral),
        are_attributes(attributes),
    ensures
        st.run(w) == after.run(w),
        after.pos == st.pos + tcat_attributes(attributes).len(),
        after.depth == 0,
        !after.escaped,
        after.line == st.line,
        after.current == TokenView::CloseBrace,
        seen(after) == seen(st) + seq![(st.line as usize, TokenView::OpenBrace)] + attribute_tokens(
            tidied_attributes(attributes),
            st.line as usize,
        ) + seq![(st.line as usize, TokenView::CloseBrace)],
{
    let line = st.line as usize;
    let at = st.pos;
    let entries = tcat_entries(attributes);
    lemma_rule_lengths();
    assert(tcat_attributes(attributes) =~= seq!['{'] + (entries + seq!['}']));
    lemma_stands_in_parts(w, at, seq!['{'], entries + seq!['}']);
    lemma_stands_in_parts(w, at + 1, entries, seq!['}']);
    lemma_char_at(w, at, seq!['{'], 0);
    lemma_char_at(w, at + 1 + entries.len(), seq!['}'], 0);
    lemma_step_operator(w, st, TokenView::OpenBrace);
    let opened = st.step(w);
    assert(st.run(w) == opened.run(w));
    let listed = lemma_scans_entries(w, opened, attributes);
    lemma_step_operator(w, listed, TokenView::CloseBrace);
    let after = listed.step(w);
    assert(listed.run(w) == after.run(w));
    // The tokens.
    let t0 = st.tokens.push((line, st.current));
    lemma_cleaned_push(t0, (line, TokenView::OpenBrace));
    lemma_cleaned_push(listed.tokens, (line, listed.current));
    lemma_cleaned_push(listed.tokens.push((line, listed.current)), (line, TokenView::CloseBrace));
    assert(is_blank(seq![' ']));
    if attributes.len() == 0 {
        assert(attribute_tokens(tidied_attributes(attributes), line) =~= Seq::empty());
    }
    assert(seen(after) =~= seen(st) + seq![(line, TokenView::OpenBrace)] + attribute_tokens(
        tidied_attributes(attributes),
        line,
    ) + seq![(line, TokenView::CloseBrace)]);
    after
}

/// The scanner reads the name of a tag, behind its colon, as an
/// identifier.
proof fn lemma_scans_name(w: Seq<char>, st: LexState, name: Seq<char>) -> (after: LexState)
    requires
        0 <= st.pos,
        starts_with_at(w, st.pos, name + seq!['{']),
        st.depth == 0,
        !st.escaped,
        st.current == TokenView::Colon,
        is_name(name),
    ensures
        st.run(w) == after.run(w),
        after == (LexState {
            tokens: st.tokens.push((st.line as usize, st.current)),
            current: TokenView::Ident(name),
            pos: st.pos + name.len(),
            ..st
        }),
{
    let at = st.pos;
    let n = name.len() as int;
    lemma_stands_in_parts(w, at, name, seq!['{']);
    lemma_char_at(w, at + n, seq!['{'], 0);
    lemma_char_at(w, at, name, 0);
    lemma_bare_run_is_inert(w, at, name);
    assert(!is_whitespace(name[0]));
    lemma_step_opens(w, st);
    let named = st.step(w);
    assert(st.run(w) == named.run(w));
    let rest = name.subrange(1, n);
    assert(w.subrange(at + 1, at + n) =~= rest) by {
        assert forall|j: int| 0 <= j < rest.len() implies w[at + 1 + j] == rest[j] by {
            lemma_char_at(w, at, name, 1 + j);
        }
    }
    assert forall|i: int| 0 <= i < rest.len() implies !is_whitespace(rest[i]) by {
        assert(rest[i] == name[i + 1]);
    }
    let after = lemma_scans_run(w, named, rest);
    assert(seq![name[0]] + rest =~= name);
    after
}

/// The markup of a tag up to and with its opening bracket.
pub open spec fn opening_of(tag: ExpandedTagView) -> Seq<char> {
    seq![':'] + tag.name + tcat_attributes(tag.attributes) + seq!['[']
}

/// The markup of a tag is its opening, the markup of its contents and the
/// closing bracket.
pub proof fn lemma_markup_of_tag(tag: ExpandedTagView)
    ensures
        tcat_tag(tag) == opening_of(tag) + tcat_nodes(tag.contents) + seq![']'],
        tcat_node(ExpandedNodeView::Tag(tag)) == tcat_tag(tag),
{
    lemma_rule_lengths();
    assert(tcat_tag(tag) =~= opening_of(tag) + tcat_nodes(tag.contents) + seq![']']);
}

/// The scanner reads the opening of a tag as a colon, the name, the
/// attribute block and the opening bracket.
proof fn lemma_scans_opening(w: Seq<char>, st: LexState, tag: ExpandedTagView) -> (after: LexState)
    requires
        0 <= st.pos,
        starts_with_at(w, st.pos, opening_of(tag)),
        st.depth == 0,
        !st.escaped,
        !(st.current is Stringliteral),
        is_name(tag.name),
        are_attributes(tag.attributes),
    ensures
        st.run(w) == after.run(w),
        after.pos == st.pos + opening_of(tag).len(),
        after.depth == 0,
        !after.escaped,
        after.line == st.line,
        after.current == TokenView::OpenBracket,
        seen(after) == seen(st) + seq![
            (st.line as usize, TokenView::Colon),
            (st.line as usize, TokenView::Ident(tag.name)),
            (st.line as usize, TokenView::OpenBrace),
        ] + attribute_tokens(tidied_attributes(tag.attributes), st.line as usize) + seq![
            (st.line as usize, TokenView::CloseBrace),
            (st.line as usize, TokenView::OpenBracket),
        ],
{
    let line = st.line as usize;
    let at = st.pos;
    let name = tag.name;
    let n = name.len() as int;
    let block = tcat_attributes(tag.attributes);
    let b = block.len() as int;
    let piece = opening_of(tag);
    lemma_rule_lengths();
    assert(block =~= seq!['{'] + (tcat_entries(tag.attributes) + seq!['}']));
    assert(block[0] == '{');
    assert(piece =~= seq![':'] + (name + (block + seq!['['])));
    lemma_stands_in_parts(w, at, seq![':'], name + (block + seq!['[']));
    lemma_stands_in_parts(w, at + 1, name, block + seq!['[']);
    lemma_stands_in_parts(w, at + 1 + n, block, seq!['[']);
    lemma_char_at(w, at, seq![':'], 0);
    lemma_char_at(w, at + 1, name, 0);
    lemma_char_at(w, at + 1 + n, block, 0);
    lemma_char_at(w, at + 1 + n + b, seq!['['], 0);
    // The colon.
    lemma_step_operator(w, st, TokenView::Colon);
    let colon = st.step(w);
    assert(st.run(w) == colon.run(w));
    // The name.
    assert(starts_with_at(w, at + 1, name + seq!['{'])) by {
        assert forall|j: int| 0 <= j < n + 1 implies w[at + 1 + j] == (name + seq!['{'])[j] by {
            if j < n {
                lemma_char_at(w, at + 1, name, j);
            }
        }
        assert(w.subrange(at + 1, at + 1 + n + 1) =~= name + seq!['{']);
    }
    let named = lemma_scans_name(w, colon, name);
    // The attributes and the bracket.
    let described = lemma_scans_attributes(w, named, tag.attributes);
    lemma_step_operator(w, described, TokenView::OpenBracket);
    let after = described.step(w);
    assert(described.run(w) == after.run(w));
    // The tokens.
    lemma_tidy_without_white_space(name);
    let t0 = st.tokens.push((line, st.current));
    let t1 = t0.push((line, TokenView::Colon));
    lemma_cleaned_push(t0, (line, TokenView::Colon));
    lemma_cleaned_push(t1, (line, TokenView::Ident(name)));
    assert(seen(named) == seen(st).push((line, TokenView::Colon)).push(
        (line, TokenView::Ident(name)),
    ));
    lemma_cleaned_push(described.tokens.push((line, TokenView::CloseBrace)), (line, TokenView::OpenBracket));
    assert(seen(after) == seen(described).push((line, TokenView::OpenBracket)));
    assert(seen(after) =~= seen(st) + seq![
        (line, TokenView::Colon),
        (line, TokenView::Ident(name)),
        (line, TokenView::OpenBrace),
    ] + attribute_tokens(tidied_attributes(tag.attributes), line) + seq![
        (line, TokenView::CloseBrace),
        (line, TokenView::OpenBracket),
    ]);
    after
}

/// The first character of the markup of a node that is no text without
/// quotes: a colon or a quote.
proof fn lemma_first_of_markup(node: ExpandedNodeView)
    requires
        node_is_printable(node),
        !is_plain_node(node),
    ensures
        tcat_node(node).len() > 0,
        tcat_node(node)[0] == ':' || is_quote(tcat_node(node)[0]),
{
    match node {
        ExpandedNodeView::Text(text) => {
            lemma_encoding_at(text, 0);
            lemma_is_marked(text, 0);
            if starts_with_at(text, 0, seq!['m', 'a', 'c', 'r']) {
                assert(text.subrange(0, 4)[0] == 'm');
            }
        },
        ExpandedNodeView::Tag(tag) => {
            lemma_markup_of_tag(tag);
        },
    }
}

/// The scanner reads the markup of a node as the tokens of the node.
///
/// A text without quotes must follow a token that lets a text start anew,
/// and be followed by a stop; a tag and a literal may stand anywhere outside
/// a literal.
pub proof fn lemma_scans_node(w: Seq<char>, st: LexState, node: ExpandedNodeView) -> (after:
    LexState)
    requires
        0 <= st.pos,
        starts_with_at(w, st.pos, tcat_node(node)),
        st.depth == 0,
        !st.escaped,
        node_is_printable(node),
        is_plain_node(node) ==> is_fresh(st.current) && is_stop(
            w,
            st.pos + tcat_node(node).len(),
        ),
        !is_plain_node(node) ==> !(st.current is Stringliteral),
    ensures
        st.run(w) == after.run(w),
        after.pos == st.pos + tcat_node(node).len(),
        after.depth == 0,
        !after.escaped,
        after.line == st.line,
        !(after.current is Stringliteral),
        !is_plain_node(node) ==> is_fresh(after.current),
        seen(after) == seen(st) + node_tokens(normal_node(node), st.line as usize),
    decreases node, 0int,
{
    let line = st.line as usize;
    match node {
        ExpandedNodeView::Text(text) => {
            if is_literal_free(text) {
                assert(is_plain_text(text)) by {
                    if is_quoted_text(text) {
                        assert(is_quote(text[0]));
                    }
                }
                lemma_scans_text(w, st, text)
            } else {
                lemma_scans_quoted_text(w, st, text)
            }
        },
        ExpandedNodeView::Tag(tag) => {
            let at = st.pos;
            let opening = opening_of(tag);
            let body = tcat_nodes(tag.contents);
            lemma_markup_of_tag(tag);
            assert(tcat_node(node) =~= opening + (body + seq![']']));
            lemma_stands_in_parts(w, at, opening, body + seq![']']);
            lemma_stands_in_parts(w, at + opening.len(), body, seq![']']);
            lemma_char_at(w, at + opening.len() + body.len(), seq![']'], 0);
            let opened = lemma_scans_opening(w, st, tag);
            let filled = lemma_scans_nodes(w, opened, tag.contents);
            lemma_step_operator(w, filled, TokenView::CloseBracket);
            let after = filled.step(w);
            assert(filled.run(w) == after.run(w));
            lemma_cleaned_push(
                filled.tokens.push((line, filled.current)),
                (line, TokenView::CloseBracket),
            );
            assert(seen(after) =~= seen(st) + node_tokens(normal_node(node), line));
            after
        },
    }
}

/// The scanner reads the markup of the nodes of one level as the tokens of
/// the nodes.
///
/// The nodes must follow a token that lets a text start anew, and where the
/// last of them is a text without quotes, a stop must follow.
pub proof fn lemma_scans_nodes(w: Seq<char>, st: LexState, nodes: Seq<ExpandedNodeView>) -> (after:
    LexState)
    requires
        0 <= st.pos,
        starts_with_at(w, st.pos, tcat_nodes(nodes)),
        st.depth == 0,
        !st.escaped,
        is_fresh(st.current),
        is_printable(nodes),
        nodes.len() > 0 && is_plain_node(nodes.last()) ==> is_stop(
            w,
            st.pos + tcat_nodes(nodes).len(),
        ),
    ensures
        st.run(w) == after.run(w),
        after.pos == st.pos + tcat_nodes(nodes).len(),
        after.depth == 0,
        !after.escaped,
        after.line == st.line,
        !(after.current is Stringliteral),
        nodes.len() == 0 ==> after == st,
        nodes.len() > 0 && !is_plain_node(nodes.last()) ==> is_fresh(after.current),
        seen(after) == seen(st) + tokens_of(normal(nodes), st.line as usize),
    decreases nodes, 1int,
{
    let line = st.line as usize;
    if nodes.len() == 0 {
        assert(normal(nodes) =~= Seq::empty());
        assert(seen(st) + tokens_of(normal(nodes), line) =~= seen(st));
        st
    } else {
        let n = nodes.len() as int;
        let before = nodes.subrange(0, n - 1);
        let last = nodes[n - 1];
        let first = tcat_nodes(before);
        let second = tcat_node(last);
        assert(node_is_printable(last));
        assert(is_printable(before)) by {
            assert forall|i: int| 0 <= i < before.len() implies node_is_printable(
                #[trigger] before[i],
            ) by {
                assert(before[i] == nodes[i]);
            }
            assert forall|i: int| 0 <= i < before.len() - 1 implies !(is_plain_node(
                #[trigger] before[i],
            ) && is_plain_node(before[i + 1])) by {
                assert(before[i] == nodes[i]);
                assert(before[i + 1] == nodes[i + 1]);
            }
        }
        lemma_stands_in_parts(w, st.pos, first, second);
        if before.len() > 0 {
            assert(before.last() == nodes[n - 2]);
            assert(!(is_plain_node(nodes[n - 2]) && is_plain_node(nodes[n - 2 + 1])));
            if is_plain_node(before.last()) {
                lemma_first_of_markup(last);
                lemma_char_at(w, st.pos + first.len(), second, 0);
            }
        }
        let middle = lemma_scans_nodes(w, st, before);
        let after = lemma_scans_node(w, middle, last);
        assert(normal(nodes).subrange(0, n - 1) =~= normal(before));
        assert(normal(nodes)[n - 1] == normal_node(last));
        assert(seen(after) =~= seen(st) + tokens_of(normal(nodes), line));
        after
    }
}

} // verus!
