//! Single steps of the scanner, by what stands at its place.

use crate::escaping::lemma_one_char;
use crate::lexer::{
    escape_rules, is_quote, keys_of, lemma_rule_lengths, operator_rules, LexState,
    StringLiteralView, TokenView,
};
use crate::text::{first_match, is_whitespace, lemma_first_match, starts_with_at};
use vstd::prelude::*;

verus! {

/// Whether the scanner is between constructs: outside every comment and
/// not behind a backslash.
pub open spec fn is_ready(st: LexState, w: Seq<char>) -> bool {
    &&& 0 <= st.pos < w.len()
    &&& st.depth == 0
    &&& !st.escaped
}

/// Whether the character at index `i` of `w` is taken as it stands: it is
/// no quote, no line feed, no backslash and no `#`, and neither a comment nor
/// an operator or keyword starts at it.
pub open spec fn is_inert_at(w: Seq<char>, i: int) -> bool {
    &&& 0 <= i < w.len()
    &&& !is_quote(w[i])
    &&& w[i] != '\n'
    &&& w[i] != '\\'
    &&& w[i] != '#'
    &&& !(w[i] == '<' && i + 1 < w.len() && w[i + 1] == '#')
    &&& w[i] != '[' && w[i] != ']' && w[i] != '{' && w[i] != '}'
    &&& w[i] != ':' && w[i] != ';' && w[i] != '&' && w[i] != '@'
    &&& !starts_with_at(w, i, seq!['m', 'a', 'c', 'r'])
}

/// At an inert character no operator or keyword is found.
pub proof fn lemma_inert_is_no_operator(w: Seq<char>, i: int)
    requires
        is_inert_at(w, i),
    ensures
        first_match(keys_of(operator_rules()), w, i).is_none(),
        !starts_with_at(w, i, "\n"@),
        !starts_with_at(w, i, "\\"@),
        !starts_with_at(w, i, "<#"@),
        !starts_with_at(w, i, "#"@),
{
    lemma_rule_lengths();
    let keys = keys_of(operator_rules());
    lemma_first_match(keys, w, i, 0);
    lemma_one_char(w, i, '\n');
    lemma_one_char(w, i, '\\');
    lemma_one_char(w, i, '#');
    lemma_one_char(w, i, '[');
    lemma_one_char(w, i, ']');
    lemma_one_char(w, i, '{');
    lemma_one_char(w, i, '}');
    lemma_one_char(w, i, ':');
    lemma_one_char(w, i, ';');
    lemma_one_char(w, i, '&');
    lemma_one_char(w, i, '@');
    assert(!starts_with_at(w, i, "<#"@)) by {
        if starts_with_at(w, i, "<#"@) {
            assert(w.subrange(i, i + 2)[0] == '<');
            assert(w.subrange(i, i + 2)[1] == '#');
        }
    }
    assert(!starts_with_at(w, i, keys[5])) by {
        if starts_with_at(w, i, keys[5]) {
            assert(w.subrange(i, i + 3)[0] == ':');
        }
    }
    assert(!starts_with_at(w, i, keys[6])) by {
        if starts_with_at(w, i, keys[6]) {
            assert(w.subrange(i, i + 2)[0] == ':');
        }
    }
}

/// An inert character goes into the text or identifier in progress.
pub proof fn lemma_step_appends(w: Seq<char>, st: LexState)
    requires
        is_ready(st, w),
        is_inert_at(w, st.pos),
        st.current is Text || st.current is Ident,
        st.current is Ident ==> !is_whitespace(w[st.pos]),
    ensures
        st.step(w) == (LexState { current: st.current.with_char(w[st.pos]), pos: st.pos + 1, ..st }),
{
    lemma_inert_is_no_operator(w, st.pos);
}

/// Behind a token without text, an inert character opens a text, or an
/// identifier where the token asks for one.
pub proof fn lemma_step_opens(w: Seq<char>, st: LexState)
    requires
        is_ready(st, w),
        is_inert_at(w, st.pos),
        st.current.text().is_none(),
        st.current.creates_ident() ==> !is_whitespace(w[st.pos]),
    ensures
        st.step(w) == (LexState {
            tokens: st.tokens.push((st.line as usize, st.current)),
            current: if st.current.creates_ident() {
                TokenView::Ident(seq![w[st.pos]])
            } else {
                TokenView::Text(seq![w[st.pos]])
            },
            pos: st.pos + 1,
            ..st
        }),
{
    lemma_inert_is_no_operator(w, st.pos);
    assert(Seq::<char>::empty().push(w[st.pos]) =~= seq![w[st.pos]]);
}

/// A backslash and the character behind it are read as that character,
/// which goes into the text or identifier in progress.
pub proof fn lemma_steps_escaped(w: Seq<char>, st: LexState)
    requires
        is_ready(st, w),
        st.pos + 1 < w.len(),
        w[st.pos] == '\\',
        ({
            let c = w[st.pos + 1];
            !is_quote(c) && c != '\n' && c != 'r' && c != 'n' && c != 't'
        }),
        st.current is Text || st.current is Ident,
        st.current is Ident ==> !is_whitespace(w[st.pos + 1]),
    ensures
        st.step(w).step(w) == (LexState {
            current: st.current.with_char(w[st.pos + 1]),
            pos: st.pos + 2,
            ..st
        }),
        st.step(w).pos == st.pos + 1,
{
    lemma_rule_lengths();
    let at = st.pos;
    lemma_one_char(w, at, '\n');
    lemma_one_char(w, at, '\\');
    let marked = st.step(w);
    assert(marked == LexState { escaped: true, pos: at + 1, ..st });
    lemma_one_char(w, at + 1, '\n');
    lemma_one_char(w, at + 1, 'r');
    lemma_one_char(w, at + 1, 'n');
    lemma_one_char(w, at + 1, 't');
    lemma_first_match(keys_of(escape_rules()), w, at + 1, 0);
}

/// Behind a token without text, a backslash and the character behind it
/// open a text, or an identifier where the token asks for one.
pub proof fn lemma_steps_escaped_open(w: Seq<char>, st: LexState)
    requires
        is_ready(st, w),
        st.pos + 1 < w.len(),
        w[st.pos] == '\\',
        ({
            let c = w[st.pos + 1];
            !is_quote(c) && c != '\n' && c != 'r' && c != 'n' && c != 't'
        }),
        st.current.text().is_none(),
        st.current.creates_ident() ==> !is_whitespace(w[st.pos + 1]),
    ensures
        st.step(w).step(w) == (LexState {
            tokens: st.tokens.push((st.line as usize, st.current)),
            current: if st.current.creates_ident() {
                TokenView::Ident(seq![w[st.pos + 1]])
            } else {
                TokenView::Text(seq![w[st.pos + 1]])
            },
            pos: st.pos + 2,
            ..st
        }),
        st.step(w).pos == st.pos + 1,
{
    lemma_rule_lengths();
    let at = st.pos;
    lemma_one_char(w, at, '\n');
    lemma_one_char(w, at, '\\');
    let marked = st.step(w);
    assert(marked == LexState { escaped: true, pos: at + 1, ..st });
    lemma_one_char(w, at + 1, '\n');
    lemma_one_char(w, at + 1, 'r');
    lemma_one_char(w, at + 1, 'n');
    lemma_one_char(w, at + 1, 't');
    lemma_first_match(keys_of(escape_rules()), w, at + 1, 0);
    assert(Seq::<char>::empty().push(w[at + 1]) =~= seq![w[at + 1]]);
}

/// One of the operators of one character closes the token in progress and
/// is the new one: a bracket, a brace, a semicolon, an ampersand or an at
/// sign, and a colon behind which no `=` stands.
pub proof fn lemma_step_operator(w: Seq<char>, st: LexState, token: TokenView)
    requires
        is_ready(st, w),
        !(st.current is Stringliteral),
        ({
            let c = w[st.pos];
            ||| c == '[' && token == TokenView::OpenBracket
            ||| c == ']' && token == TokenView::CloseBracket
            ||| c == '{' && token == TokenView::OpenBrace
            ||| c == '}' && token == TokenView::CloseBrace
            ||| c == ';' && token == TokenView::SemiColon
            ||| c == '&' && token == TokenView::Andpersand
            ||| c == '@' && token == TokenView::At
            ||| c == ':' && token == TokenView::Colon && !(st.pos + 1 < w.len() && w[st.pos + 1]
                == '=')
        }),
    ensures
        st.step(w) == (LexState {
            tokens: st.tokens.push((st.line as usize, st.current)),
            current: token,
            pos: st.pos + 1,
            ..st
        }),
{
    lemma_rule_lengths();
    let i = st.pos;
    let keys = keys_of(operator_rules());
    lemma_first_match(keys, w, i, 0);
    lemma_one_char(w, i, '\n');
    lemma_one_char(w, i, '\\');
    lemma_one_char(w, i, '#');
    lemma_one_char(w, i, '[');
    lemma_one_char(w, i, ']');
    lemma_one_char(w, i, '{');
    lemma_one_char(w, i, '}');
    lemma_one_char(w, i, ':');
    lemma_one_char(w, i, ';');
    lemma_one_char(w, i, '&');
    lemma_one_char(w, i, '@');
    assert(!starts_with_at(w, i, "<#"@)) by {
        if starts_with_at(w, i, "<#"@) {
            assert(w.subrange(i, i + 2)[0] == '<');
        }
    }
    assert(!starts_with_at(w, i, keys[4])) by {
        if starts_with_at(w, i, keys[4]) {
            assert(w.subrange(i, i + 4)[0] == 'm');
        }
    }
    assert(!starts_with_at(w, i, keys[5])) by {
        if starts_with_at(w, i, keys[5]) {
            assert(w.subrange(i, i + 3)[0] == ':');
            assert(w.subrange(i, i + 3)[1] == '=');
        }
    }
    assert(!starts_with_at(w, i, keys[6])) by {
        if starts_with_at(w, i, keys[6]) {
            assert(w.subrange(i, i + 2)[0] == ':');
            assert(w.subrange(i, i + 2)[1] == '=');
        }
    }
    let k = first_match(keys, w, i);
    assert(k.is_some());
    assert(operator_rules()[k.unwrap()].1 == token);
    assert(operator_rules()[k.unwrap()].0.len() == 1);
}

/// A quote outside a literal closes the token in progress and opens a
/// literal.
pub proof fn lemma_step_opens_literal(w: Seq<char>, st: LexState)
    requires
        is_ready(st, w),
        is_quote(w[st.pos]),
        !(st.current is Stringliteral),
    ensures
        st.step(w) == (LexState {
            tokens: st.tokens.push((st.line as usize, st.current)),
            current: TokenView::Stringliteral(
                StringLiteralView { quotes: w[st.pos], content: Seq::empty() },
            ),
            pos: st.pos + 1,
            ..st
        }),
{
    lemma_rule_lengths();
    let i = st.pos;
    let keys = keys_of(operator_rules());
    lemma_first_match(keys, w, i, 0);
    lemma_one_char(w, i, '\n');
    lemma_one_char(w, i, '\\');
    lemma_one_char(w, i, '#');
    lemma_one_char(w, i, '[');
    lemma_one_char(w, i, ']');
    lemma_one_char(w, i, '{');
    lemma_one_char(w, i, '}');
    lemma_one_char(w, i, ':');
    lemma_one_char(w, i, ';');
    lemma_one_char(w, i, '&');
    lemma_one_char(w, i, '@');
    assert(!starts_with_at(w, i, "<#"@)) by {
        if starts_with_at(w, i, "<#"@) {
            assert(w.subrange(i, i + 2)[0] == '<');
        }
    }
    assert(!starts_with_at(w, i, keys[4])) by {
        if starts_with_at(w, i, keys[4]) {
            assert(w.subrange(i, i + 4)[0] == 'm');
        }
    }
    assert(!starts_with_at(w, i, keys[5])) by {
        if starts_with_at(w, i, keys[5]) {
            assert(w.subrange(i, i + 3)[0] == ':');
        }
    }
    assert(!starts_with_at(w, i, keys[6])) by {
        if starts_with_at(w, i, keys[6]) {
            assert(w.subrange(i, i + 2)[0] == ':');
        }
    }
}

/// Inside a literal, a character that is no backslash, no line feed and no
/// `#`, and not the quote of the literal, goes into the literal.
pub proof fn lemma_step_in_literal(w: Seq<char>, st: LexState)
    requires
        is_ready(st, w),
        st.current is Stringliteral,
        ({
            let c = w[st.pos];
            &&& c != st.current->Stringliteral_0.quotes
            &&& c != '\\'
            &&& c != '\n'
            &&& c != '#'
            &&& !(c == '<' && st.pos + 1 < w.len() && w[st.pos + 1] == '#')
        }),
    ensures
        st.step(w) == (LexState { current: st.current.with_char(w[st.pos]), pos: st.pos + 1, ..st }),
{
    lemma_rule_lengths();
    let i = st.pos;
    lemma_one_char(w, i, '\n');
    lemma_one_char(w, i, '\\');
    lemma_one_char(w, i, '#');
    assert(!starts_with_at(w, i, "<#"@)) by {
        if starts_with_at(w, i, "<#"@) {
            assert(w.subrange(i, i + 2)[0] == '<');
            assert(w.subrange(i, i + 2)[1] == '#');
        }
    }
}

/// Inside a literal, a backslash and the character behind it are read as
/// that character, which goes into the literal.
pub proof fn lemma_steps_escaped_in_literal(w: Seq<char>, st: LexState)
    requires
        is_ready(st, w),
        st.pos + 1 < w.len(),
        w[st.pos] == '\\',
        ({
            let c = w[st.pos + 1];
            !is_quote(c) && c != '\n' && c != 'r' && c != 'n' && c != 't'
        }),
        st.current is Stringliteral,
        w[st.pos + 1] != st.current->Stringliteral_0.quotes,
    ensures
        st.step(w).step(w) == (LexState {
            current: st.current.with_char(w[st.pos + 1]),
            pos: st.pos + 2,
            ..st
        }),
        st.step(w).pos == st.pos + 1,
{
    lemma_rule_lengths();
    let at = st.pos;
    lemma_one_char(w, at, '\n');
    lemma_one_char(w, at, '\\');
    let marked = st.step(w);
    assert(marked == LexState { escaped: true, pos: at + 1, ..st });
    lemma_one_char(w, at + 1, '\n');
    lemma_one_char(w, at + 1, 'r');
    lemma_one_char(w, at + 1, 'n');
    lemma_one_char(w, at + 1, 't');
    lemma_first_match(keys_of(escape_rules()), w, at + 1, 0);
}

/// The quote of a literal closes the literal and opens an empty text.
pub proof fn lemma_step_closes_literal(w: Seq<char>, st: LexState)
    requires
        is_ready(st, w),
        st.current is Stringliteral,
        w[st.pos] == st.current->Stringliteral_0.quotes,
        is_quote(w[st.pos]),
    ensures
        st.step(w) == (LexState {
            tokens: st.tokens.push((st.line as usize, st.current)),
            current: TokenView::empty(),
            pos: st.pos + 1,
            ..st
        }),
{
    lemma_rule_lengths();
    let i = st.pos;
    lemma_one_char(w, i, '\n');
    lemma_one_char(w, i, '\\');
    lemma_one_char(w, i, '#');
    assert(!starts_with_at(w, i, "<#"@)) by {
        if starts_with_at(w, i, "<#"@) {
            assert(w.subrange(i, i + 2)[0] == '<');
        }
    }
}

} // verus!
