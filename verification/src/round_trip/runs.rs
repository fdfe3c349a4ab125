//! Runs of characters that the scanner takes into one token.

use crate::escaping::{
    is_literal_free, is_marked, lemma_encoding_at, lemma_encoding_grows,
    lemma_encoding_is_literal_free, lemma_is_marked,
};
use crate::lexer::{is_quote, LexState, StringLiteralView, TokenView};
use crate::round_trip::steps::{
    is_inert_at, lemma_step_appends, lemma_step_closes_literal, lemma_step_in_literal,
    lemma_step_opens_literal, lemma_steps_escaped, lemma_steps_escaped_in_literal,
};
use crate::text::{is_whitespace, starts_with_at};
use crate::{encoded, encoded_to};
use vstd::prelude::*;

verus! {

/// Whether a token ends at index `i` of `w` at the latest: the text ends
/// there, or a colon, a bracket, a brace or a quote stands there.
pub open spec fn is_stop(w: Seq<char>, i: int) -> bool {
    i >= w.len() || w[i] == ':' || w[i] == ']' || w[i] == '[' || w[i] == '{' || w[i] == '}'
        || is_quote(w[i])
}

/// Whether every character of `run` is taken as it stands wherever the run
/// stands: it holds no quote, no line feed, no backslash, no `#` and no
/// operator, and the keyword does not start in it.
pub open spec fn is_bare(run: Seq<char>) -> bool {
    &&& forall|i: int|
        0 <= i < run.len() ==> {
            let c = #[trigger] run[i];
            &&& !is_quote(c)
            &&& c != '\n'
            &&& c != '\\'
            &&& c != '#'
            &&& c != '[' && c != ']' && c != '{' && c != '}'
            &&& c != ':' && c != ';' && c != '&' && c != '@'
        }
    &&& forall|i: int| 0 <= i < run.len() ==> !starts_with_at(run, i, seq!['m', 'a', 'c', 'r'])
}

/// Each character of a bare run that stands in `w` before a stop is inert
/// there.
pub proof fn lemma_bare_run_is_inert(w: Seq<char>, at: int, run: Seq<char>)
    requires
        0 <= at,
        at + run.len() <= w.len(),
        w.subrange(at, at + run.len()) == run,
        is_bare(run),
        is_stop(w, at + run.len()),
    ensures
        forall|i: int| at <= i < at + run.len() ==> is_inert_at(w, i),
{
    let word = seq!['m', 'a', 'c', 'r'];
    assert forall|i: int| at <= i < at + run.len() implies is_inert_at(w, i) by {
        let k = i - at;
        assert(run[k] == w[i]);
        if i + 1 < at + run.len() {
            assert(run[k + 1] == w[i + 1]);
        }
        assert(!starts_with_at(run, k, word));
        if starts_with_at(w, i, word) {
            let found = w.subrange(i, i + 4);
            assert(found[0] == 'm' && found[1] == 'a' && found[2] == 'c' && found[3] == 'r');
            if i + 4 <= at + run.len() {
                assert(run.subrange(k, k + 4) =~= word);
            } else {
                let end = at + run.len();
                assert(w[end] == found[end - i]);
            }
        }
    }
}

/// The scanner takes a run of inert characters into the text or
/// identifier in progress.
pub proof fn lemma_scans_run(w: Seq<char>, st: LexState, run: Seq<char>) -> (after: LexState)
    requires
        0 <= st.pos,
        st.pos + run.len() <= w.len(),
        w.subrange(st.pos, st.pos + run.len()) == run,
        st.depth == 0,
        !st.escaped,
        st.current is Text || st.current is Ident,
        forall|i: int| st.pos <= i < st.pos + run.len() ==> is_inert_at(w, i),
        st.current is Ident ==> forall|i: int| 0 <= i < run.len() ==> !is_whitespace(run[i]),
    ensures
        st.run(w) == after.run(w),
        after == (LexState {
            current: st.current.with_text(st.current.text().unwrap() + run),
            pos: st.pos + run.len(),
            ..st
        }),
    decreases run.len(),
{
    let text = st.current.text().unwrap();
    if run.len() == 0 {
        assert(text + run =~= text);
        st
    } else {
        assert(run[0] == w[st.pos]);
        lemma_step_appends(w, st);
        let next = st.step(w);
        let rest = run.subrange(1, run.len() as int);
        assert(w.subrange(next.pos, next.pos + rest.len()) =~= rest);
        assert forall|i: int| 0 <= i < rest.len() implies !is_whitespace(rest[i]) || !(
        st.current is Ident) by {
            assert(rest[i] == run[i + 1]);
        }
        let after = lemma_scans_run(w, next, rest);
        assert(text.push(run[0]) + rest =~= text + run);
        after
    }
}

/// The scanner takes a run of characters into the literal in progress: none
/// of them is a backslash, a line feed, `#` or the quote of the literal.
pub proof fn lemma_scans_literal(w: Seq<char>, st: LexState, run: Seq<char>) -> (after: LexState)
    requires
        0 <= st.pos,
        st.pos + run.len() < w.len(),
        w.subrange(st.pos, st.pos + run.len()) == run,
        st.depth == 0,
        !st.escaped,
        st.current is Stringliteral,
        w[st.pos + run.len()] != '#',
        forall|i: int|
            0 <= i < run.len() ==> {
                let c = #[trigger] run[i];
                c != st.current->Stringliteral_0.quotes && c != '\\' && c != '\n' && c != '#'
            },
    ensures
        st.run(w) == after.run(w),
        after == (LexState {
            current: TokenView::Stringliteral(
                StringLiteralView {
                    quotes: st.current->Stringliteral_0.quotes,
                    content: st.current->Stringliteral_0.content + run,
                },
            ),
            pos: st.pos + run.len(),
            ..st
        }),
    decreases run.len(),
{
    let content = st.current->Stringliteral_0.content;
    if run.len() == 0 {
        assert(content + run =~= content);
        st
    } else {
        assert(run[0] == w[st.pos]);
        if run.len() > 1 {
            assert(run[1] == w[st.pos + 1]);
        }
        lemma_step_in_literal(w, st);
        let next = st.step(w);
        let rest = run.subrange(1, run.len() as int);
        assert(w.subrange(next.pos, next.pos + rest.len()) =~= rest);
        assert forall|i: int| 0 <= i < rest.len() implies {
            let c = #[trigger] rest[i];
            c != next.current->Stringliteral_0.quotes && c != '\\' && c != '\n' && c != '#'
        } by {
            assert(rest[i] == run[i + 1]);
        }
        let after = lemma_scans_literal(w, next, rest);
        assert(content.push(run[0]) + rest =~= content + run);
        after
    }
}


/// Where the encoding of a text stands in `w` before a stop, the keyword
/// does not start at a character of the text at which no mark starts.
pub proof fn lemma_no_keyword_before_stop(w: Seq<char>, at: int, t: Seq<char>, k: int)
    requires
        0 <= at,
        at + encoded(t).len() <= w.len(),
        w.subrange(at, at + encoded(t).len()) == encoded(t),
        is_stop(w, at + encoded(t).len()),
        0 <= k < t.len(),
        !is_marked(t, k),
    ensures
        !starts_with_at(w, at + encoded_to(t, k).len(), seq!['m', 'a', 'c', 'r']),
{
    let enc = encoded(t);
    let end = at + enc.len();
    let p = at + encoded_to(t, k).len();
    let word = seq!['m', 'a', 'c', 'r'];
    if starts_with_at(w, p, word) {
        let found = w.subrange(p, p + 4);
        assert(found[0] == 'm' && found[1] == 'a' && found[2] == 'c' && found[3] == 'r');
        assert(w[p + 1] == 'a' && w[p + 2] == 'c' && w[p + 3] == 'r');
        lemma_encoding_at(t, k);
        lemma_is_marked(t, k);
        lemma_encoding_grows(t, k + 1, t.len() as int);
        assert(w[p] == enc[p - at]) by {
            assert(w.subrange(at, end)[p - at] == w[p]);
        }
        // The three characters behind it stand in the encoding too.
        if k + 1 < t.len() {
            lemma_encoding_at(t, k + 1);
            lemma_is_marked(t, k + 1);
            lemma_encoding_grows(t, k + 2, t.len() as int);
            assert(w.subrange(at, end)[p + 1 - at] == w[p + 1]);
            if k + 2 < t.len() {
                lemma_encoding_at(t, k + 2);
                lemma_is_marked(t, k + 2);
                lemma_encoding_grows(t, k + 3, t.len() as int);
                assert(w.subrange(at, end)[p + 2 - at] == w[p + 2]);
                if k + 3 < t.len() {
                    lemma_encoding_at(t, k + 3);
                    lemma_is_marked(t, k + 3);
                    assert(w.subrange(at, end)[p + 3 - at] == w[p + 3]);
                    assert(t.subrange(k, k + 4) =~= word);
                } else {
                    assert(p + 3 == end);
                }
            } else {
                assert(p + 2 == end);
            }
        } else {
            assert(p + 1 == end);
        }
    }
}

/// What stands in `w` for the character at index `k` of a text whose
/// encoding stands in `w` before a stop: the character itself, which is inert
/// there, or a backslash and the character, which is then no quote, no line
/// feed and none of the letters of an escape.
pub proof fn lemma_encoded_char(w: Seq<char>, at: int, t: Seq<char>, k: int)
    requires
        0 <= at,
        at + encoded(t).len() <= w.len(),
        w.subrange(at, at + encoded(t).len()) == encoded(t),
        is_stop(w, at + encoded(t).len()),
        is_literal_free(t),
        forall|i: int| 0 <= i < t.len() ==> t[i] != '\n',
        0 <= k < t.len(),
    ensures
        ({
            let p = at + encoded_to(t, k).len();
            let c = t[k];
            if is_marked(t, k) {
                &&& p + 1 < at + encoded(t).len()
                &&& w[p] == '\\'
                &&& w[p + 1] == c
                &&& !is_quote(c) && c != '\n' && c != 'r' && c != 'n' && c != 't'
                &&& encoded_to(t, k + 1).len() == encoded_to(t, k).len() + 2
            } else {
                &&& p < at + encoded(t).len()
                &&& w[p] == c
                &&& is_inert_at(w, p)
                &&& encoded_to(t, k + 1).len() == encoded_to(t, k).len() + 1
            }
        }),
{
    let enc = encoded(t);
    let end = at + enc.len();
    let p = at + encoded_to(t, k).len();
    let c = t[k];
    lemma_encoding_at(t, k);
    lemma_is_marked(t, k);
    lemma_encoding_is_literal_free(t, t.len() as int);
    assert(!is_quote(c) && c != '#' && c != '\n');
    assert(w[p] == enc[p - at]) by {
        assert(w.subrange(at, end)[p - at] == w[p]);
    }
    if is_marked(t, k) {
        assert(w[p + 1] == enc[p + 1 - at]) by {
            assert(w.subrange(at, end)[p + 1 - at] == w[p + 1]);
        }
        if starts_with_at(t, k, seq!['m', 'a', 'c', 'r']) {
            assert(t.subrange(k, k + 4)[0] == 'm');
        }
    } else {
        assert(!(w[p] == '<' && p + 1 < w.len() && w[p + 1] == '#')) by {
            if p + 1 < end {
                assert(w.subrange(at, end)[p + 1 - at] == w[p + 1]);
                assert(!is_quote(enc[p + 1 - at]) && enc[p + 1 - at] != '#');
            }
        }
        lemma_no_keyword_before_stop(w, at, t, k);
    }
}

/// The scanner that has read the encoding of the first `k` characters of
/// `t` into the text in progress reads the rest of the encoding into it too.
proof fn lemma_scans_encoded_from(w: Seq<char>, st: LexState, t: Seq<char>, k: int)
    requires
        0 <= st.pos,
        st.pos + encoded(t).len() <= w.len(),
        w.subrange(st.pos, st.pos + encoded(t).len()) == encoded(t),
        is_stop(w, st.pos + encoded(t).len()),
        st.depth == 0,
        !st.escaped,
        st.current is Text,
        is_literal_free(t),
        forall|i: int| 0 <= i < t.len() ==> t[i] != '\n',
        0 <= k <= t.len(),
    ensures
        (LexState {
            current: TokenView::Text(st.current->Text_0 + t.take(k)),
            pos: st.pos + encoded_to(t, k).len(),
            ..st
        }).run(w) == (LexState {
            current: TokenView::Text(st.current->Text_0 + t),
            pos: st.pos + encoded(t).len(),
            ..st
        }).run(w),
    decreases t.len() - k,
{
    let text = st.current->Text_0;
    if k < t.len() {
        let here = LexState {
            current: TokenView::Text(text + t.take(k)),
            pos: st.pos + encoded_to(t, k).len(),
            ..st
        };
        let next = LexState {
            current: TokenView::Text(text + t.take(k + 1)),
            pos: st.pos + encoded_to(t, k + 1).len(),
            ..st
        };
        lemma_encoded_char(w, st.pos, t, k);
        assert((text + t.take(k)).push(t[k]) =~= text + t.take(k + 1));
        if is_marked(t, k) {
            lemma_steps_escaped(w, here);
            assert(here.step(w).step(w) == next);
            assert(here.run(w) == here.step(w).run(w));
            assert(here.step(w).run(w) == here.step(w).step(w).run(w));
        } else {
            lemma_step_appends(w, here);
            assert(here.step(w) == next);
        }
        lemma_scans_encoded_from(w, st, t, k + 1);
    } else {
        assert(t.take(k) =~= t);
    }
}

/// The scanner reads the encoding of a text into the text in progress:
/// the text holds no quote, no `#` and no line feed, and a stop follows its
/// encoding.
pub proof fn lemma_scans_encoded(w: Seq<char>, st: LexState, t: Seq<char>) -> (after: LexState)
    requires
        0 <= st.pos,
        st.pos + encoded(t).len() <= w.len(),
        w.subrange(st.pos, st.pos + encoded(t).len()) == encoded(t),
        is_stop(w, st.pos + encoded(t).len()),
        st.depth == 0,
        !st.escaped,
        st.current is Text,
        is_literal_free(t),
        forall|i: int| 0 <= i < t.len() ==> t[i] != '\n',
    ensures
        st.run(w) == after.run(w),
        after == (LexState {
            current: TokenView::Text(st.current->Text_0 + t),
            pos: st.pos + encoded(t).len(),
            ..st
        }),
{
    lemma_scans_encoded_from(w, st, t, 0);
    assert(st.current->Text_0 + t.take(0) =~= st.current->Text_0);
    LexState {
        current: TokenView::Text(st.current->Text_0 + t),
        pos: st.pos + encoded(t).len(),
        ..st
    }
}

/// The scanner that has read the opening quote of an encoded literal and
/// the encoding of its characters before index `k` reads the rest of the
/// encoding into the literal too, up to the closing quote.
proof fn lemma_scans_quoted_from(w: Seq<char>, st: LexState, at: int, t: Seq<char>, k: int)
    requires
        0 <= at,
        at + encoded(t).len() <= w.len(),
        w.subrange(at, at + encoded(t).len()) == encoded(t),
        st.depth == 0,
        !st.escaped,
        t.len() >= 2,
        is_quote(t[0]),
        t[t.len() - 1] == t[0],
        forall|i: int| 1 <= i < t.len() - 1 ==> #[trigger] t[i] != t[0] && t[i] != '#' && t[i] != '\n',
        1 <= k <= t.len() - 1,
    ensures
        (LexState {
            current: TokenView::Stringliteral(
                StringLiteralView { quotes: t[0], content: t.subrange(1, k) },
            ),
            pos: at + encoded_to(t, k).len(),
            ..st
        }).run(w) == (LexState {
            current: TokenView::Stringliteral(
                StringLiteralView { quotes: t[0], content: t.subrange(1, t.len() - 1) },
            ),
            pos: at + encoded_to(t, t.len() - 1).len(),
            ..st
        }).run(w),
    decreases t.len() - k,
{
    let enc = encoded(t);
    let end = at + enc.len();
    if k < t.len() - 1 {
        let here = LexState {
            current: TokenView::Stringliteral(
                StringLiteralView { quotes: t[0], content: t.subrange(1, k) },
            ),
            pos: at + encoded_to(t, k).len(),
            ..st
        };
        let next = LexState {
            current: TokenView::Stringliteral(
                StringLiteralView { quotes: t[0], content: t.subrange(1, k + 1) },
            ),
            pos: at + encoded_to(t, k + 1).len(),
            ..st
        };
        let p = here.pos;
        let c = t[k];
        lemma_encoding_at(t, k);
        lemma_is_marked(t, k);
        lemma_encoding_at(t, k + 1);
        lemma_is_marked(t, k + 1);
        lemma_encoding_grows(t, k + 1, t.len() as int);
        lemma_encoding_grows(t, k + 2, t.len() as int);
        assert(t.subrange(1, k).push(c) =~= t.subrange(1, k + 1));
        assert(w[p] == enc[p - at]) by {
            assert(w.subrange(at, end)[p - at] == w[p]);
        }
        assert(w[p + 1] == enc[p + 1 - at]) by {
            assert(w.subrange(at, end)[p + 1 - at] == w[p + 1]);
        }
        if is_marked(t, k) {
            if starts_with_at(t, k, seq!['m', 'a', 'c', 'r']) {
                assert(t.subrange(k, k + 4)[0] == 'm');
            }
            lemma_steps_escaped_in_literal(w, here);
            assert(here.step(w).step(w) == next);
            assert(here.run(w) == here.step(w).run(w));
            assert(here.step(w).run(w) == here.step(w).step(w).run(w));
        } else {
            assert(w[p + 1] != '#') by {
                if k + 1 < t.len() - 1 {
                    assert(t[k + 1] != '#');
                } else {
                    assert(t[k + 1] == t[0]);
                }
            }
            lemma_step_in_literal(w, here);
            assert(here.step(w) == next);
        }
        lemma_scans_quoted_from(w, st, at, t, k + 1);
    }
}

/// The scanner reads the encoding of a literal in its quotes as the
/// literal: the quotes are of one kind, and what stands between them holds
/// no quote of that kind, no `#` and no line feed.
pub proof fn lemma_scans_quoted(w: Seq<char>, st: LexState, t: Seq<char>) -> (after: LexState)
    requires
        0 <= st.pos,
        st.pos + encoded(t).len() <= w.len(),
        w.subrange(st.pos, st.pos + encoded(t).len()) == encoded(t),
        st.depth == 0,
        !st.escaped,
        !(st.current is Stringliteral),
        t.len() >= 2,
        is_quote(t[0]),
        t[t.len() - 1] == t[0],
        forall|i: int| 1 <= i < t.len() - 1 ==> #[trigger] t[i] != t[0] && t[i] != '#' && t[i] != '\n',
    ensures
        st.run(w) == after.run(w),
        after == (LexState {
            tokens: st.tokens.push((st.line as usize, st.current)).push(
                (
                    st.line as usize,
                    TokenView::Stringliteral(
                        StringLiteralView { quotes: t[0], content: t.subrange(1, t.len() - 1) },
                    ),
                ),
            ),
            current: TokenView::empty(),
            pos: st.pos + encoded(t).len(),
            ..st
        }),
{
    let at = st.pos;
    let enc = encoded(t);
    let end = at + enc.len();
    let n = t.len() as int;
    // The opening quote.
    lemma_encoding_at(t, 0);
    lemma_is_marked(t, 0);
    assert(!is_marked(t, 0)) by {
        if starts_with_at(t, 0, seq!['m', 'a', 'c', 'r']) {
            assert(t.subrange(0, 4)[0] == 'm');
        }
    }
    assert(w[at] == enc[0]) by {
        assert(w.subrange(at, end)[0] == w[at]);
    }
    lemma_step_opens_literal(w, st);
    let opened = st.step(w);
    assert(st.run(w) == opened.run(w));
    assert(t.subrange(1, 1) =~= Seq::empty());
    // The characters between the quotes.
    lemma_scans_quoted_from(w, opened, at, t, 1);
    let filled = LexState {
        current: TokenView::Stringliteral(
            StringLiteralView { quotes: t[0], content: t.subrange(1, n - 1) },
        ),
        pos: at + encoded_to(t, n - 1).len(),
        ..opened
    };
    assert(opened.run(w) == filled.run(w));
    // The closing quote.
    lemma_encoding_at(t, n - 1);
    lemma_is_marked(t, n - 1);
    assert(!is_marked(t, n - 1)) by {
        if starts_with_at(t, n - 1, seq!['m', 'a', 'c', 'r']) {
            assert(t.subrange(n - 1, n + 3)[0] == 'm');
        }
    }
    let p = filled.pos;
    assert(w[p] == enc[p - at]) by {
        assert(w.subrange(at, end)[p - at] == w[p]);
    }
    lemma_step_closes_literal(w, filled);
    let after = filled.step(w);
    assert(filled.run(w) == after.run(w));
    after
}

} // verus!
