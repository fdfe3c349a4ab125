//! What holds of every encoded text: the scanner reads it as the one text
//! that was encoded.

use crate::expanded::scope::expand_scope;
use crate::expanded::ExpandedNodeView;
use crate::error::ErrorView;
use crate::lexer::{
    cleaned, escape_rules, is_quote, keys_of, lemma_rule_lengths, lexed, operator_rules, scanned,
    LexState, TokenView,
};
use crate::parser::grammar::{nodes_until, parsed};
use crate::parser::AstNodeView;
use crate::text::{first_match, is_blank, lemma_first_match, starts_with_at, tidy};
use crate::{compiled, encoded, encoded_to, marks};
use vstd::prelude::*;

verus! {

/// Whether a mark starts at index `i` of `s`.
pub open spec fn is_marked(s: Seq<char>, i: int) -> bool {
    first_match(marks(), s, i).is_some()
}

/// The marks, character by character.
pub proof fn lemma_marks()
    ensures
        marks() == seq![
            seq!['\\'],
            seq!['['],
            seq![']'],
            seq!['{'],
            seq!['}'],
            seq!['m', 'a', 'c', 'r'],
            seq![':', '='],
            seq![':'],
            seq![';'],
            seq!['&'],
            seq!['@'],
        ],
{
    lemma_rule_lengths();
    reveal_strlit("\\");
    reveal_strlit("[");
    reveal_strlit("]");
    reveal_strlit("{");
    reveal_strlit("}");
    reveal_strlit("macr");
    reveal_strlit(":=");
    reveal_strlit(":");
    reveal_strlit(";");
    reveal_strlit("&");
    reveal_strlit("@");
    assert("\\"@ =~= seq!['\\']);
    assert("["@ =~= seq!['[']);
    assert("]"@ =~= seq![']']);
    assert("{"@ =~= seq!['{']);
    assert("}"@ =~= seq!['}']);
    assert("macr"@ =~= seq!['m', 'a', 'c', 'r']);
    assert(":="@ =~= seq![':', '=']);
    assert(":"@ =~= seq![':']);
    assert(";"@ =~= seq![';']);
    assert("&"@ =~= seq!['&']);
    assert("@"@ =~= seq!['@']);
    assert(marks() =~= seq![
        seq!['\\'],
        seq!['['],
        seq![']'],
        seq!['{'],
        seq!['}'],
        seq!['m', 'a', 'c', 'r'],
        seq![':', '='],
        seq![':'],
        seq![';'],
        seq!['&'],
        seq!['@'],
    ]);
}

/// A mark starts at index `i` exactly where one of the characters
/// `\ [ ] { } : ; & @` stands there, or the word `macr` starts there.
pub proof fn lemma_is_marked(s: Seq<char>, i: int)
    requires
        0 <= i < s.len(),
    ensures
        is_marked(s, i) == (s[i] == '\\' || s[i] == '[' || s[i] == ']' || s[i] == '{' || s[i] == '}'
            || s[i] == ':' || s[i] == ';' || s[i] == '&' || s[i] == '@' || starts_with_at(
            s,
            i,
            seq!['m', 'a', 'c', 'r'],
        )),
{
    lemma_marks();
    lemma_first_match(marks(), s, i, 0);
    let m = marks();
    assert(starts_with_at(s, i, m[0]) == (s[i] == '\\')) by {
        lemma_one_char(s, i, '\\');
    }
    assert(starts_with_at(s, i, m[1]) == (s[i] == '[')) by {
        lemma_one_char(s, i, '[');
    }
    assert(starts_with_at(s, i, m[2]) == (s[i] == ']')) by {
        lemma_one_char(s, i, ']');
    }
    assert(starts_with_at(s, i, m[3]) == (s[i] == '{')) by {
        lemma_one_char(s, i, '{');
    }
    assert(starts_with_at(s, i, m[4]) == (s[i] == '}')) by {
        lemma_one_char(s, i, '}');
    }
    assert(starts_with_at(s, i, m[7]) == (s[i] == ':')) by {
        lemma_one_char(s, i, ':');
    }
    assert(starts_with_at(s, i, m[8]) == (s[i] == ';')) by {
        lemma_one_char(s, i, ';');
    }
    assert(starts_with_at(s, i, m[9]) == (s[i] == '&')) by {
        lemma_one_char(s, i, '&');
    }
    assert(starts_with_at(s, i, m[10]) == (s[i] == '@')) by {
        lemma_one_char(s, i, '@');
    }
    assert(starts_with_at(s, i, m[6]) ==> s[i] == ':') by {
        if starts_with_at(s, i, m[6]) {
            assert(s.subrange(i, i + 2)[0] == ':');
        }
    }
    assert(m[5] == seq!['m', 'a', 'c', 'r']);
}

/// A text of one character stands at a place exactly where the character
/// stands there.
pub proof fn lemma_one_char(s: Seq<char>, i: int, c: char)
    requires
        0 <= i < s.len(),
    ensures
        starts_with_at(s, i, seq![c]) == (s[i] == c),
{
    if s[i] == c {
        assert(s.subrange(i, i + 1) =~= seq![c]);
    } else {
        if starts_with_at(s, i, seq![c]) {
            assert(s.subrange(i, i + 1)[0] == c);
        }
    }
}

/// The encoding grows with the text: the encoding of the first `k`
/// characters starts the encoding of the first `n`.
pub proof fn lemma_encoding_grows(s: Seq<char>, k: int, n: int)
    requires
        0 <= k <= n,
    ensures
        encoded_to(s, k).len() <= encoded_to(s, n).len(),
        encoded_to(s, n).subrange(0, encoded_to(s, k).len() as int) == encoded_to(s, k),
    decreases n - k,
{
    if k < n {
        lemma_encoding_grows(s, k, n - 1);
        let shorter = encoded_to(s, n - 1);
        let longer = encoded_to(s, n);
        assert(longer.subrange(0, shorter.len() as int) =~= shorter);
        assert(longer.subrange(0, encoded_to(s, k).len() as int) =~= shorter.subrange(
            0,
            encoded_to(s, k).len() as int,
        ));
    } else {
        assert(encoded_to(s, n).subrange(0, encoded_to(s, n).len() as int) =~= encoded_to(s, n));
    }
}

/// Where the character at index `k` of a text stands in its encoding: at the
/// end of the encoding of the characters before it, behind a backslash where a
/// mark starts at `k`.
pub proof fn lemma_encoding_at(s: Seq<char>, k: int)
    requires
        0 <= k < s.len(),
    ensures
        ({
            let at = encoded_to(s, k).len() as int;
            let enc = encoded(s);
            if is_marked(s, k) {
                &&& at + 2 <= enc.len()
                &&& enc[at] == '\\'
                &&& enc[at + 1] == s[k]
                &&& encoded_to(s, k + 1).len() == at + 2
            } else {
                &&& at + 1 <= enc.len()
                &&& enc[at] == s[k]
                &&& encoded_to(s, k + 1).len() == at + 1
            }
        }),
{
    let at = encoded_to(s, k).len() as int;
    let next = encoded_to(s, k + 1);
    lemma_encoding_grows(s, k + 1, s.len() as int);
    let enc = encoded(s);
    assert(enc.subrange(0, next.len() as int) == next);
    if is_marked(s, k) {
        assert(next[at] == '\\');
        assert(next[at + 1] == s[k]);
        assert(enc.subrange(0, next.len() as int)[at] == enc[at]);
        assert(enc.subrange(0, next.len() as int)[at + 1] == enc[at + 1]);
    } else {
        assert(next[at] == s[k]);
        assert(enc.subrange(0, next.len() as int)[at] == enc[at]);
    }
}


/// Whether the text holds no quote and no `#`: the characters that the
/// scanner does not take as text even behind a backslash, or that no mark
/// starts with.
pub open spec fn is_literal_free(s: Seq<char>) -> bool {
    forall|i: int| 0 <= i < s.len() ==> !is_quote(#[trigger] s[i]) && s[i] != '#'
}

/// The number of line feeds among the first `n` characters of `s`.
pub open spec fn newlines(s: Seq<char>, n: int) -> nat
    decreases n,
{
    if n <= 0 {
        0
    } else if s[n - 1] == '\n' {
        newlines(s, n - 1) + 1
    } else {
        newlines(s, n - 1)
    }
}

/// The state of the scanner that has read the encoding of the first `k`
/// characters of `s`: they are the text in progress, and no token is closed.
pub open spec fn reading(s: Seq<char>, k: int) -> LexState {
    LexState {
        tokens: Seq::empty(),
        line: newlines(s, k),
        current: TokenView::Text(s.take(k)),
        depth: 0,
        escaped: false,
        pos: encoded_to(s, k).len() as int,
    }
}

/// The encoding of a text without quote and `#` holds neither.
pub proof fn lemma_encoding_is_literal_free(s: Seq<char>, n: int)
    requires
        is_literal_free(s),
        0 <= n <= s.len(),
    ensures
        is_literal_free(encoded_to(s, n)),
    decreases n,
{
    if n > 0 {
        lemma_encoding_is_literal_free(s, n - 1);
        let shorter = encoded_to(s, n - 1);
        let longer = encoded_to(s, n);
        assert forall|i: int| 0 <= i < longer.len() implies !is_quote(#[trigger] longer[i])
            && longer[i] != '#' by {
            if i < shorter.len() {
                assert(longer[i] == shorter[i]);
            } else {
                assert(longer[i] == '\\' || longer[i] == s[n - 1]);
            }
        }
    }
}

/// In the encoding of a text, the word `macr` starts only where it starts in
/// the text and is then behind a backslash: it does not start at a character
/// at which no mark starts.
pub proof fn lemma_no_keyword_in_encoding(s: Seq<char>, k: int)
    requires
        0 <= k < s.len(),
        !is_marked(s, k),
    ensures
        !starts_with_at(encoded(s), encoded_to(s, k).len() as int, seq!['m', 'a', 'c', 'r']),
{
    let enc = encoded(s);
    let at = encoded_to(s, k).len() as int;
    let word = seq!['m', 'a', 'c', 'r'];
    if starts_with_at(enc, at, word) {
        let found = enc.subrange(at, at + 4);
        assert(found[0] == 'm' && found[1] == 'a' && found[2] == 'c' && found[3] == 'r');
        lemma_encoding_at(s, k);
        lemma_is_marked(s, k);
        lemma_encoding_grows(s, k + 1, s.len() as int);
        assert(k + 1 < s.len());
        lemma_encoding_at(s, k + 1);
        lemma_is_marked(s, k + 1);
        lemma_encoding_grows(s, k + 2, s.len() as int);
        assert(k + 2 < s.len());
        lemma_encoding_at(s, k + 2);
        lemma_is_marked(s, k + 2);
        lemma_encoding_grows(s, k + 3, s.len() as int);
        assert(k + 3 < s.len());
        lemma_encoding_at(s, k + 3);
        lemma_is_marked(s, k + 3);
        assert(s.subrange(k, k + 4) =~= word);
    }
}

/// The scanner reads the encoding of one more character of the text as
/// that character.
pub proof fn lemma_reads_one_character(s: Seq<char>, k: int)
    requires
        is_literal_free(s),
        0 <= k < s.len(),
    ensures
        reading(s, k).run(encoded(s)) == reading(s, k + 1).run(encoded(s)),
{
    let enc = encoded(s);
    let st = reading(s, k);
    let at = st.pos;
    let c = s[k];
    lemma_rule_lengths();
    lemma_encoding_at(s, k);
    lemma_is_marked(s, k);
    lemma_encoding_is_literal_free(s, s.len() as int);
    assert(s.take(k).push(c) =~= s.take(k + 1));
    assert(!is_quote(c) && c != '#');
    if is_marked(s, k) {
        // The backslash.
        assert(enc[at] == '\\');
        lemma_one_char(enc, at, '\n');
        lemma_one_char(enc, at, '\\');
        let marked = st.step(enc);
        assert(marked == LexState { escaped: true, pos: at + 1, ..st });
        // The character behind it.
        assert(enc[at + 1] == c);
        lemma_one_char(enc, at + 1, '\n');
        lemma_one_char(enc, at + 1, 'r');
        lemma_one_char(enc, at + 1, 'n');
        lemma_one_char(enc, at + 1, 't');
        lemma_first_match(keys_of(escape_rules()), enc, at + 1, 0);
        assert(first_match(keys_of(escape_rules()), enc, at + 1).is_none());
        assert(marked.step(enc) == reading(s, k + 1));
        assert(st.run(enc) == marked.run(enc));
        assert(marked.run(enc) == marked.step(enc).run(enc));
    } else {
        assert(enc[at] == c);
        lemma_one_char(enc, at, '\n');
        lemma_one_char(enc, at, '\\');
        lemma_one_char(enc, at, '#');
        assert(!starts_with_at(enc, at, "<#"@)) by {
            if starts_with_at(enc, at, "<#"@) {
                assert(enc.subrange(at, at + 2)[1] == '#');
                assert(enc[at + 1] == '#');
            }
        }
        lemma_first_match(keys_of(operator_rules()), enc, at, 0);
        let keys = keys_of(operator_rules());
        lemma_one_char(enc, at, '[');
        lemma_one_char(enc, at, ']');
        lemma_one_char(enc, at, '{');
        lemma_one_char(enc, at, '}');
        lemma_one_char(enc, at, ':');
        lemma_one_char(enc, at, ';');
        lemma_one_char(enc, at, '&');
        lemma_one_char(enc, at, '@');
        lemma_no_keyword_in_encoding(s, k);
        assert(!starts_with_at(enc, at, keys[5])) by {
            if starts_with_at(enc, at, keys[5]) {
                assert(enc.subrange(at, at + 3)[0] == ':');
            }
        }
        assert(!starts_with_at(enc, at, keys[6])) by {
            if starts_with_at(enc, at, keys[6]) {
                assert(enc.subrange(at, at + 2)[0] == ':');
            }
        }
        assert(first_match(keys, enc, at).is_none());
        assert(st.step(enc) == reading(s, k + 1));
    }
}

/// The scanner reads the encoding of a text without quote and `#` as one
/// text: the text that was encoded.
pub proof fn lemma_reads_encoding_as_text(s: Seq<char>, k: int)
    requires
        is_literal_free(s),
        0 <= k <= s.len(),
    ensures
        reading(s, k).run(encoded(s)) == reading(s, s.len() as int),
    decreases s.len() - k,
{
    if k < s.len() {
        lemma_reads_one_character(s, k);
        lemma_reads_encoding_as_text(s, k + 1);
    }
}


/// The tokens of the encoding of a text without quote and `#`: one text that
/// holds the tidied text, or no token where the text is blank.
pub proof fn lemma_encoded_text_is_one_token(s: Seq<char>)
    requires
        is_literal_free(s),
    ensures
        lexed(encoded(s)) == (if is_blank(s) {
            Seq::<(usize, TokenView)>::empty()
        } else {
            seq![(newlines(s, s.len() as int) as usize, TokenView::Text(tidy(s)))]
        }),
{
    let enc = encoded(s);
    lemma_reads_encoding_as_text(s, 0);
    assert(s.take(0) =~= Seq::empty());
    assert(reading(s, 0) == LexState::start());
    assert(s.take(s.len() as int) =~= s);
    let line = newlines(s, s.len() as int) as usize;
    let tokens = scanned(enc);
    assert(tokens =~= seq![(line, TokenView::Text(s))]);
    assert(tokens.drop_last() =~= Seq::empty());
    assert(cleaned(tokens.drop_last()) =~= Seq::empty());
    if !is_blank(s) {
        assert(cleaned(tokens) =~= seq![(line, TokenView::Text(tidy(s)))]);
    }
}

/// To encode a text and take the encoding through the lexer, the parser and
/// the expansion gives the text back: a tree of one text node that holds the
/// tidied text. A blank text gives the empty tree.
///
/// This holds of every text without quote and `#`. A quote opens a literal
/// and `#` a comment, and the encoding escapes neither.
pub proof fn lemma_encoded_text_compiles_to_text(s: Seq<char>)
    requires
        is_literal_free(s),
    ensures
        compiled(encoded(s)) == Ok::<Seq<ExpandedNodeView>, ErrorView>(
            if is_blank(s) {
                Seq::empty()
            } else {
                seq![ExpandedNodeView::Text(tidy(s))]
            },
        ),
{
    reveal_with_fuel(nodes_until, 3);
    reveal_with_fuel(expand_scope, 3);
    lemma_encoded_text_is_one_token(s);
    let tokens = lexed(encoded(s));
    if !is_blank(s) {
        let line = newlines(s, s.len() as int) as usize;
        assert(tokens[0] == (line, TokenView::Text(tidy(s))));
        assert(tokens.drop_first() =~= Seq::empty());
        let nodes = seq![AstNodeView::Text(tidy(s))];
        assert(nodes + Seq::<AstNodeView>::empty() =~= nodes);
        assert(parsed(tokens) == Ok::<Seq<AstNodeView>, ErrorView>(nodes));
        assert(nodes[0] == AstNodeView::Text(tidy(s)));
        assert(nodes.subrange(1, 1) =~= Seq::empty());
        let out = seq![ExpandedNodeView::Text(tidy(s))];
        assert(out + Seq::<ExpandedNodeView>::empty() =~= out);
    } else {
        assert(parsed(tokens) == Ok::<Seq<AstNodeView>, ErrorView>(Seq::empty()));
    }
}

/// Whether a quote stands where the text `a` ends or the text `b` starts,
/// or one of the two is empty.
pub open spec fn meet_at_quote(a: Seq<char>, b: Seq<char>) -> bool {
    ||| a.len() == 0
    ||| b.len() == 0
    ||| is_quote(a[a.len() - 1])
    ||| is_quote(b[0])
}

/// Where two texts meet at a quote, a mark starts in the two as one text
/// exactly where it starts in the one or in the other: the keyword cannot
/// start in the one and end in the other.
pub proof fn lemma_marks_of_parts(a: Seq<char>, b: Seq<char>, i: int)
    requires
        meet_at_quote(a, b),
        0 <= i < a.len() + b.len(),
    ensures
        is_marked(a + b, i) == (if i < a.len() {
            is_marked(a, i)
        } else {
            is_marked(b, i - a.len())
        }),
{
    let s = a + b;
    let n = a.len() as int;
    let word = seq!['m', 'a', 'c', 'r'];
    lemma_is_marked(s, i);
    if i < n {
        lemma_is_marked(a, i);
        assert(s[i] == a[i]);
        if starts_with_at(a, i, word) {
            assert(s.subrange(i, i + 4) =~= a.subrange(i, i + 4));
        }
        if starts_with_at(s, i, word) {
            let found = s.subrange(i, i + 4);
            assert(found[0] == 'm' && found[1] == 'a' && found[2] == 'c' && found[3] == 'r');
            if i + 4 <= n {
                assert(a.subrange(i, i + 4) =~= found);
            } else {
                assert(s[n - 1] == found[n - 1 - i]);
                assert(s[n] == found[n - i]);
                assert(s[n - 1] == a[n - 1]);
                assert(s[n] == b[0]);
            }
        }
    } else {
        let j = i - n;
        lemma_is_marked(b, j);
        assert(s[i] == b[j]);
        if starts_with_at(b, j, word) {
            assert(s.subrange(i, i + 4) =~= b.subrange(j, j + 4));
        }
        if starts_with_at(s, i, word) {
            assert(b.subrange(j, j + 4) =~= s.subrange(i, i + 4));
        }
    }
}

/// The encoding of the first `k` characters of two texts that meet at a
/// quote, taken as one text.
proof fn lemma_encoding_of_parts_to(a: Seq<char>, b: Seq<char>, k: int)
    requires
        meet_at_quote(a, b),
        0 <= k <= a.len() + b.len(),
    ensures
        encoded_to(a + b, k) == (if k <= a.len() {
            encoded_to(a, k)
        } else {
            encoded(a) + encoded_to(b, k - a.len())
        }),
    decreases k,
{
    let s = a + b;
    let n = a.len() as int;
    if k > 0 {
        lemma_encoding_of_parts_to(a, b, k - 1);
        lemma_marks_of_parts(a, b, k - 1);
        if k <= n {
            assert(s[k - 1] == a[k - 1]);
        } else {
            assert(s[k - 1] == b[k - 1 - n]);
            if k - 1 == n {
                assert(encoded_to(b, 0) =~= Seq::empty());
                assert(encoded(a) + encoded_to(b, 0) =~= encoded(a));
            }
            assert(encoded_to(s, k) =~= encoded(a) + encoded_to(b, k - n));
        }
    }
}

/// The encoding of two texts that meet at a quote, taken as one text, is
/// the encoding of the one and then of the other.
pub proof fn lemma_encoding_of_parts(a: Seq<char>, b: Seq<char>)
    requires
        meet_at_quote(a, b),
    ensures
        encoded(a + b) == encoded(a) + encoded(b),
{
    lemma_encoding_of_parts_to(a, b, (a.len() + b.len()) as int);
    if b.len() == 0 {
        assert(a + b =~= a);
        assert(encoded_to(b, 0) =~= Seq::empty());
        assert(encoded(a) + encoded(b) =~= encoded(a));
    }
}

} // verus!
