//! What the scanner makes of a source text, character by character.

use crate::lexer::str_walker::next_stop;
use crate::lexer::{Escape, StringLiteralView, TokenView};
use crate::text::{first_match, is_blank, is_whitespace, lemma_first_match, starts_with_at, tidy};
use vstd::prelude::*;

verus! {

/// The two characters that open and close a quoted literal.
pub open spec fn is_quote(ch: char) -> bool {
    ch == '\'' || ch == '"'
}

/// The keys of a table of rules.
pub open spec fn keys_of<T>(rules: Seq<(Seq<char>, T)>) -> Seq<Seq<char>> {
    Seq::new(rules.len(), |k: int| rules[k].0)
}

/// The operators and keywords, in the order in which they are tried: the
/// first that stands at a place wins, so `:= ` comes before `:=` and `:=`
/// before `:`.
pub open spec fn operator_rules() -> Seq<(Seq<char>, TokenView)> {
    seq![
        ("["@, TokenView::OpenBracket),
        ("]"@, TokenView::CloseBracket),
        ("{"@, TokenView::OpenBrace),
        ("}"@, TokenView::CloseBrace),
        ("macr"@, TokenView::Macr),
        (":= "@, TokenView::Walrus),
        (":="@, TokenView::Walrus),
        (":"@, TokenView::Colon),
        (";"@, TokenView::SemiColon),
        ("&"@, TokenView::Andpersand),
        ("@"@, TokenView::At),
    ]
}

/// The letters that, behind a backslash, stand for a control character.
pub open spec fn escape_rules() -> Seq<(Seq<char>, Escape)> {
    seq![("r"@, Escape::CarriageReturn), ("n"@, Escape::Newline), ("t"@, Escape::Tab)]
}

/// What the scanner has done with the start of a text.
pub struct LexState {
    /// The tokens that are closed.
    pub tokens: Seq<(usize, TokenView)>,
    /// The number of line ends met.
    pub line: nat,
    /// The token in progress.
    pub current: TokenView,
    /// How many comments are open, one inside the other.
    pub depth: nat,
    /// Whether the last character was a backslash that was not itself escaped.
    pub escaped: bool,
    /// The index of the next character.
    pub pos: int,
}

/// The closed tokens and the token in progress after the token in progress
/// has been closed on line `line` and `next` opened.
pub open spec fn switched(
    tokens: Seq<(usize, TokenView)>,
    line: usize,
    current: TokenView,
    next: TokenView,
) -> (Seq<(usize, TokenView)>, TokenView) {
    (tokens.push((line, current)), next)
}

/// The closed tokens and the token in progress after the character `ch` has
/// been taken in on line `line`.
///
/// A quote opens a literal, and the same quote closes it. Otherwise the
/// character goes into the token in progress; behind an operator a new token
/// is opened for it first, an identifier where the operator asks for one, and
/// white space ends an identifier.
pub open spec fn pushed(
    tokens: Seq<(usize, TokenView)>,
    line: usize,
    current: TokenView,
    ch: char,
) -> (Seq<(usize, TokenView)>, TokenView) {
    if is_quote(ch) && !(current is Stringliteral) {
        switched(
            tokens,
            line,
            current,
            TokenView::Stringliteral(StringLiteralView { quotes: ch, content: Seq::empty() }),
        )
    } else if current is Stringliteral && current->Stringliteral_0.quotes == ch {
        switched(tokens, line, current, TokenView::empty())
    } else {
        let a = if current.text().is_none() {
            switched(
                tokens,
                line,
                current,
                if current.creates_ident() {
                    TokenView::Ident(Seq::empty())
                } else {
                    TokenView::empty()
                },
            )
        } else {
            (tokens, current)
        };
        let b = if a.1 is Ident && is_whitespace(ch) {
            switched(a.0, line, a.1, TokenView::empty())
        } else {
            a
        };
        (b.0, b.1.with_char(ch))
    }
}

impl LexState {
    /// The state before the first character.
    pub open spec fn start() -> LexState {
        LexState {
            tokens: Seq::empty(),
            line: 0,
            current: TokenView::empty(),
            depth: 0,
            escaped: false,
            pos: 0,
        }
    }

    /// The state after the token in progress has been closed and `next`
    /// opened, with the scanner moved on to `pos`.
    pub open spec fn switch(self, next: TokenView, pos: int) -> LexState {
        let (tokens, current) = switched(self.tokens, self.line as usize, self.current, next);
        LexState { tokens, current, pos, ..self }
    }

    /// The state after the character `ch` has been taken in.
    pub open spec fn push(self, ch: char) -> LexState {
        let (tokens, current) = pushed(self.tokens, self.line as usize, self.current, ch);
        LexState { tokens, current, pos: self.pos + 1, ..self }
    }

    /// The state one step on, for a state that is not at the end of `s`.
    ///
    /// A line end is counted when the scanner stands on it. Then the first
    /// of these that applies decides:
    /// 1. behind a backslash, one of the escape letters becomes an escape
    ///    token and any other character is taken in as it stands;
    /// 2. a backslash is dropped and marks the next character;
    /// 3. `<#` opens a comment, and inside a comment `#>` closes one and
    ///    any other character is dropped;
    /// 4. `#` starts a comment that runs up to the next line end;
    /// 5. inside a quoted literal the character is taken in;
    /// 6. an operator or keyword closes the token in progress and becomes the
    ///    new one;
    /// 7. the character is taken in.
    pub open spec fn step(self, s: Seq<char>) -> LexState {
        let i = self.pos;
        let st = if starts_with_at(s, i, "\n"@) {
            LexState { line: self.line + 1, ..self }
        } else {
            self
        };
        if st.escaped {
            let st = LexState { escaped: false, ..st };
            match first_match(keys_of(escape_rules()), s, i) {
                Some(k) => st.switch(
                    TokenView::Escape(escape_rules()[k].1),
                    i + escape_rules()[k].0.len(),
                ),
                None => st.push(s[i]),
            }
        } else if starts_with_at(s, i, "\\"@) {
            LexState { escaped: true, pos: i + 1, ..st }
        } else if starts_with_at(s, i, "<#"@) {
            LexState { depth: st.depth + 1, pos: i + 2, ..st }
        } else if st.depth > 0 && starts_with_at(s, i, "#>"@) {
            LexState { depth: (st.depth - 1) as nat, pos: i + 2, ..st }
        } else if st.depth > 0 {
            LexState { pos: i + 1, ..st }
        } else if starts_with_at(s, i, "#"@) {
            LexState { pos: next_stop(s, i, "\n"@), ..st }
        } else if st.current is Stringliteral {
            st.push(s[i])
        } else {
            match first_match(keys_of(operator_rules()), s, i) {
                Some(k) => st.switch(operator_rules()[k].1, i + operator_rules()[k].0.len()),
                None => st.push(s[i]),
            }
        }
    }

    /// The state at the end of `s`.
    pub open spec fn run(self, s: Seq<char>) -> LexState
        decreases s.len() - self.pos,
    {
        if 0 <= self.pos < s.len() {
            proof {
                lemma_step_advances(self, s);
            }
            self.step(s).run(s)
        } else {
            self
        }
    }
}

/// A step moves the scanner forward, and never past the end.
pub proof fn lemma_step_advances(st: LexState, s: Seq<char>)
    requires
        0 <= st.pos < s.len(),
    ensures
        st.pos < st.step(s).pos <= s.len(),
{
    lemma_rule_lengths();
    lemma_next_stop_bounds(s, st.pos, "\n"@);
    lemma_first_match(keys_of(escape_rules()), s, st.pos, 0);
    lemma_first_match(keys_of(operator_rules()), s, st.pos, 0);
}

/// The keys of the rules and the marks of comments and escapes, character by
/// character.
pub proof fn lemma_rule_lengths()
    ensures
        "\n"@ == seq!['\n'],
        "\\"@ == seq!['\\'],
        "<#"@ == seq!['<', '#'],
        "#>"@ == seq!['#', '>'],
        "#"@ == seq!['#'],
        keys_of(escape_rules()) == seq![seq!['r'], seq!['n'], seq!['t']],
        keys_of(operator_rules()) == seq![
            seq!['['],
            seq![']'],
            seq!['{'],
            seq!['}'],
            seq!['m', 'a', 'c', 'r'],
            seq![':', '=', ' '],
            seq![':', '='],
            seq![':'],
            seq![';'],
            seq!['&'],
            seq!['@'],
        ],
{
    reveal_strlit("\n");
    reveal_strlit("\\");
    reveal_strlit("<#");
    reveal_strlit("#>");
    reveal_strlit("#");
    reveal_strlit("r");
    reveal_strlit("n");
    reveal_strlit("t");
    reveal_strlit("[");
    reveal_strlit("]");
    reveal_strlit("{");
    reveal_strlit("}");
    reveal_strlit("macr");
    reveal_strlit(":= ");
    reveal_strlit(":=");
    reveal_strlit(":");
    reveal_strlit(";");
    reveal_strlit("&");
    reveal_strlit("@");
    assert("\n"@ =~= seq!['\n']);
    assert("\\"@ =~= seq!['\\']);
    assert("<#"@ =~= seq!['<', '#']);
    assert("#>"@ =~= seq!['#', '>']);
    assert("#"@ =~= seq!['#']);
    assert("r"@ =~= seq!['r']);
    assert("n"@ =~= seq!['n']);
    assert("t"@ =~= seq!['t']);
    assert("["@ =~= seq!['[']);
    assert("]"@ =~= seq![']']);
    assert("{"@ =~= seq!['{']);
    assert("}"@ =~= seq!['}']);
    assert("macr"@ =~= seq!['m', 'a', 'c', 'r']);
    assert(":= "@ =~= seq![':', '=', ' ']);
    assert(":="@ =~= seq![':', '=']);
    assert(":"@ =~= seq![':']);
    assert(";"@ =~= seq![';']);
    assert("&"@ =~= seq!['&']);
    assert("@"@ =~= seq!['@']);
    assert(keys_of(escape_rules()) =~= seq![seq!['r'], seq!['n'], seq!['t']]);
    assert(keys_of(operator_rules()) =~= seq![
        seq!['['],
        seq![']'],
        seq!['{'],
        seq!['}'],
        seq!['m', 'a', 'c', 'r'],
        seq![':', '=', ' '],
        seq![':', '='],
        seq![':'],
        seq![';'],
        seq!['&'],
        seq!['@'],
    ]);
}

/// A walk that looks for `target` moves forward, and never past the end.
pub proof fn lemma_next_stop_bounds(s: Seq<char>, i: int, target: Seq<char>)
    requires
        0 <= i < s.len(),
    ensures
        i < next_stop(s, i, target) <= s.len(),
    decreases s.len() - i,
{
    if i + 1 < s.len() && !starts_with_at(s, i + 1, target) {
        lemma_next_stop_bounds(s, i + 1, target);
    }
}

/// The tokens of `s` as the scanner leaves them: every closed token, then
/// the token that was in progress at the end.
pub open spec fn scanned(s: Seq<char>) -> Seq<(usize, TokenView)> {
    let end = LexState::start().run(s);
    end.tokens.push((end.line as usize, end.current))
}

/// Whether cleaning keeps the token: any but one whose text is blank.
pub open spec fn is_kept(token: TokenView) -> bool {
    match token.text() {
        Some(s) => !is_blank(s),
        None => true,
    }
}

/// The token with its text tidied.
pub open spec fn tidied(token: TokenView) -> TokenView {
    match token.text() {
        Some(s) => token.with_text(tidy(s)),
        None => token,
    }
}

/// The tokens that are kept, in their order and on their lines, each with its
/// text tidied.
pub open spec fn cleaned(tokens: Seq<(usize, TokenView)>) -> Seq<(usize, TokenView)>
    decreases tokens.len(),
{
    if tokens.len() == 0 {
        Seq::empty()
    } else if is_kept(tokens.last().1) {
        cleaned(tokens.drop_last()).push((tokens.last().0, tidied(tokens.last().1)))
    } else {
        cleaned(tokens.drop_last())
    }
}

/// The tokens of the source text `s`.
pub open spec fn lexed(s: Seq<char>) -> Seq<(usize, TokenView)> {
    cleaned(scanned(s))
}

/// Cleaning takes the tokens one by one: a token that is kept comes last in
/// the cleaned tokens, tidied, and another leaves them as they are.
pub proof fn lemma_cleaned_push(tokens: Seq<(usize, TokenView)>, last: (usize, TokenView))
    ensures
        cleaned(tokens.push(last)) == (if is_kept(last.1) {
            cleaned(tokens).push((last.0, tidied(last.1)))
        } else {
            cleaned(tokens)
        }),
{
    assert(tokens.push(last).drop_last() =~= tokens);
}

/// The cleaned tokens of two streams, one after the other, are the cleaned
/// tokens of the one and then of the other.
pub proof fn lemma_cleaned_concat(first: Seq<(usize, TokenView)>, second: Seq<(usize, TokenView)>)
    ensures
        cleaned(first + second) == cleaned(first) + cleaned(second),
    decreases second.len(),
{
    if second.len() == 0 {
        assert(first + second =~= first);
        assert(cleaned(first) + cleaned(second) =~= cleaned(first));
    } else {
        lemma_cleaned_concat(first, second.drop_last());
        assert((first + second).drop_last() =~= first + second.drop_last());
        assert((first + second).last() == second.last());
        if is_kept(second.last().1) {
            assert((cleaned(first) + cleaned(second.drop_last())).push(
                (second.last().0, tidied(second.last().1)),
            ) =~= cleaned(first) + cleaned(second));
        }
    }
}

} // verus!
