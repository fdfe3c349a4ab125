//! The lexer: source text to a stream of line-stamped tokens.

pub mod scan;
pub mod str_walker;

pub use scan::{
    cleaned, escape_rules, is_kept, is_quote, keys_of, lemma_cleaned_concat, lemma_cleaned_push,
    lemma_next_stop_bounds, lemma_rule_lengths, lemma_step_advances, lexed, operator_rules, pushed,
    scanned, switched, tidied, LexState,
};

use crate::error::{CatResult, ErrorView, TeaCatError};
use crate::text::{
    char_is_whitespace, first_match, lemma_byte_len_of_ascii, lemma_first_match, push_char,
    str_is_blank, tidy_str,
};
use std::collections::VecDeque;
use str_walker::{rule_keys, StrWalker};
use vstd::prelude::*;

verus! {


/// A backslash escape that stands for a control character.
#[derive(Debug, Clone, Copy, PartialEq, Eq, Structural)]
pub enum Escape {
    /// `\n`
    Newline,
    /// `\r`
    CarriageReturn,
    /// `\t`
    Tab,
}

/// A quoted literal: the quote character that opened it and the text between
/// the quotes.
#[derive(Debug)]
pub struct StringLiteral {
    pub quotes: char,
    pub content: String,
}

/// What a [`StringLiteral`] holds.
pub struct StringLiteralView {
    pub quotes: char,
    pub content: Seq<char>,
}

impl View for StringLiteral {
    type V = StringLiteralView;

    open spec fn view(&self) -> StringLiteralView {
        StringLiteralView { quotes: self.quotes, content: self.content@ }
    }
}

impl Clone for StringLiteral {
    fn clone(&self) -> (res: Self)
        ensures
            res@ == self@,
    {
        StringLiteral { quotes: self.quotes, content: self.content.clone() }
    }
}

impl PartialEq for StringLiteral {
    fn eq(&self, other: &Self) -> (res: bool) {
        self.quotes == other.quotes && self.content == other.content
    }
}

impl vstd::std_specs::cmp::PartialEqSpecImpl for StringLiteral {
    open spec fn obeys_eq_spec() -> bool {
        true
    }

    open spec fn eq_spec(&self, other: &Self) -> bool {
        self@ == other@
    }
}

impl Eq for StringLiteral {

}

impl From<&str> for StringLiteral {
    /// The literal with the content `value` between double quotes.
    fn from(value: &str) -> (literal: Self)
        ensures
            literal@ == (StringLiteralView { quotes: '"', content: value@ }),
    {
        StringLiteral { quotes: '"', content: String::from_str(value) }
    }
}

impl vstd::std_specs::convert::FromSpecImpl<&str> for StringLiteral {
    open spec fn obeys_from_spec() -> bool {
        false
    }

    open spec fn from_spec(value: &str) -> Self {
        arbitrary()
    }
}

/// The basic building blocks of a source text.
#[derive(Debug)]
pub enum Token {
    Ident(String),
    Text(String),
    Escape(Escape),
    Stringliteral(StringLiteral),
    OpenBracket,
    CloseBracket,
    OpenBrace,
    CloseBrace,
    Macr,
    Walrus,
    Colon,
    SemiColon,
    Andpersand,
    At,
}

/// What a [`Token`] holds.
pub enum TokenView {
    Ident(Seq<char>),
    Text(Seq<char>),
    Escape(Escape),
    Stringliteral(StringLiteralView),
    OpenBracket,
    CloseBracket,
    OpenBrace,
    CloseBrace,
    Macr,
    Walrus,
    Colon,
    SemiColon,
    Andpersand,
    At,
}

impl View for Token {
    type V = TokenView;

    open spec fn view(&self) -> TokenView {
        match self {
            Token::Ident(s) => TokenView::Ident(s@),
            Token::Text(s) => TokenView::Text(s@),
            Token::Escape(e) => TokenView::Escape(*e),
            Token::Stringliteral(l) => TokenView::Stringliteral(l@),
            Token::OpenBracket => TokenView::OpenBracket,
            Token::CloseBracket => TokenView::CloseBracket,
            Token::OpenBrace => TokenView::OpenBrace,
            Token::CloseBrace => TokenView::CloseBrace,
            Token::Macr => TokenView::Macr,
            Token::Walrus => TokenView::Walrus,
            Token::Colon => TokenView::Colon,
            Token::SemiColon => TokenView::SemiColon,
            Token::Andpersand => TokenView::Andpersand,
            Token::At => TokenView::At,
        }
    }
}

impl Clone for Token {
    fn clone(&self) -> (res: Self)
        ensures
            res@ == self@,
    {
        match self {
            Token::Ident(s) => Token::Ident(s.clone()),
            Token::Text(s) => Token::Text(s.clone()),
            Token::Escape(e) => Token::Escape(*e),
            Token::Stringliteral(l) => Token::Stringliteral(l.clone()),
            Token::OpenBracket => Token::OpenBracket,
            Token::CloseBracket => Token::CloseBracket,
            Token::OpenBrace => Token::OpenBrace,
            Token::CloseBrace => Token::CloseBrace,
            Token::Macr => Token::Macr,
            Token::Walrus => Token::Walrus,
            Token::Colon => Token::Colon,
            Token::SemiColon => Token::SemiColon,
            Token::Andpersand => Token::Andpersand,
            Token::At => Token::At,
        }
    }
}

impl PartialEq for Token {
    fn eq(&self, other: &Self) -> (res: bool) {
        match self {
            Token::Ident(a) => match other {
                Token::Ident(b) => *a == *b,
                _ => false,
            },
            Token::Text(a) => match other {
                Token::Text(b) => *a == *b,
                _ => false,
            },
            Token::Escape(a) => match other {
                Token::Escape(b) => *a == *b,
                _ => false,
            },
            Token::Stringliteral(a) => match other {
                Token::Stringliteral(b) => *a == *b,
                _ => false,
            },
            Token::OpenBracket => matches!(other, Token::OpenBracket),
            Token::CloseBracket => matches!(other, Token::CloseBracket),
            Token::OpenBrace => matches!(other, Token::OpenBrace),
            Token::CloseBrace => matches!(other, Token::CloseBrace),
            Token::Macr => matches!(other, Token::Macr),
            Token::Walrus => matches!(other, Token::Walrus),
            Token::Colon => matches!(other, Token::Colon),
            Token::SemiColon => matches!(other, Token::SemiColon),
            Token::Andpersand => matches!(other, Token::Andpersand),
            Token::At => matches!(other, Token::At),
        }
    }
}

impl vstd::std_specs::cmp::PartialEqSpecImpl for Token {
    open spec fn obeys_eq_spec() -> bool {
        true
    }

    open spec fn eq_spec(&self, other: &Self) -> bool {
        self@ == other@
    }
}

impl Eq for Token {

}

impl TokenView {
    /// The token that a fresh piece of text starts as.
    pub open spec fn empty() -> TokenView {
        TokenView::Text(Seq::empty())
    }

    /// The text that the token carries, if it is of a kind that carries text.
    pub open spec fn text(self) -> Option<Seq<char>> {
        match self {
            TokenView::Text(s) => Some(s),
            TokenView::Ident(s) => Some(s),
            TokenView::Stringliteral(l) => Some(l.content),
            _ => None,
        }
    }

    /// The token with its text replaced; a token without text stays as it is.
    pub open spec fn with_text(self, s: Seq<char>) -> TokenView {
        match self {
            TokenView::Text(_) => TokenView::Text(s),
            TokenView::Ident(_) => TokenView::Ident(s),
            TokenView::Stringliteral(l) => TokenView::Stringliteral(
                StringLiteralView { quotes: l.quotes, content: s },
            ),
            other => other,
        }
    }

    /// The token with `ch` added to the end of its text.
    pub open spec fn with_char(self, ch: char) -> TokenView {
        match self.text() {
            Some(s) => self.with_text(s.push(ch)),
            None => self,
        }
    }

    /// Whether the text that follows the token is an identifier.
    pub open spec fn creates_ident(self) -> bool {
        self is Colon || self is Andpersand || self is At
    }
}

/// The control character that an escape stands for, as a text.
pub open spec fn escape_printed(escape: Escape) -> Seq<char> {
    match escape {
        Escape::CarriageReturn => "\r"@,
        Escape::Newline => "\n"@,
        Escape::Tab => "\t"@,
    }
}

/// A literal as it is written: its content between its quotes.
pub open spec fn literal_printed(literal: StringLiteralView) -> Seq<char> {
    seq![literal.quotes] + literal.content + seq![literal.quotes]
}

/// The printable form of a token.
pub open spec fn printed(token: TokenView) -> Seq<char> {
    match token {
        TokenView::Stringliteral(literal) => literal_printed(literal),
        TokenView::Text(s) => s,
        TokenView::Ident(s) => s,
        TokenView::Escape(escape) => escape_printed(escape),
        TokenView::Andpersand => "&"@,
        TokenView::CloseBrace => "}"@,
        TokenView::CloseBracket => "]"@,
        TokenView::Colon => ":"@,
        TokenView::OpenBrace => "{"@,
        TokenView::OpenBracket => "["@,
        TokenView::SemiColon => ";"@,
        TokenView::Walrus => ":="@,
        TokenView::At => "@"@,
        TokenView::Macr => " macr "@,
    }
}

impl Escape {
    /// The rules by which the scanner finds an escape behind a backslash.
    pub fn rules() -> (rules: Vec<(&'static str, Escape)>)
        ensures
            rule_keys(rules@) == keys_of(escape_rules()),
            rules@.len() == escape_rules().len(),
            forall|k: int| 0 <= k < rules@.len() ==> (#[trigger] rules@[k]).1 == escape_rules()[k].1,
    {
        let rules = vec![("r", Escape::CarriageReturn), ("n", Escape::Newline), ("t", Escape::Tab)];
        assert(rule_keys(rules@) =~= keys_of(escape_rules()));
        rules
    }

    /// The control character that the escape stands for, as a text.
    pub fn to_string(&self) -> (text: String)
        ensures
            text@ == escape_printed(*self),
    {
        match self {
            Escape::CarriageReturn => String::from_str("\r"),
            Escape::Newline => String::from_str("\n"),
            Escape::Tab => String::from_str("\t"),
        }
    }
}

impl StringLiteral {
    /// A literal between two `quotes`.
    pub fn new(quotes: char, content: String) -> (literal: Self)
        ensures
            literal@ == (StringLiteralView { quotes, content: content@ }),
    {
        Self { quotes, content }
    }

    /// A literal with nothing between its quotes.
    pub fn empty(quotes: char) -> (literal: Self)
        ensures
            literal@ == (StringLiteralView { quotes, content: Seq::empty() }),
    {
        Self::new(quotes, String::new())
    }

    /// The literal as it is written: its content between its quotes.
    pub fn into_string(&self) -> (text: String)
        ensures
            text@ == literal_printed(self@),
    {
        let mut text = String::new();
        push_char(&mut text, self.quotes);
        text.append(self.content.as_str());
        push_char(&mut text, self.quotes);
        text
    }
}

impl Token {
    /// The rules by which the scanner finds operators and keywords.
    pub fn rules() -> (rules: Vec<(&'static str, Token)>)
        ensures
            rule_keys(rules@) == keys_of(operator_rules()),
            rules@.len() == operator_rules().len(),
            forall|k: int|
                0 <= k < rules@.len() ==> (#[trigger] rules@[k]).1@ == operator_rules()[k].1,
    {
        let rules = vec![
            ("[", Token::OpenBracket),
            ("]", Token::CloseBracket),
            ("{", Token::OpenBrace),
            ("}", Token::CloseBrace),
            ("macr", Token::Macr),
            (":= ", Token::Walrus),
            (":=", Token::Walrus),
            (":", Token::Colon),
            (";", Token::SemiColon),
            ("&", Token::Andpersand),
            ("@", Token::At),
        ];
        assert(rule_keys(rules@) =~= keys_of(operator_rules()));
        rules
    }

    /// The token that a fresh piece of text starts as.
    pub fn empty() -> (token: Self)
        ensures
            token@ == TokenView::empty(),
    {
        Token::Text(String::new())
    }

    /// The text that the token carries, if it is of a kind that carries text.
    pub fn string_ref(&self) -> (text: Option<&str>)
        ensures
            match text {
                Some(s) => self@.text() == Some(s@),
                None => self@.text().is_none(),
            },
    {
        match self {
            Token::Text(s) => Some(s.as_str()),
            Token::Ident(s) => Some(s.as_str()),
            Token::Stringliteral(l) => Some(l.content.as_str()),
            _ => None,
        }
    }

    /// Adds `ch` to the end of the token's text; a token without text stays
    /// as it is.
    pub fn push_char(&mut self, ch: char)
        ensures
            final(self)@ == old(self)@.with_char(ch),
    {
        match self {
            Token::Text(s) => push_char(s, ch),
            Token::Ident(s) => push_char(s, ch),
            Token::Stringliteral(l) => push_char(&mut l.content, ch),
            _ => {},
        }
    }

    /// Whether the text that follows the token is an identifier.
    pub fn creates_ident(&self) -> (creates: bool)
        ensures
            creates == self@.creates_ident(),
    {
        matches!(self, Token::Colon | Token::Andpersand | Token::At)
    }

    /// The text that the token carries, to be changed in place, if it is of a
    /// kind that carries text.
    pub fn string_mut(&mut self) -> (text: Option<&mut String>)
        ensures
            match text {
                Some(s) => old(self)@.text() == Some(s@) && final(self)@ == old(self)@.with_text(
                    final(s)@,
                ),
                None => old(self)@.text().is_none() && final(self)@ == old(self)@,
            },
    {
        match self {
            Token::Text(s) => Some(s),
            Token::Ident(s) => Some(s),
            Token::Stringliteral(l) => Some(&mut l.content),
            _ => None,
        }
    }

    /// The printable form of the token.
    pub fn to_string(&self) -> (text: String)
        ensures
            text@ == printed(self@),
    {
        match self {
            Token::Stringliteral(literal) => literal.into_string(),
            Token::Text(s) => s.clone(),
            Token::Ident(s) => s.clone(),
            Token::Escape(escape) => escape.to_string(),
            Token::Andpersand => String::from_str("&"),
            Token::CloseBrace => String::from_str("}"),
            Token::CloseBracket => String::from_str("]"),
            Token::Colon => String::from_str(":"),
            Token::OpenBrace => String::from_str("{"),
            Token::OpenBracket => String::from_str("["),
            Token::SemiColon => String::from_str(";"),
            Token::Walrus => String::from_str(":="),
            Token::At => String::from_str("@"),
            Token::Macr => String::from_str(" macr "),
        }
    }
}

/// A list of tokens, each with the line on which it was closed.
#[derive(Debug, PartialEq, Eq)]
pub struct TokenStream(pub VecDeque<(usize, Token)>);

impl View for TokenStream {
    type V = Seq<(usize, TokenView)>;

    open spec fn view(&self) -> Seq<(usize, TokenView)> {
        Seq::new(self.0@.len(), |i: int| (self.0@[i].0, self.0@[i].1@))
    }
}

/// What a check of the front token gives, and the tokens that are left: the
/// front token goes wherever there is one.
pub open spec fn expected(
    tokens: Seq<(usize, TokenView)>,
    token: TokenView,
) -> Result<Seq<(usize, TokenView)>, ErrorView> {
    if tokens.len() == 0 {
        Err(ErrorView::EarlyEof(0, token))
    } else if tokens[0].1 == token {
        Ok(tokens.drop_first())
    } else {
        Err(ErrorView::UnexpectedToken(tokens[0].0, tokens[0].1))
    }
}

/// The identifier at the front of the tokens with its line, and the tokens
/// that are left.
pub open spec fn ident_at_front(tokens: Seq<(usize, TokenView)>) -> Result<
    (usize, Seq<char>, Seq<(usize, TokenView)>),
    ErrorView,
> {
    if tokens.len() == 0 {
        Err(ErrorView::EarlyEof(0, TokenView::Ident("ident"@)))
    } else {
        match tokens[0].1 {
            TokenView::Ident(name) => Ok((tokens[0].0, name, tokens.drop_first())),
            other => Err(ErrorView::ExpectedIdent(tokens[0].0, other)),
        }
    }
}

/// The tokens, each with the line 0.
pub open spec fn on_line_zero(tokens: Seq<Token>) -> Seq<(usize, TokenView)> {
    Seq::new(tokens.len(), |i: int| (0usize, tokens[i]@))
}

impl TokenStream {
    /// Turns a source text into its tokens.
    pub fn lex(input: &str) -> (stream: Self)
        ensures
            stream@ == lexed(input@),
    {
        let mut walker = StrWalker::new(input);
        let mut tokenstream = TokenStream(VecDeque::new());
        let mut current: (usize, Token) = (0, Token::empty());
        let mut comment_nesting: usize = 0;
        let mut escaped = false;
        let operators = Token::rules();
        let escapes = Escape::rules();
        let ghost s = input@;
        let ghost mut st = LexState::start();
        assert(tokenstream@ =~= st.tokens);
        while !walker.reached_end()
            invariant
                walker.text() == s,
                s.len() <= usize::MAX,
                walker.position() == st.pos,
                0 <= st.pos <= s.len(),
                tokenstream@ == st.tokens,
                current.0 == st.line,
                current.1@ == st.current,
                comment_nesting == st.depth,
                escaped == st.escaped,
                st.line <= st.pos,
                st.depth <= st.pos,
                st.run(s) == LexState::start().run(s),
                rule_keys(operators@) == keys_of(operator_rules()),
                operators@.len() == operator_rules().len(),
                forall|k: int|
                    0 <= k < operators@.len() ==> (#[trigger] operators@[k]).1@
                        == operator_rules()[k].1,
                rule_keys(escapes@) == keys_of(escape_rules()),
                escapes@.len() == escape_rules().len(),
                forall|k: int|
                    0 <= k < escapes@.len() ==> (#[trigger] escapes@[k]).1 == escape_rules()[k].1,
            decreases s.len() - st.pos,
        {
            proof {
                lemma_step_advances(st, s);
                lemma_rule_lengths();
                lemma_first_match(keys_of(escape_rules()), s, st.pos, 0);
                lemma_first_match(keys_of(operator_rules()), s, st.pos, 0);
            }
            let ghost next = st.step(s);
            if walker.currently_starts_with("\n") {
                current.0 += 1;
            }
            if escaped {
                match walker.try_each(escapes.as_slice()) {
                    Some(esc) => {
                        tokenstream.switch(&mut current, Token::Escape(esc));
                    },
                    None => {
                        tokenstream.push_current_ch(&mut walker, &mut current);
                    },
                }
                escaped = false;
            } else if walker.currently_starts_with("\\") {
                proof {
                    lemma_byte_len_of_ascii(s.subrange(st.pos, st.pos + 1));
                }
                walker.jump_by(1);
                escaped = true;
            } else if walker.currently_starts_with("<#") {
                proof {
                    lemma_byte_len_of_ascii(s.subrange(st.pos, st.pos + 2));
                }
                walker.jump_by(2);
                comment_nesting += 1;
            } else if comment_nesting > 0 && walker.currently_starts_with("#>") {
                proof {
                    lemma_byte_len_of_ascii(s.subrange(st.pos, st.pos + 2));
                }
                walker.jump_by(2);
                comment_nesting -= 1;
            } else if comment_nesting > 0 {
                walker.next_char();
            } else if walker.currently_starts_with("#") {
                walker.jump_to_next("\n");
            } else if matches!(current.1, Token::Stringliteral(_)) {
                tokenstream.push_current_ch(&mut walker, &mut current);
            } else {
                match walker.try_each(operators.as_slice()) {
                    Some(token) => {
                        tokenstream.switch(&mut current, token);
                    },
                    None => {
                        tokenstream.push_current_ch(&mut walker, &mut current);
                    },
                }
            }
            proof {
                st = next;
            }
        }
        tokenstream.push(current);
        tokenstream.clean_tokens();
        tokenstream
    }

    /// Drops the tokens whose text is blank and tidies the text of the
    /// others.
    fn clean_tokens(&mut self)
        ensures
            final(self)@ == cleaned(old(self)@),
    {
        let mut kept: VecDeque<(usize, Token)> = VecDeque::new();
        let ghost all = self@;
        let ghost mut done: int = 0;
        assert(all.take(0) =~= Seq::empty());
        loop
            invariant
                0 <= done <= all.len(),
                self@ == all.skip(done),
                (TokenStream(kept))@ == cleaned(all.take(done)),
            ensures
                (TokenStream(kept))@ == cleaned(all),
            decreases all.len() - done,
        {
            let (line, mut token) = match self.pop() {
                Some(pair) => pair,
                None => {
                    assert(all.take(done) == all);
                    break ;
                },
            };
            proof {
                assert(all.take(done + 1).drop_last() == all.take(done));
                assert(all.take(done + 1).last() == (line, token@));
                assert(all.skip(done).drop_first() == all.skip(done + 1));
                done = done + 1;
            }
            let tidied = match token.string_ref() {
                Some(text) => if str_is_blank(text) {
                    continue ;
                } else {
                    Some(tidy_str(text))
                },
                None => None,
            };
            if let Some(text) = tidied {
                if let Some(string) = token.string_mut() {
                    *string = text;
                }
            }
            let ghost before = (TokenStream(kept))@;
            kept.push_back((line, token));
            assert((TokenStream(kept))@ =~= before.push((line, token@)));
        }
        self.0 = kept;
    }

    /// Closes the token in progress and opens `next`.
    fn switch(&mut self, current: &mut (usize, Token), next: Token)
        ensures
            (final(self)@, final(current).1@) == switched(
                old(self)@,
                old(current).0,
                old(current).1@,
                next@,
            ),
            final(current).0 == old(current).0,
    {
        let mut token = next;
        std::mem::swap(&mut current.1, &mut token);
        self.push((current.0, token));
    }

    /// Takes the next character of `input` into the token in progress, or
    /// into a new one where it cannot go there.
    fn push_current_ch(&mut self, input: &mut StrWalker, current: &mut (usize, Token))
        requires
            old(input).position() < old(input).text().len(),
        ensures
            final(input).text() == old(input).text(),
            final(input).position() == old(input).position() + 1,
            final(current).0 == old(current).0,
            (final(self)@, final(current).1@) == pushed(
                old(self)@,
                old(current).0,
                old(current).1@,
                old(input).text()[old(input).position()],
            ),
    {
        let ch = match input.next_char() {
            Some(ch) => ch,
            None => { return ; },
        };
        let in_literal = matches!(current.1, Token::Stringliteral(_));
        if (ch == '\'' || ch == '"') && !in_literal {
            self.switch(current, Token::Stringliteral(StringLiteral::empty(ch)));
            return ;
        }
        let closes = match &current.1 {
            Token::Stringliteral(literal) => literal.quotes == ch,
            _ => false,
        };
        if closes {
            self.switch(current, Token::empty());
            return ;
        }
        if current.1.string_ref().is_none() {
            let token = if current.1.creates_ident() {
                Token::Ident(String::new())
            } else {
                Token::empty()
            };
            self.switch(current, token);
        }
        if matches!(current.1, Token::Ident(_)) && char_is_whitespace(ch) {
            self.switch(current, Token::empty());
        }
        current.1.push_char(ch);
    }

    /// Puts a token and its line at the back of the stream.
    pub fn push(&mut self, val: (usize, Token))
        ensures
            final(self)@ == old(self)@.push((val.0, val.1@)),
    {
        self.0.push_back(val);
        assert(self@ =~= old(self)@.push((val.0, val.1@)));
    }

    /// Takes the token at the front of the stream, and its line, if there is
    /// one.
    pub fn pop(&mut self) -> (front: Option<(usize, Token)>)
        ensures
            match front {
                Some(pair) => old(self)@.len() > 0 && pair == old(self).0@[0] && (pair.0, pair.1@)
                    == old(self)@[0] && final(self)@ == old(self)@.drop_first(),
                None => old(self)@.len() == 0 && final(self)@ == old(self)@,
            },
    {
        let front = self.0.pop_front();
        assert(front.is_some() ==> self@ =~= old(self)@.drop_first());
        assert(front.is_none() ==> self@ =~= old(self)@);
        front
    }

    /// Whether no token is left.
    pub fn is_empty(&self) -> (empty: bool)
        ensures
            empty == (self@.len() == 0),
    {
        self.0.len() == 0
    }

    /// Whether `token` stands at the front of the stream.
    pub fn front_is(&self, token: &Token) -> (is: bool)
        ensures
            is == (self@.len() > 0 && self@[0].1 == token@),
    {
        if self.0.len() == 0 {
            false
        } else {
            self.0[0].1 == *token
        }
    }

    /// Takes the front token, which must be an identifier, and returns its
    /// line and its name. The front token is taken whatever it is.
    pub fn current_ident(&mut self) -> (res: CatResult<(usize, String)>)
        ensures
            match res {
                Ok((line, name)) => ident_at_front(old(self)@) == Ok::<_, ErrorView>(
                    (line, name@, final(self)@),
                ),
                Err(e) => ident_at_front(old(self)@) == Err::<
                    (usize, Seq<char>, Seq<(usize, TokenView)>),
                    _,
                >(e@),
            },
            old(self)@.len() > 0 ==> final(self)@ == old(self)@.drop_first(),
            old(self)@.len() == 0 ==> final(self)@ == old(self)@,
            final(self)@.len() <= old(self)@.len(),
    {
        match self.pop() {
            Some((line, Token::Ident(name))) => Ok((line, name)),
            Some((line, token)) => Err(TeaCatError::ExpectedIdent(line, token)),
            None => Err(TeaCatError::EarlyEof(0, Token::Ident(String::from_str("ident")))),
        }
    }

    /// Takes the front token, which must be `token`. The front token is
    /// taken whatever it is.
    pub fn expect(&mut self, token: Token) -> (res: CatResult<()>)
        ensures
            match res {
                Ok(_) => expected(old(self)@, token@) == Ok::<_, ErrorView>(final(self)@),
                Err(e) => expected(old(self)@, token@) == Err::<Seq<(usize, TokenView)>, _>(e@),
            },
            old(self)@.len() > 0 ==> final(self)@ == old(self)@.drop_first(),
            old(self)@.len() == 0 ==> final(self)@ == old(self)@,
            final(self)@.len() <= old(self)@.len(),
    {
        match self.pop() {
            Some((line, found)) => {
                if found == token {
                    Ok(())
                } else {
                    Err(TeaCatError::UnexpectedToken(line, found))
                }
            },
            None => Err(TeaCatError::EarlyEof(0, token)),
        }
    }

    /// Takes the front token, which must be `token`. Where another token
    /// stands there the error is made by `err_some` from its line and the
    /// token, and where the stream is empty by `err_none`.
    pub fn expect_with_err<F: Fn(usize, Token) -> TeaCatError, G: Fn() -> TeaCatError>(
        &mut self,
        token: Token,
        err_some: F,
        err_none: G,
    ) -> (res: CatResult<()>)
        requires
            forall|line: usize, found: Token| call_requires(err_some, (line, found)),
            call_requires(err_none, ()),
        ensures
            final(self)@.len() <= old(self)@.len(),
            old(self)@.len() > 0 ==> final(self)@ == old(self)@.drop_first(),
            old(self)@.len() == 0 ==> final(self)@ == old(self)@,
            res.is_ok() <==> old(self)@.len() > 0 && old(self)@[0].1 == token@,
            match res {
                Ok(_) => true,
                Err(e) => if old(self)@.len() == 0 {
                    call_ensures(err_none, (), e)
                } else {
                    call_ensures(err_some, (old(self).0@[0].0, old(self).0@[0].1), e)
                },
            },
    {
        match self.pop() {
            Some((line, found)) => {
                if found == token {
                    Ok(())
                } else {
                    Err(err_some(line, found))
                }
            },
            None => Err(err_none()),
        }
    }

    /// The tokens without their lines.
    pub fn tokens(&self) -> (tokens: VecDeque<Token>)
        ensures
            tokens@.len() == self@.len(),
            forall|i: int| 0 <= i < tokens@.len() ==> (#[trigger] tokens@[i])@ == self@[i].1,
    {
        let mut tokens: VecDeque<Token> = VecDeque::new();
        let mut i: usize = 0;
        while i < self.0.len()
            invariant
                i <= self.0.len(),
                tokens@.len() == i,
                forall|k: int| 0 <= k < i ==> (#[trigger] tokens@[k])@ == self@[k].1,
            decreases self.0.len() - i,
        {
            tokens.push_back(self.0[i].1.clone());
            i += 1;
        }
        tokens
    }
}

impl Default for TokenStream {
    fn default() -> (stream: Self)
        ensures
            stream@ == Seq::<(usize, TokenView)>::empty(),
    {
        let stream = TokenStream(VecDeque::new());
        assert(stream@ =~= Seq::empty());
        stream
    }
}

impl From<VecDeque<Token>> for TokenStream {
    fn from(value: VecDeque<Token>) -> (stream: Self)
        ensures
            stream@ == on_line_zero(value@),
    {
        let mut value = value;
        let mut stream = TokenStream(VecDeque::new());
        let ghost all = value@;
        assert(stream@ =~= on_line_zero(all.take(0)));
        loop
            invariant
                value@.len() <= all.len(),
                value@ == all.skip(all.len() - value@.len()),
                stream@ == on_line_zero(all.take(all.len() - value@.len())),
            ensures
                stream@ == on_line_zero(all),
            decreases value@.len(),
        {
            let ghost done = all.len() - value@.len();
            match value.pop_front() {
                Some(token) => {
                    assert(value@ =~= all.skip(done + 1));
                    stream.push((0, token));
                    assert(stream@ =~= on_line_zero(all.take(done + 1)));
                },
                None => {
                    assert(all.take(all.len() as int) == all);
                    break ;
                },
            }
        }
        stream
    }
}

impl vstd::std_specs::convert::FromSpecImpl<VecDeque<Token>> for TokenStream {
    open spec fn obeys_from_spec() -> bool {
        false
    }

    open spec fn from_spec(value: VecDeque<Token>) -> Self {
        arbitrary()
    }
}

/// Tries the rules in order. At the first whose key stands at the start of
/// `input`, takes the key off `input` and returns the rule's item.
pub fn start_of_string<T: Clone>(input: &mut String, rules: &[(&str, T)]) -> (found: Option<T>)
    ensures
        match first_match(rule_keys(rules@), old(input)@, 0) {
            Some(k) => found.is_some() && cloned::<T>(rules@[k].1, found.unwrap()) && final(input)@
                == old(input)@.skip(rules@[k].0@.len() as int),
            None => found.is_none() && final(input)@ == old(input)@,
        },
{
    let mut walker = StrWalker::new(input.as_str());
    let found = walker.try_each(rules);
    if found.is_some() {
        let ghost start = walker.position();
        let mut rest = String::new();
        assert(old(input)@.subrange(start, start) =~= Seq::empty());
        loop
            invariant_except_break
                walker.text() == old(input)@,
                0 <= start <= walker.position() <= walker.text().len(),
                rest@ == old(input)@.subrange(start, walker.position()),
            ensures
                rest@ == old(input)@.skip(start),
            decreases walker.text().len() - walker.position(),
        {
            let ghost at = walker.position();
            match walker.next_char() {
                Some(ch) => {
                    push_char(&mut rest, ch);
                    assert(rest@ =~= old(input)@.subrange(start, at + 1));
                },
                None => {
                    assert(rest@ =~= old(input)@.skip(start));
                    break ;
                },
            }
        }
        *input = rest;
    }
    found
}

} // verus!
