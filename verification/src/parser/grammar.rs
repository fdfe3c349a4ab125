//! The grammar, as functions from tokens to what the parser makes of them.
//!
//! Each function takes the tokens that are still to be read and gives either
//! an error or what it has read together with the tokens that are left.

use crate::error::ErrorView;
use crate::lexer::{expected, ident_at_front, printed, StringLiteralView, TokenView};
use crate::parser::attributes::inserted;
use crate::parser::{AstNodeView, MacrView, TagView, VarView};
use vstd::prelude::*;

verus! {

/// Tokens with their lines.
pub type Tokens = Seq<(usize, TokenView)>;

/// The entries of an attribute block, up to and with its closing brace.
///
/// An entry is a text, a colon and a quoted literal; nothing stands between
/// two entries. `entries` holds the entries read so far and `line` the line
/// of the last token read.
pub open spec fn attributes_until_brace(
    tokens: Tokens,
    entries: Seq<(Seq<char>, StringLiteralView)>,
    line: usize,
) -> Result<(Seq<(Seq<char>, StringLiteralView)>, Tokens), ErrorView>
    decreases tokens.len(),
{
    if tokens.len() == 0 {
        Err(ErrorView::EarlyEof(line, TokenView::CloseBrace))
    } else {
        let line = tokens[0].0;
        match tokens[0].1 {
            TokenView::CloseBrace => Ok((entries, tokens.drop_first())),
            TokenView::Text(key) => {
                if tokens.len() == 1 {
                    Err(ErrorView::EarlyEof(line, TokenView::Colon))
                } else if tokens[1].1 != TokenView::Colon {
                    Err(ErrorView::UnexpectedAttr(tokens[1].0, tokens[1].1))
                } else if tokens.len() == 2 {
                    Err(
                        ErrorView::EarlyEof(
                            line,
                            TokenView::Stringliteral(
                                StringLiteralView { quotes: '"', content: Seq::empty() },
                            ),
                        ),
                    )
                } else {
                    match tokens[2].1 {
                        TokenView::Stringliteral(value) => attributes_until_brace(
                            tokens.skip(3),
                            inserted(entries, key, value),
                            line,
                        ),
                        other => Err(ErrorView::UnexpectedAttr(tokens[2].0, other)),
                    }
                }
            },
            other => Err(ErrorView::UnexpectedAttr(line, other)),
        }
    }
}

/// The names of a macro's parameters, up to and with the closing brace:
/// each an ampersand and an identifier.
pub open spec fn formals_until_brace(tokens: Tokens, names: Seq<Seq<char>>, line: usize) -> Result<
    (Seq<Seq<char>>, Tokens),
    ErrorView,
>
    decreases tokens.len(),
{
    if tokens.len() == 0 {
        Err(ErrorView::EarlyEof(line, TokenView::CloseBrace))
    } else {
        match tokens[0].1 {
            TokenView::CloseBrace => Ok((names, tokens.drop_first())),
            TokenView::Andpersand => match ident_at_front(tokens.drop_first()) {
                Ok((_, name, rest)) => formals_until_brace(rest, names.push(name), line),
                Err(e) => Err(e),
            },
            other => Err(ErrorView::UnexpectedToken(tokens[0].0, other)),
        }
    }
}

/// The nodes up to the token `until`, which is read too, or up to the end
/// of the tokens where there is no `until`. `line` is the line of the last
/// token read at this level.
pub open spec fn nodes_until(tokens: Tokens, until: Option<TokenView>, line: usize) -> Result<
    (Seq<AstNodeView>, Tokens),
    ErrorView,
>
    decreases tokens.len(), 2int,
{
    if tokens.len() == 0 {
        match until {
            Some(token) => Err(ErrorView::EarlyEof(line, token)),
            None => Ok((Seq::empty(), tokens)),
        }
    } else if until == Some(tokens[0].1) {
        Ok((Seq::empty(), tokens.drop_first()))
    } else {
        match node_after(tokens[0].1, tokens.drop_first()) {
            Ok((node, rest)) => if rest.len() < tokens.len() {
                match nodes_until(rest, until, tokens[0].0) {
                    Ok((nodes, left)) => Ok((seq![node] + nodes, left)),
                    Err(e) => Err(e),
                }
            } else {
                Err(arbitrary())
            },
            Err(e) => Err(e),
        }
    }
}

/// The node that starts with `token`, which has been read.
///
/// An ampersand starts a variable, a colon a tag, the keyword a macro and an
/// at sign the invocation of one. Any other token is text, in its printable
/// form.
pub open spec fn node_after(token: TokenView, tokens: Tokens) -> Result<
    (AstNodeView, Tokens),
    ErrorView,
>
    decreases tokens.len(), 1int,
{
    match token {
        TokenView::Andpersand => var_after_ampersand(tokens),
        TokenView::Colon => tag_after_colon(tokens),
        TokenView::Macr => macr_after_keyword(tokens),
        TokenView::At => access_macr_after_at(tokens),
        other => Ok((AstNodeView::Text(printed(other)), tokens)),
    }
}

/// The contents of a variable, up to and with the semicolon.
pub open spec fn var_after_walrus(name: Seq<char>, tokens: Tokens) -> Result<
    (VarView, Tokens),
    ErrorView,
>
    decreases tokens.len(), 3int,
{
    match nodes_until(tokens, Some(TokenView::SemiColon), 0) {
        Ok((contents, rest)) => Ok((VarView { name, contents }, rest)),
        Err(e) => Err(e),
    }
}

/// A variable: an identifier, and where `:=` follows, its definition up to
/// the semicolon. Without `:=` it is the use of the variable.
pub open spec fn var_after_ampersand(tokens: Tokens) -> Result<(AstNodeView, Tokens), ErrorView>
    decreases tokens.len(), 0int,
{
    match ident_at_front(tokens) {
        Ok((line, name, rest)) => if rest.len() > 0 && rest[0].1 == TokenView::Walrus {
            match var_after_walrus(name, rest.drop_first()) {
                Ok((var, left)) => Ok((AstNodeView::Var(var), left)),
                Err(e) => Err(e),
            }
        } else {
            Ok((AstNodeView::AccessVar(line, name), rest))
        },
        Err(e) => Err(e),
    }
}

/// The attribute block of a tag, if one follows its name.
pub open spec fn attributes_after_name(tokens: Tokens) -> Result<
    (Seq<(Seq<char>, StringLiteralView)>, Tokens),
    ErrorView,
> {
    if tokens.len() > 0 && tokens[0].1 == TokenView::OpenBrace {
        attributes_until_brace(tokens.drop_first(), Seq::empty(), 0)
    } else {
        Ok((Seq::empty(), tokens))
    }
}

/// A tag: an identifier, an attribute block in braces if one follows, and
/// the contents in brackets.
pub open spec fn tag_after_colon(tokens: Tokens) -> Result<(AstNodeView, Tokens), ErrorView>
    decreases tokens.len(), 0int,
{
    match ident_at_front(tokens) {
        Ok((_, name, rest)) => match attributes_after_name(rest) {
            Ok((attributes, rest)) => match expected(rest, TokenView::OpenBracket) {
                Ok(rest) => if rest.len() < tokens.len() {
                    match nodes_until(rest, Some(TokenView::CloseBracket), 0) {
                        Ok((contents, left)) => Ok(
                            (AstNodeView::Tag(TagView { name, attributes, contents }), left),
                        ),
                        Err(e) => Err(e),
                    }
                } else {
                    Err(arbitrary())
                },
                Err(e) => Err(e),
            },
            Err(e) => Err(e),
        },
        Err(e) => Err(e),
    }
}

/// The definition of a macro: an at sign, an identifier, the names of the
/// parameters in braces and the body in brackets.
pub open spec fn macr_after_keyword(tokens: Tokens) -> Result<(AstNodeView, Tokens), ErrorView>
    decreases tokens.len(), 0int,
{
    match expected(tokens, TokenView::At) {
        Ok(rest) => match ident_at_front(rest) {
            Ok((line, name, rest)) => match expected(rest, TokenView::OpenBrace) {
                Ok(rest) => match formals_until_brace(rest, Seq::empty(), line) {
                    Ok((args, rest)) => match expected(rest, TokenView::OpenBracket) {
                        Ok(rest) => if rest.len() < tokens.len() {
                            match nodes_until(rest, Some(TokenView::CloseBracket), 0) {
                                Ok((contents, left)) => Ok(
                                    (AstNodeView::Macr(MacrView { name, args, contents }), left),
                                ),
                                Err(e) => Err(e),
                            }
                        } else {
                            Err(arbitrary())
                        },
                        Err(e) => Err(e),
                    },
                    Err(e) => Err(e),
                },
                Err(e) => Err(e),
            },
            Err(e) => Err(e),
        },
        Err(e) => Err(e),
    }
}

/// The arguments of an invocation, up to and with the closing bracket: each
/// the definition of a variable.
pub open spec fn args_until_bracket(tokens: Tokens, vars: Seq<VarView>, line: usize) -> Result<
    (Seq<VarView>, Tokens),
    ErrorView,
>
    decreases tokens.len(), 4int,
{
    if tokens.len() == 0 {
        Err(ErrorView::EarlyEof(line, TokenView::CloseBracket))
    } else {
        match tokens[0].1 {
            TokenView::CloseBracket => Ok((vars, tokens.drop_first())),
            TokenView::Andpersand => match ident_at_front(tokens.drop_first()) {
                Ok((_, name, rest)) => match expected(rest, TokenView::Walrus) {
                    Ok(rest) => match var_after_walrus(name, rest) {
                        Ok((var, rest)) => if rest.len() < tokens.len() {
                            args_until_bracket(rest, vars.push(var), line)
                        } else {
                            Err(arbitrary())
                        },
                        Err(e) => Err(e),
                    },
                    Err(e) => Err(e),
                },
                Err(e) => Err(e),
            },
            other => Err(ErrorView::UnexpectedToken(tokens[0].0, other)),
        }
    }
}

/// The invocation of a macro: an identifier and the arguments in brackets.
pub open spec fn access_macr_after_at(tokens: Tokens) -> Result<(AstNodeView, Tokens), ErrorView>
    decreases tokens.len(), 0int,
{
    match ident_at_front(tokens) {
        Ok((line, name, rest)) => match expected(rest, TokenView::OpenBracket) {
            Ok(rest) => if rest.len() < tokens.len() {
                match args_until_bracket(rest, Seq::empty(), line) {
                    Ok((vars, left)) => Ok((AstNodeView::AccessMacr(line, vars, name), left)),
                    Err(e) => Err(e),
                }
            } else {
                Err(arbitrary())
            },
            Err(e) => Err(e),
        },
        Err(e) => Err(e),
    }
}

/// The tree of a whole stream of tokens.
pub open spec fn parsed(tokens: Tokens) -> Result<Seq<AstNodeView>, ErrorView> {
    match nodes_until(tokens, None, 0) {
        Ok((nodes, _)) => Ok(nodes),
        Err(e) => Err(e),
    }
}


/// An attribute block leaves fewer tokens than it was given.
pub proof fn lemma_attributes_read_forward(
    tokens: Tokens,
    entries: Seq<(Seq<char>, StringLiteralView)>,
    line: usize,
)
    ensures
        attributes_until_brace(tokens, entries, line) matches Ok((_, rest)) ==> rest.len()
            < tokens.len(),
    decreases tokens.len(),
{
    if tokens.len() > 2 && tokens[0].1 is Text && tokens[1].1 == TokenView::Colon {
        match tokens[2].1 {
            TokenView::Stringliteral(value) => {
                lemma_attributes_read_forward(
                    tokens.skip(3),
                    inserted(entries, tokens[0].1->Text_0, value),
                    tokens[0].0,
                );
            },
            _ => {},
        }
    }
}

/// The names of a macro's parameters leave fewer tokens than they were
/// given.
pub proof fn lemma_formals_read_forward(tokens: Tokens, names: Seq<Seq<char>>, line: usize)
    ensures
        formals_until_brace(tokens, names, line) matches Ok((_, rest)) ==> rest.len()
            < tokens.len(),
    decreases tokens.len(),
{
    if tokens.len() > 0 && tokens[0].1 is Andpersand {
        match ident_at_front(tokens.drop_first()) {
            Ok((_, name, rest)) => {
                lemma_formals_read_forward(rest, names.push(name), line);
            },
            Err(_) => {},
        }
    }
}

/// The parser reads forward: what it leaves is never longer than what it
/// was given. So each part of the grammar that reads on behind another is
/// given fewer tokens than the whole, which is all that the grammar asks
/// before it lets a part read on.
pub proof fn lemma_nodes_read_forward(tokens: Tokens, until: Option<TokenView>, line: usize)
    ensures
        nodes_until(tokens, until, line) matches Ok((_, rest)) ==> rest.len() <= tokens.len(),
    decreases tokens.len(), 2int,
{
    if tokens.len() > 0 && until != Some(tokens[0].1) {
        lemma_node_reads_forward(tokens[0].1, tokens.drop_first());
        match node_after(tokens[0].1, tokens.drop_first()) {
            Ok((_, rest)) => {
                lemma_nodes_read_forward(rest, until, tokens[0].0);
            },
            Err(_) => {},
        }
    }
}

/// A node leaves no more tokens than it was given.
pub proof fn lemma_node_reads_forward(token: TokenView, tokens: Tokens)
    ensures
        node_after(token, tokens) matches Ok((_, rest)) ==> rest.len() <= tokens.len(),
    decreases tokens.len(), 1int,
{
    match token {
        TokenView::Andpersand => {
            lemma_var_reads_forward(tokens);
        },
        TokenView::Colon => {
            lemma_tag_reads_forward(tokens);
        },
        TokenView::Macr => {
            lemma_macr_reads_forward(tokens);
        },
        TokenView::At => {
            lemma_access_macr_reads_forward(tokens);
        },
        _ => {},
    }
}

/// A variable leaves fewer tokens than it was given.
pub proof fn lemma_var_reads_forward(tokens: Tokens)
    ensures
        var_after_ampersand(tokens) matches Ok((_, rest)) ==> rest.len() < tokens.len(),
    decreases tokens.len(), 0int,
{
    match ident_at_front(tokens) {
        Ok((_, name, rest)) => {
            if rest.len() > 0 && rest[0].1 == TokenView::Walrus {
                lemma_nodes_read_forward(rest.drop_first(), Some(TokenView::SemiColon), 0);
            }
        },
        Err(_) => {},
    }
}

/// A tag leaves fewer tokens than it was given, and the contents of a tag
/// are read wherever its name, its attributes and its opening bracket stand.
pub proof fn lemma_tag_reads_forward(tokens: Tokens)
    ensures
        tag_after_colon(tokens) matches Ok((_, rest)) ==> rest.len() < tokens.len(),
        ident_at_front(tokens) matches Ok((_, _, named)) ==> (attributes_after_name(
            named,
        ) matches Ok((_, described)) ==> (expected(described, TokenView::OpenBracket) matches Ok(
            opened,
        ) ==> opened.len() < tokens.len())),
    decreases tokens.len(), 0int,
{
    match ident_at_front(tokens) {
        Ok((_, name, rest)) => {
            if rest.len() > 0 && rest[0].1 == TokenView::OpenBrace {
                lemma_attributes_read_forward(rest.drop_first(), Seq::empty(), 0);
            }
            match attributes_after_name(rest) {
                Ok((_, rest)) => match expected(rest, TokenView::OpenBracket) {
                    Ok(rest) => {
                        lemma_nodes_read_forward(rest, Some(TokenView::CloseBracket), 0);
                    },
                    Err(_) => {},
                },
                Err(_) => {},
            }
        },
        Err(_) => {},
    }
}

/// The definition of a macro leaves fewer tokens than it was given, and its
/// body is read wherever its name, its parameters and its opening bracket
/// stand.
pub proof fn lemma_macr_reads_forward(tokens: Tokens)
    ensures
        macr_after_keyword(tokens) matches Ok((_, rest)) ==> rest.len() < tokens.len(),
        expected(tokens, TokenView::At) matches Ok(at) ==> (ident_at_front(at) matches Ok(
            (line, _, named),
        ) ==> (expected(named, TokenView::OpenBrace) matches Ok(braced) ==> (formals_until_brace(
            braced,
            Seq::empty(),
            line,
        ) matches Ok((_, listed)) ==> (expected(listed, TokenView::OpenBracket) matches Ok(
            opened,
        ) ==> opened.len() < tokens.len())))),
    decreases tokens.len(), 0int,
{
    match expected(tokens, TokenView::At) {
        Ok(rest) => match ident_at_front(rest) {
            Ok((line, name, rest)) => match expected(rest, TokenView::OpenBrace) {
                Ok(rest) => {
                    lemma_formals_read_forward(rest, Seq::empty(), line);
                    match formals_until_brace(rest, Seq::empty(), line) {
                        Ok((_, rest)) => match expected(rest, TokenView::OpenBracket) {
                            Ok(rest) => {
                                lemma_nodes_read_forward(rest, Some(TokenView::CloseBracket), 0);
                            },
                            Err(_) => {},
                        },
                        Err(_) => {},
                    }
                },
                Err(_) => {},
            },
            Err(_) => {},
        },
        Err(_) => {},
    }
}

/// The arguments of an invocation leave fewer tokens than they were given.
pub proof fn lemma_args_read_forward(tokens: Tokens, vars: Seq<VarView>, line: usize)
    ensures
        args_until_bracket(tokens, vars, line) matches Ok((_, rest)) ==> rest.len() < tokens.len(),
    decreases tokens.len(), 4int,
{
    if tokens.len() > 0 && tokens[0].1 is Andpersand {
        match ident_at_front(tokens.drop_first()) {
            Ok((_, name, rest)) => match expected(rest, TokenView::Walrus) {
                Ok(rest) => {
                    lemma_nodes_read_forward(rest, Some(TokenView::SemiColon), 0);
                    match var_after_walrus(name, rest) {
                        Ok((var, rest)) => {
                            lemma_args_read_forward(rest, vars.push(var), line);
                        },
                        Err(_) => {},
                    }
                },
                Err(_) => {},
            },
            Err(_) => {},
        }
    }
}

/// The invocation of a macro leaves fewer tokens than it was given.
pub proof fn lemma_access_macr_reads_forward(tokens: Tokens)
    ensures
        access_macr_after_at(tokens) matches Ok((_, rest)) ==> rest.len() < tokens.len(),
    decreases tokens.len(), 0int,
{
    match ident_at_front(tokens) {
        Ok((line, name, rest)) => match expected(rest, TokenView::OpenBracket) {
            Ok(rest) => {
                lemma_args_read_forward(rest, Seq::empty(), line);
            },
            Err(_) => {},
        },
        Err(_) => {},
    }
}

} // verus!
