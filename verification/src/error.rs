//! What can go wrong, and how it is told.

pub mod lines;
pub mod style;

use crate::lexer::{printed, Token, TokenView};
use lines::{around, context, Lines};
use style::{
    bold_code, render_bold, render_bold_end, render_shade, reset_code, shade_code, Shade,
};
use vstd::prelude::*;

verus! {

/// The result of a stage that can fail.
pub type CatResult<T> = Result<T, TeaCatError>;

/// An error of the parser or of the expansion, with the line on which it was
/// met.
#[derive(Debug, PartialEq, Eq)]
pub enum TeaCatError {
    /// A variable was used that no earlier definition in reach binds.
    UndefinedVar(usize, String),
    /// A macro was invoked that no earlier definition in reach binds.
    UndefinedMacr(usize, String),
    /// Macros invoke macros more deeply than the expansion follows.
    RecursionLimit(usize, String),
    /// An entry of an attribute block is not a key, a colon and a literal.
    UnexpectedAttr(usize, Token),
    /// Another token stands where one exact token is required.
    UnexpectedToken(usize, Token),
    /// Another token stands where an identifier is required.
    ExpectedIdent(usize, Token),
    /// The input ended where a token was still required.
    EarlyEof(usize, Token),
}

/// What a [`TeaCatError`] holds.
pub enum ErrorView {
    UndefinedVar(usize, Seq<char>),
    UndefinedMacr(usize, Seq<char>),
    RecursionLimit(usize, Seq<char>),
    UnexpectedAttr(usize, TokenView),
    UnexpectedToken(usize, TokenView),
    ExpectedIdent(usize, TokenView),
    EarlyEof(usize, TokenView),
}

impl View for TeaCatError {
    type V = ErrorView;

    open spec fn view(&self) -> ErrorView {
        match self {
            TeaCatError::UndefinedVar(line, name) => ErrorView::UndefinedVar(*line, name@),
            TeaCatError::UndefinedMacr(line, name) => ErrorView::UndefinedMacr(*line, name@),
            TeaCatError::RecursionLimit(line, name) => ErrorView::RecursionLimit(*line, name@),
            TeaCatError::UnexpectedAttr(line, token) => ErrorView::UnexpectedAttr(*line, token@),
            TeaCatError::UnexpectedToken(line, token) => ErrorView::UnexpectedToken(*line, token@),
            TeaCatError::ExpectedIdent(line, token) => ErrorView::ExpectedIdent(*line, token@),
            TeaCatError::EarlyEof(line, token) => ErrorView::EarlyEof(*line, token@),
        }
    }
}

impl Clone for TeaCatError {
    fn clone(&self) -> (res: Self)
        ensures
            res@ == self@,
    {
        match self {
            TeaCatError::UndefinedVar(line, name) => TeaCatError::UndefinedVar(*line, name.clone()),
            TeaCatError::UndefinedMacr(line, name) => TeaCatError::UndefinedMacr(
                *line,
                name.clone(),
            ),
            TeaCatError::RecursionLimit(line, name) => TeaCatError::RecursionLimit(
                *line,
                name.clone(),
            ),
            TeaCatError::UnexpectedAttr(line, token) => TeaCatError::UnexpectedAttr(
                *line,
                token.clone(),
            ),
            TeaCatError::UnexpectedToken(line, token) => TeaCatError::UnexpectedToken(
                *line,
                token.clone(),
            ),
            TeaCatError::ExpectedIdent(line, token) => TeaCatError::ExpectedIdent(
                *line,
                token.clone(),
            ),
            TeaCatError::EarlyEof(line, token) => TeaCatError::EarlyEof(*line, token.clone()),
        }
    }
}

impl ErrorView {
    /// The line on which the error was met.
    pub open spec fn line(self) -> usize {
        match self {
            ErrorView::UndefinedVar(line, _) => line,
            ErrorView::UndefinedMacr(line, _) => line,
            ErrorView::RecursionLimit(line, _) => line,
            ErrorView::UnexpectedAttr(line, _) => line,
            ErrorView::UnexpectedToken(line, _) => line,
            ErrorView::ExpectedIdent(line, _) => line,
            ErrorView::EarlyEof(line, _) => line,
        }
    }

    /// The short message that names the error.
    pub open spec fn message(self) -> Seq<char> {
        match self {
            ErrorView::UndefinedVar(_, name) => "variable '&"@ + name + "' undefined"@,
            ErrorView::UndefinedMacr(_, name) => "macro '&"@ + name + "' undefined"@,
            ErrorView::RecursionLimit(_, name) => "macro '@"@ + name + "' is nested too deeply"@,
            ErrorView::UnexpectedAttr(_, token) => "unexpected input in attributes: '"@ + printed(
                token,
            ) + "'"@,
            ErrorView::UnexpectedToken(_, token) => "unexpected token: '"@ + printed(token) + "'"@,
            ErrorView::ExpectedIdent(_, token) => "expected identifier, found '"@ + printed(token)
                + "'"@,
            ErrorView::EarlyEof(_, token) => "early end of file while seeking token '"@ + printed(
                token,
            ) + "'"@,
        }
    }

    /// One line that says how to mend the source.
    pub open spec fn help(self) -> Seq<char> {
        match self {
            ErrorView::UndefinedVar(_, name) => "to insert an '&' directly, use a backslash: '\\&"@
                + name + "'"@,
            ErrorView::UndefinedMacr(_, name) => "to insert an '@' directly, use a backslash: '\\@"@
                + name + "'"@,
            ErrorView::RecursionLimit(_, name) => "make sure that '@"@ + name
                + "' does not invoke itself"@,
            ErrorView::UnexpectedAttr(_, token) =>
                "try surrounding the token with quotation marks: '\""@ + printed(token) + "\"'"@,
            ErrorView::UnexpectedToken(_, token) => "remove the '"@ + printed(token) + "'"@,
            ErrorView::ExpectedIdent(_, token) => "if you intended '"@ + printed(token)
                + "' to be an identifier, be sure to remove or escape whitespace"@,
            ErrorView::EarlyEof(_, token) => "add the expected token to the end of the file: '.."@
                + printed(token) + "'"@,
        }
    }
}

/// The line of help under the context.
pub open spec fn help_line(help: Seq<char>) -> Seq<char> {
    shade_code(Shade::BrightBlack) + "    ╰─▶ "@ + shade_code(Shade::Magenta) + bold_code()
        + "help: "@ + help + reset_code() + shade_code(Shade::White)
}

/// The fancy rendering of an error met in the source text `source`: the
/// message in bold, an empty line, three lines of the source, a rule, and the
/// help.
///
/// The line of an error counts the line feeds before the place where it was
/// met. So the three lines are the line behind that many line feeds, between
/// the line before it and the line after it, each with its number, where
/// line 1 is the first line of the source.
pub open spec fn fancy(error: ErrorView, source: Seq<char>) -> Seq<char> {
    bold_code() + error.message() + reset_code() + "\n\n"@ + context(
        around(error.line() + 1, source),
    ) + shade_code(Shade::BrightBlack) + "    ┆\n"@ + help_line(error.help()) + "\n"@
}

/// `before`, then `middle`, then `after`.
fn frame(before: &str, middle: &str, after: &str) -> (text: String)
    ensures
        text@ == before@ + middle@ + after@,
{
    let mut text = String::from_str(before);
    text.append(middle);
    text.append(after);
    text
}

impl TeaCatError {
    /// The line on which the error was met.
    pub fn line_num(&self) -> (line: usize)
        ensures
            line == self@.line(),
    {
        match self {
            TeaCatError::UndefinedVar(line, _) => *line,
            TeaCatError::UndefinedMacr(line, _) => *line,
            TeaCatError::RecursionLimit(line, _) => *line,
            TeaCatError::UnexpectedAttr(line, _) => *line,
            TeaCatError::UnexpectedToken(line, _) => *line,
            TeaCatError::ExpectedIdent(line, _) => *line,
            TeaCatError::EarlyEof(line, _) => *line,
        }
    }

    /// The short message that names the error.
    pub fn to_string(&self) -> (text: String)
        ensures
            text@ == self@.message(),
    {
        match self {
            TeaCatError::UndefinedVar(_, name) => frame("variable '&", name.as_str(), "' undefined"),
            TeaCatError::UndefinedMacr(_, name) => frame("macro '&", name.as_str(), "' undefined"),
            TeaCatError::RecursionLimit(_, name) => frame(
                "macro '@",
                name.as_str(),
                "' is nested too deeply",
            ),
            TeaCatError::UnexpectedAttr(_, token) => frame(
                "unexpected input in attributes: '",
                token.to_string().as_str(),
                "'",
            ),
            TeaCatError::UnexpectedToken(_, token) => frame(
                "unexpected token: '",
                token.to_string().as_str(),
                "'",
            ),
            TeaCatError::ExpectedIdent(_, token) => frame(
                "expected identifier, found '",
                token.to_string().as_str(),
                "'",
            ),
            TeaCatError::EarlyEof(_, token) => frame(
                "early end of file while seeking token '",
                token.to_string().as_str(),
                "'",
            ),
        }
    }

    /// One line that says how to mend the source.
    pub fn help_msg(&self) -> (text: String)
        ensures
            text@ == self@.help(),
    {
        match self {
            TeaCatError::UndefinedVar(_, name) => frame(
                "to insert an '&' directly, use a backslash: '\\&",
                name.as_str(),
                "'",
            ),
            TeaCatError::UndefinedMacr(_, name) => frame(
                "to insert an '@' directly, use a backslash: '\\@",
                name.as_str(),
                "'",
            ),
            TeaCatError::RecursionLimit(_, name) => frame(
                "make sure that '@",
                name.as_str(),
                "' does not invoke itself",
            ),
            TeaCatError::UnexpectedAttr(_, token) => frame(
                "try surrounding the token with quotation marks: '\"",
                token.to_string().as_str(),
                "\"'",
            ),
            TeaCatError::UnexpectedToken(_, token) => frame(
                "remove the '",
                token.to_string().as_str(),
                "'",
            ),
            TeaCatError::ExpectedIdent(_, token) => frame(
                "if you intended '",
                token.to_string().as_str(),
                "' to be an identifier, be sure to remove or escape whitespace",
            ),
            TeaCatError::EarlyEof(_, token) => frame(
                "add the expected token to the end of the file: '..",
                token.to_string().as_str(),
                "'",
            ),
        }
    }

    /// The fancy rendering of the error, met in the source text
    /// `teacat_str`.
    pub fn err_fancy(&self, teacat_str: &str) -> (text: String)
        ensures
            text@ == fancy(self@, teacat_str@),
    {
        let lines = Lines::from_line(self.line_num(), teacat_str);
        let mut out = render_bold();
        out.append(self.to_string().as_str());
        out.append(render_bold_end().as_str());
        out.append("\n\n");
        out.append(lines.to_string().as_str());
        out.append(render_shade(Shade::BrightBlack).as_str());
        out.append("    ┆\n");
        out.append(render_shade(Shade::BrightBlack).as_str());
        out.append("    ╰─▶ ");
        out.append(render_shade(Shade::Magenta).as_str());
        out.append(render_bold().as_str());
        out.append("help: ");
        out.append(self.help_msg().as_str());
        out.append(render_bold_end().as_str());
        out.append(render_shade(Shade::White).as_str());
        out.append("\n");
        out
    }
}

} // verus!
