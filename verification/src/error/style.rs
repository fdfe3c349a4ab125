//! The styles of the fancy rendering, as escape sequences for a terminal.

use vstd::prelude::*;

verus! {

/// The colours of the fancy rendering.
#[derive(Debug, Clone, Copy, PartialEq, Eq, Structural)]
pub enum Shade {
    /// The colour of the help.
    Magenta,
    /// The colour of the line numbers and rules.
    BrightBlack,
    /// The colour of the source text.
    White,
}

/// The escape sequence that sets the colour of the text that follows.
pub open spec fn shade_code(shade: Shade) -> Seq<char> {
    match shade {
        Shade::Magenta => "\x1B[35m"@,
        Shade::BrightBlack => "\x1B[90m"@,
        Shade::White => "\x1B[37m"@,
    }
}

/// The escape sequence that makes the text that follows bold.
pub open spec fn bold_code() -> Seq<char> {
    "\x1B[1m"@
}

/// The escape sequence that ends every style.
pub open spec fn reset_code() -> Seq<char> {
    "\x1B[0m"@
}

/// `anstyle::Style` with a foreground colour of the ANSI palette, as it
/// prints itself: the escape sequence `ESC [ 3 c m` for a plain colour `c` and
/// `ESC [ 9 c m` for a bright one.
#[verifier::external_body]
pub(crate) fn render_shade(shade: Shade) -> (code: String)
    ensures
        code@ == shade_code(shade),
{
    let color = match shade {
        Shade::Magenta => anstyle::AnsiColor::Magenta,
        Shade::BrightBlack => anstyle::AnsiColor::BrightBlack,
        Shade::White => anstyle::AnsiColor::White,
    };
    format!("{}", anstyle::Style::new().fg_color(Some(anstyle::Color::Ansi(color))))
}

/// `anstyle::Style` with the bold effect, as it prints itself: the escape
/// sequence `ESC [ 1 m`.
#[verifier::external_body]
pub(crate) fn render_bold() -> (code: String)
    ensures
        code@ == bold_code(),
{
    format!("{}", anstyle::Style::new().bold())
}

/// `anstyle::Style` with the bold effect, as it prints itself with the
/// alternate flag: the escape sequence `ESC [ 0 m`, which ends the style.
#[verifier::external_body]
pub(crate) fn render_bold_end() -> (code: String)
    ensures
        code@ == reset_code(),
{
    format!("{:#}", anstyle::Style::new().bold())
}

} // verus!
