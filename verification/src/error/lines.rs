//! The lines of a source text around an error.

use crate::error::style::{render_shade, shade_code, Shade};
use crate::text::push_char;
use vstd::prelude::*;

verus! {

/// The line on which an error was met, with the line before it and the line
/// after it: each with its number, or empty where the text has no such line.
#[derive(Debug)]
pub struct Lines(pub [Option<(usize, String)>; 3]);

impl View for Lines {
    type V = Seq<Option<(usize, Seq<char>)>>;

    open spec fn view(&self) -> Seq<Option<(usize, Seq<char>)>> {
        Seq::new(
            3,
            |k: int|
                match self.0[k] {
                    Some((num, line)) => Some((num, line@)),
                    None => None,
                },
        )
    }
}

/// The index of the first line feed of `s` from `i` on, or the length of
/// `s`.
pub open spec fn line_end(s: Seq<char>, i: int) -> int
    decreases s.len() - i,
{
    if i < 0 || i >= s.len() {
        s.len() as int
    } else if s[i] == '\n' {
        i
    } else {
        line_end(s, i + 1)
    }
}

/// A line without the carriage return at its end, if it has one.
pub open spec fn without_cr(line: Seq<char>) -> Seq<char> {
    if line.len() > 0 && line.last() == '\r' {
        line.drop_last()
    } else {
        line
    }
}

/// The lines of `s` from index `i` on. A line ends with a line feed, or
/// with a carriage return and a line feed, which are not part of it; the
/// last line may end with the text.
pub open spec fn lines_from(s: Seq<char>, i: int) -> Seq<Seq<char>>
    decreases s.len() - i,
{
    if i < 0 || i >= s.len() {
        Seq::empty()
    } else {
        let end = line_end(s, i);
        if end >= s.len() {
            seq![s.subrange(i, s.len() as int)]
        } else if end < i {
            Seq::empty()
        } else {
            seq![without_cr(s.subrange(i, end))] + lines_from(s, end + 1)
        }
    }
}

/// The lines of `s`.
pub open spec fn lines_of(s: Seq<char>) -> Seq<Seq<char>> {
    lines_from(s, 0)
}

/// The line with the number `num`, where line 1 is the first line of
/// `text`; no line has a number below 1.
pub open spec fn numbered(text: Seq<char>, num: int) -> Option<(usize, Seq<char>)> {
    let lines = lines_of(text);
    if 1 <= num <= lines.len() && num <= usize::MAX {
        Some((num as usize, lines[num - 1]))
    } else {
        None
    }
}

/// The lines `num - 1`, `num` and `num + 1` of `text`.
pub open spec fn around(num: int, text: Seq<char>) -> Seq<Option<(usize, Seq<char>)>> {
    seq![numbered(text, num - 1), numbered(text, num), numbered(text, num + 1)]
}

/// The character for the digit `d`.
pub open spec fn digit(d: int) -> char {
    if d == 0 {
        '0'
    } else if d == 1 {
        '1'
    } else if d == 2 {
        '2'
    } else if d == 3 {
        '3'
    } else if d == 4 {
        '4'
    } else if d == 5 {
        '5'
    } else if d == 6 {
        '6'
    } else if d == 7 {
        '7'
    } else if d == 8 {
        '8'
    } else {
        '9'
    }
}

/// The number `n` in decimal digits.
pub open spec fn decimal(n: nat) -> Seq<char>
    decreases n,
{
    if n < 10 {
        seq![digit(n as int)]
    } else {
        decimal(n / 10).push(digit((n % 10) as int))
    }
}

/// The number `n` in decimal digits, with spaces before it where it has
/// fewer than three digits.
pub open spec fn padded(n: nat) -> Seq<char> {
    if n < 10 {
        seq![' ', ' '] + decimal(n)
    } else if n < 100 {
        seq![' '] + decimal(n)
    } else {
        decimal(n)
    }
}

/// One of three lines of context: the number and the line, or a bare rule
/// where there is no such line.
pub open spec fn context_line(line: Option<(usize, Seq<char>)>) -> Seq<char> {
    match line {
        Some((num, text)) => shade_code(Shade::BrightBlack) + padded(num as nat) + " | "@
            + shade_code(Shade::White) + text + "\n"@,
        None => shade_code(Shade::BrightBlack) + "    |"@ + shade_code(Shade::White) + "\n"@,
    }
}

/// The three lines of context.
pub open spec fn context(around: Seq<Option<(usize, Seq<char>)>>) -> Seq<char> {
    context_line(around[0]) + context_line(around[1]) + context_line(around[2])
}

/// The end of a line is not before its start, and no line feed stands
/// between the two.
pub proof fn lemma_line_end(s: Seq<char>, i: int)
    requires
        0 <= i <= s.len(),
    ensures
        i <= line_end(s, i) <= s.len(),
        line_end(s, i) < s.len() ==> s[line_end(s, i)] == '\n',
        forall|k: int| i <= k < line_end(s, i) ==> s[k] != '\n',
    decreases s.len() - i,
{
    if i < s.len() && s[i] != '\n' {
        lemma_line_end(s, i + 1);
    }
}

/// Where no line feed stands from `i` up to `end`, and one stands at `end` or
/// `end` is the end of the text, the line that starts at `i` ends at `end`.
pub proof fn lemma_line_reaches(s: Seq<char>, i: int, end: int)
    requires
        0 <= i <= end <= s.len(),
        forall|k: int| i <= k < end ==> s[k] != '\n',
        end < s.len() ==> s[end] == '\n',
    ensures
        line_end(s, i) == end,
    decreases end - i,
{
    if i < end {
        lemma_line_reaches(s, i + 1, end);
    }
}

/// What each of some lines holds.
pub open spec fn views(lines: Seq<String>) -> Seq<Seq<char>> {
    Seq::new(lines.len(), |k: int| lines[k]@)
}

/// A line without the carriage return at its end, where `cut` says that it
/// has one.
pub open spec fn without_cr_if(line: Seq<char>, cut: bool) -> Seq<char> {
    if cut {
        line.drop_last()
    } else {
        line
    }
}

/// Splits a text into its lines.
pub fn split_lines(text: &str) -> (lines: Vec<String>)
    ensures
        lines@.len() == lines_of(text@).len(),
        forall|k: int| 0 <= k < lines@.len() ==> (#[trigger] lines@[k])@ == lines_of(text@)[k],
{
    let mut lines: Vec<String> = Vec::new();
    let mut current = String::new();
    let mut ends_with_cr = false;
    let ghost s = text@;
    let ghost mut start: int = 0;
    for ch in it: text.chars()
        invariant
            it.seq() == s,
            0 <= start <= it.index(),
            current@ == without_cr_if(s.subrange(start, it.index() as int), ends_with_cr),
            ends_with_cr == (it.index() > start && s[it.index() - 1] == '\r'),
            forall|k: int| start <= k < it.index() ==> s[k] != '\n',
            lines_of(s) == views(lines@) + lines_from(s, start),
    {
        let ghost i = it.index() as int;
        proof {
            lemma_line_end(s, start);
            lemma_line_end(s, i);
        }
        if ch == '\n' {
            proof {
                assert(line_end(s, start) == i) by {
                    lemma_line_reaches(s, start, i);
                }
                assert(current@ == without_cr(s.subrange(start, i)));
            }
            let ghost before = views(lines@);
            lines.push(current);
            current = String::new();
            ends_with_cr = false;
            proof {
                assert(views(lines@) =~= before.push(without_cr(s.subrange(start, i))));
                assert(views(lines@) + lines_from(s, i + 1) =~= before + (seq![
                    without_cr(s.subrange(start, i)),
                ] + lines_from(s, i + 1)));
                start = i + 1;
                assert(s.subrange(start, start) =~= Seq::empty());
            }
        } else {
            if ends_with_cr {
                push_char(&mut current, '\r');
            }
            if ch == '\r' {
                ends_with_cr = true;
            } else {
                push_char(&mut current, ch);
                ends_with_cr = false;
            }
            proof {
                assert(s.subrange(start, i + 1) =~= s.subrange(start, i).push(ch));
                if ch == '\r' {
                    assert(s.subrange(start, i + 1).drop_last() =~= s.subrange(start, i));
                }
            }
        }
    }
    proof {
        lemma_line_end(s, start);
        if start < s.len() {
            lemma_line_reaches(s, start, s.len() as int);
        }
    }
    if ends_with_cr {
        push_char(&mut current, '\r');
    }
    assert(current@ =~= s.subrange(start, s.len() as int));
    if current.as_str().unicode_len() > 0 {
        let ghost before = views(lines@);
        lines.push(current);
        assert(lines_from(s, start) =~= seq![s.subrange(start, s.len() as int)]);
        assert(views(lines@) =~= before + lines_from(s, start));
    } else {
        assert(start == s.len());
        assert(views(lines@) + lines_from(s, start) =~= views(lines@));
    }
    lines
}

/// Writes a number in decimal digits.
pub fn decimal_string(n: usize) -> (text: String)
    ensures
        text@ == decimal(n as nat),
    decreases n,
{
    let mut text = if n < 10 {
        String::new()
    } else {
        decimal_string(n / 10)
    };
    let d = n % 10;
    let ch = if d == 0 {
        '0'
    } else if d == 1 {
        '1'
    } else if d == 2 {
        '2'
    } else if d == 3 {
        '3'
    } else if d == 4 {
        '4'
    } else if d == 5 {
        '5'
    } else if d == 6 {
        '6'
    } else if d == 7 {
        '7'
    } else if d == 8 {
        '8'
    } else {
        '9'
    };
    push_char(&mut text, ch);
    text
}

/// Writes a number in decimal digits, three characters wide or wider.
pub fn padded_string(n: usize) -> (text: String)
    ensures
        text@ == padded(n as nat),
{
    let mut text = if n < 10 {
        String::from_str("  ")
    } else if n < 100 {
        String::from_str(" ")
    } else {
        String::new()
    };
    proof {
        reveal_strlit("  ");
        reveal_strlit(" ");
        assert("  "@ =~= seq![' ', ' ']);
        assert(" "@ =~= seq![' ']);
    }
    text.append(decimal_string(n).as_str());
    text
}

impl Lines {
    /// The line `num` of `text` with the line before it and the line after
    /// it, where line 1 is the first line of `text`.
    pub fn new(num: usize, text: &str) -> (lines: Self)
        ensures
            lines@ == around(num as int, text@),
    {
        if num >= 1 {
            Lines::from_line(num - 1, text)
        } else {
            let all = split_lines(text);
            let lines = Lines([None, None, Lines::pick(&all, 1)]);
            assert(lines@ =~= around(0, text@));
            lines
        }
    }

    /// The lines `first`, `first + 1` and `first + 2` of `text`, where line 1
    /// is the first line of `text`.
    pub fn from_line(first: usize, text: &str) -> (lines: Self)
        ensures
            lines@ == around(first + 1, text@),
    {
        let all = split_lines(text);
        let before = Lines::pick(&all, first);
        let at = if first < usize::MAX {
            Lines::pick(&all, first + 1)
        } else {
            None
        };
        let after = if first < usize::MAX - 1 {
            Lines::pick(&all, first + 2)
        } else {
            None
        };
        let lines = Lines([before, at, after]);
        assert(lines@ =~= around(first + 1, text@));
        lines
    }

    /// The line with the number `num`, with its number.
    fn pick(all: &Vec<String>, num: usize) -> (line: Option<(usize, String)>)
        ensures
            match line {
                Some((at, text)) => 1 <= num <= all@.len() && at == num && text@ == all@[num
                    - 1]@,
                None => !(1 <= num <= all@.len()),
            },
    {
        if 1 <= num && num <= all.len() {
            Some((num, all[num - 1].clone()))
        } else {
            None
        }
    }

    /// The three lines as they stand in the fancy rendering.
    pub fn to_string(&self) -> (text: String)
        ensures
            text@ == context(self@),
    {
        let mut out = String::new();
        let mut k: usize = 0;
        while k < 3
            invariant
                k <= 3,
                out@ == (if k == 0 {
                    Seq::<char>::empty()
                } else if k == 1 {
                    context_line(self@[0])
                } else if k == 2 {
                    context_line(self@[0]) + context_line(self@[1])
                } else {
                    context(self@)
                }),
            decreases 3 - k,
        {
            out.append(render_shade(Shade::BrightBlack).as_str());
            match &self.0[k] {
                Some((num, line)) => {
                    out.append(padded_string(*num).as_str());
                    out.append(" | ");
                    out.append(render_shade(Shade::White).as_str());
                    out.append(line.as_str());
                },
                None => {
                    out.append("    |");
                    out.append(render_shade(Shade::White).as_str());
                },
            }
            out.append("\n");
            k += 1;
        }
        out
    }
}

} // verus!
