//! Character and string helpers shared by every stage.

use vstd::prelude::*;

verus! {
/// Whether `c` is white space: the code points that carry Unicode's
/// `White_Space` property.
pub open spec fn is_whitespace(c: char) -> bool {
    let n = c as u32;
    ||| 0x09 <= n <= 0x0D
    ||| n == 0x20
    ||| n == 0x85
    ||| n == 0xA0
    ||| n == 0x1680
    ||| 0x2000 <= n <= 0x200A
    ||| n == 0x2028
    ||| n == 0x2029
    ||| n == 0x202F
    ||| n == 0x205F
    ||| n == 0x3000
}

/// Tests a character for white space.
pub fn char_is_whitespace(c: char) -> (b: bool)
    ensures
        b == is_whitespace(c),
{
    let n: u32 = c as u32;
    (0x09 <= n && n <= 0x0D) || n == 0x20 || n == 0x85 || n == 0xA0 || n == 0x1680 || (0x2000 <= n
        && n <= 0x200A) || n == 0x2028 || n == 0x2029 || n == 0x202F || n == 0x205F || n == 0x3000
}

/// `String::push`: appends one character to the end of the string.
#[verifier::external_body]
pub(crate) fn push_char(s: &mut String, c: char)
    ensures
        final(s)@ == old(s)@.push(c),
{
    s.push(c)
}

/// The characters of `s`, in order.
pub fn chars_of(s: &str) -> (v: Vec<char>)
    ensures
        v@ == s@,
{
    let mut v: Vec<char> = Vec::new();
    for c in it: s.chars()
        invariant
            v@ == it.seq().take(it.index() as int),
    {
        v.push(c);
    }
    v
}

/// Whether `pat` stands in `s` at index `i`.
pub open spec fn starts_with_at(s: Seq<char>, i: int, pat: Seq<char>) -> bool {
    &&& 0 <= i
    &&& i + pat.len() <= s.len()
    &&& s.subrange(i, i + pat.len()) == pat
}

/// The index of the first of `keys`, from index `k` on, that stands in `s` at
/// index `i`.
pub open spec fn first_match_from(keys: Seq<Seq<char>>, s: Seq<char>, i: int, k: int) -> Option<int>
    decreases keys.len() - k,
{
    if k < 0 || k >= keys.len() {
        None
    } else if starts_with_at(s, i, keys[k]) {
        Some(k)
    } else {
        first_match_from(keys, s, i, k + 1)
    }
}

/// The index of the first of `keys` that stands in `s` at index `i`.
pub open spec fn first_match(keys: Seq<Seq<char>>, s: Seq<char>, i: int) -> Option<int> {
    first_match_from(keys, s, i, 0)
}

/// A key that is found is one of the keys, stands at the place, and is the
/// first that does.
pub proof fn lemma_first_match(keys: Seq<Seq<char>>, s: Seq<char>, i: int, k: int)
    requires
        0 <= k,
    ensures
        match first_match_from(keys, s, i, k) {
            Some(j) => k <= j < keys.len() && starts_with_at(s, i, keys[j]) && forall|m: int|
                k <= m < j ==> !starts_with_at(s, i, #[trigger] keys[m]),
            None => forall|m: int| k <= m < keys.len() ==> !starts_with_at(s, i, #[trigger] keys[m]),
        },
    decreases keys.len() - k,
{
    if k < keys.len() && !starts_with_at(s, i, keys[k]) {
        lemma_first_match(keys, s, i, k + 1);
    }
}

/// Whether every character of `s` is white space. The empty text is blank.
pub open spec fn is_blank(s: Seq<char>) -> bool {
    forall|i: int| 0 <= i < s.len() ==> is_whitespace(#[trigger] s[i])
}

/// White space that leaves a space behind at the edge of a text: any but a
/// line feed or a tab.
pub open spec fn is_edge_space(c: char) -> bool {
    is_whitespace(c) && c != '\n' && c != '\t'
}

/// The words of `s`, that is its runs of characters that are not white
/// space, with one space between each two.
pub open spec fn collapse(s: Seq<char>) -> Seq<char>
    decreases s.len(),
{
    if s.len() == 0 {
        Seq::empty()
    } else if is_whitespace(s.last()) {
        collapse(s.drop_last())
    } else if s.len() == 1 || !is_whitespace(s[s.len() - 2]) || collapse(s.drop_last()).len() == 0 {
        collapse(s.drop_last()).push(s.last())
    } else {
        collapse(s.drop_last()).push(' ').push(s.last())
    }
}

/// The text `s` with each run of white space made one space. White space at
/// either edge goes, but for one space where the edge character is white
/// space other than a line feed or a tab.
pub open spec fn tidy(s: Seq<char>) -> Seq<char> {
    let lead: Seq<char> = if s.len() > 0 && is_edge_space(s.first()) {
        seq![' ']
    } else {
        Seq::empty()
    };
    let trail: Seq<char> = if s.len() > 0 && is_edge_space(s.last()) {
        seq![' ']
    } else {
        Seq::empty()
    };
    lead + collapse(s) + trail
}

/// Tests whether a text holds nothing but white space.
pub fn str_is_blank(s: &str) -> (blank: bool)
    ensures
        blank == is_blank(s@),
{
    for ch in it: s.chars()
        invariant
            it.seq() == s@,
            is_blank(s@.take(it.index() as int)),
    {
        if !char_is_whitespace(ch) {
            return false;
        }
        assert forall|i: int| 0 <= i < it.index() + 1 implies is_whitespace(
            #[trigger] s@.take(it.index() + 1)[i],
        ) by {
            if i < it.index() {
                assert(s@.take(it.index() as int)[i] == s@[i]);
            }
        }
    }
    assert(s@.take(s@.len() as int) == s@);
    true
}

/// Tidies a text.
pub fn tidy_str(s: &str) -> (tidied: String)
    ensures
        tidied@ == tidy(s@),
{
    let mut out = String::new();
    let mut first = true;
    let mut words = false;
    let mut gap = false;
    let mut edge = false;
    let ghost mut lead: Seq<char> = Seq::empty();
    for ch in it: s.chars()
        invariant
            it.seq() == s@,
            first == (it.index() == 0),
            first ==> lead.len() == 0 && !edge,
            !first ==> lead == (if is_edge_space(s@.first()) {
                seq![' ']
            } else {
                Seq::<char>::empty()
            }),
            out@ == lead + collapse(s@.take(it.index() as int)),
            words == (collapse(s@.take(it.index() as int)).len() > 0),
            !first ==> gap == is_whitespace(s@[it.index() - 1]),
            !first ==> edge == is_edge_space(s@[it.index() - 1]),
    {
        let ghost i = it.index() as int;
        let ghost before = s@.take(i);
        let ghost after = s@.take(i + 1);
        assert(after.drop_last() == before);
        assert(after.last() == ch);
        assert(i > 0 ==> after[after.len() - 2] == s@[i - 1]);
        let space = char_is_whitespace(ch);
        edge = space && ch != '\n' && ch != '\t';
        if first && edge {
            push_char(&mut out, ' ');
            proof {
                lead = seq![' '];
            }
        }
        if !space {
            if gap && words {
                push_char(&mut out, ' ');
            }
            push_char(&mut out, ch);
            words = true;
        }
        first = false;
        gap = space;
        assert(out@ == lead + collapse(after));
    }
    assert(s@.take(s@.len() as int) == s@);
    if edge {
        push_char(&mut out, ' ');
    }
    assert(out@ == tidy(s@));
    out
}

/// Every white space of a collapsed text is a space.
pub proof fn lemma_collapse_leaves_spaces(s: Seq<char>)
    ensures
        forall|i: int|
            0 <= i < collapse(s).len() && is_whitespace(#[trigger] collapse(s)[i]) ==> collapse(
                s,
            )[i] == ' ',
    decreases s.len(),
{
    if s.len() > 0 {
        let init = collapse(s.drop_last());
        lemma_collapse_leaves_spaces(s.drop_last());
        let all = collapse(s);
        assert forall|i: int| 0 <= i < all.len() && is_whitespace(#[trigger] all[i]) implies all[i]
            == ' ' by {
            if i < init.len() {
                assert(all[i] == init[i]);
            }
        }
    }
}

/// A text that tidying leaves as it is holds no white space but spaces.
pub proof fn lemma_tidy_leaves_spaces(s: Seq<char>)
    requires
        tidy(s) == s,
    ensures
        forall|i: int| 0 <= i < s.len() && is_whitespace(#[trigger] s[i]) ==> s[i] == ' ',
        forall|i: int| 0 <= i < s.len() ==> #[trigger] s[i] != '\n',
{
    lemma_collapse_leaves_spaces(s);
    let lead: Seq<char> = if s.len() > 0 && is_edge_space(s.first()) {
        seq![' ']
    } else {
        Seq::empty()
    };
    let inner = collapse(s);
    assert forall|i: int| 0 <= i < s.len() && is_whitespace(#[trigger] s[i]) implies s[i]
        == ' ' by {
        let t = tidy(s);
        assert(t[i] == s[i]);
        if i < lead.len() {
        } else if i < lead.len() + inner.len() {
            assert(t[i] == inner[i - lead.len()]);
        } else {
        }
    }
    assert forall|i: int| 0 <= i < s.len() implies #[trigger] s[i] != '\n' by {
        if s[i] == '\n' {
            assert(is_whitespace(s[i]));
        }
    }
}

/// To collapse a text without white space changes nothing.
pub proof fn lemma_collapse_without_white_space(s: Seq<char>)
    requires
        forall|i: int| 0 <= i < s.len() ==> !is_whitespace(#[trigger] s[i]),
    ensures
        collapse(s) == s,
    decreases s.len(),
{
    if s.len() > 0 {
        let init = s.drop_last();
        assert forall|i: int| 0 <= i < init.len() implies !is_whitespace(#[trigger] init[i]) by {
            assert(init[i] == s[i]);
        }
        lemma_collapse_without_white_space(init);
        assert(!is_whitespace(s[s.len() - 1]));
        if s.len() > 1 {
            assert(!is_whitespace(s[s.len() - 2]));
        }
        assert(init.push(s.last()) =~= s);
    }
}

/// To tidy a text without white space changes nothing, and such a text is
/// blank only where it is empty.
pub proof fn lemma_tidy_without_white_space(s: Seq<char>)
    requires
        forall|i: int| 0 <= i < s.len() ==> !is_whitespace(#[trigger] s[i]),
    ensures
        tidy(s) == s,
        s.len() > 0 ==> !is_blank(s),
{
    lemma_collapse_without_white_space(s);
    if s.len() > 0 {
        assert(!is_whitespace(s[0]));
        assert(!is_whitespace(s[s.len() - 1]));
    }
    assert(tidy(s) =~= s);
}

/// The number of bytes that stand for the character `c` in UTF-8.
pub open spec fn utf8_len(c: char) -> nat {
    let n = c as u32;
    if n < 0x80 {
        1
    } else if n < 0x800 {
        2
    } else if n < 0x10000 {
        3
    } else {
        4
    }
}

/// The number of bytes that stand for the text `s` in UTF-8.
pub open spec fn byte_len(s: Seq<char>) -> nat
    decreases s.len(),
{
    if s.len() == 0 {
        0
    } else {
        byte_len(s.drop_last()) + utf8_len(s.last())
    }
}

/// A longer start of a text has more bytes than a shorter one.
pub proof fn lemma_byte_len_grows(s: Seq<char>, i: int, j: int)
    requires
        0 <= i <= j <= s.len(),
    ensures
        byte_len(s.take(i)) + (j - i) <= byte_len(s.take(j)),
    decreases j - i,
{
    if i < j {
        lemma_byte_len_grows(s, i, j - 1);
        assert(s.take(j).drop_last() =~= s.take(j - 1));
    }
}

/// A text of characters below 128 has one byte for each character.
pub proof fn lemma_byte_len_of_ascii(s: Seq<char>)
    requires
        forall|i: int| 0 <= i < s.len() ==> ((#[trigger] s[i]) as u32) < 0x80,
    ensures
        byte_len(s) == s.len(),
    decreases s.len(),
{
    if s.len() > 0 {
        let init = s.drop_last();
        assert forall|i: int| 0 <= i < init.len() implies ((#[trigger] init[i]) as u32) < 0x80 by {
            assert(init[i] == s[i]);
        }
        lemma_byte_len_of_ascii(init);
        assert(s.last() == s[s.len() - 1]);
    }
}

/// Counts the bytes that stand for a character in UTF-8.
pub fn char_len_utf8(c: char) -> (len: usize)
    ensures
        len == utf8_len(c),
{
    let n: u32 = c as u32;
    if n < 0x80 {
        1
    } else if n < 0x800 {
        2
    } else if n < 0x10000 {
        3
    } else {
        4
    }
}

} // verus!
