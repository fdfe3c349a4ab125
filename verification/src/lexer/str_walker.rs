//! A cursor over the characters of a source text.

use crate::text::{
    byte_len, char_len_utf8, chars_of, first_match, first_match_from, lemma_byte_len_grows,
    lemma_first_match, starts_with_at,
};
use vstd::prelude::*;

verus! {

/// Walks a text from its first character to its end.
pub struct StrWalker {
    to_walk: Vec<char>,
    index: usize,
}

/// Where a walk that leaves index `i` of `s` and looks for `target` stops: at
/// the first index after `i` where `target` stands, or at the end of `s`.
pub open spec fn next_stop(s: Seq<char>, i: int, target: Seq<char>) -> int
    decreases s.len() - i,
{
    if i >= s.len() {
        i
    } else if i + 1 >= s.len() || starts_with_at(s, i + 1, target) {
        i + 1
    } else {
        next_stop(s, i + 1, target)
    }
}

/// The keys of a rule table.
pub open spec fn rule_keys<T>(rules: Seq<(&str, T)>) -> Seq<Seq<char>> {
    Seq::new(rules.len(), |k: int| rules[k].0@)
}

impl StrWalker {
    #[verifier::type_invariant]
    spec fn inv(self) -> bool {
        self.index <= self.to_walk.len()
    }

    /// The text that is walked.
    pub closed spec fn text(&self) -> Seq<char> {
        self.to_walk@
    }

    /// The index of the character that comes next.
    pub closed spec fn position(&self) -> int {
        self.index as int
    }

    /// A walker at the start of `str`.
    pub fn new(str: &str) -> (walker: Self)
        ensures
            walker.text() == str@,
            walker.position() == 0,
            str@.len() <= usize::MAX,
    {
        Self { to_walk: chars_of(str), index: 0 }
    }

    /// Steps over one character and returns it; `None` at the end.
    pub fn next_char(&mut self) -> (ch: Option<char>)
        ensures
            final(self).text() == old(self).text(),
            0 <= old(self).position() <= old(self).text().len(),
            old(self).position() < old(self).text().len() ==> ch == Some(
                old(self).text()[old(self).position()],
            ) && final(self).position() == old(self).position() + 1,
            old(self).position() == old(self).text().len() ==> ch.is_none() && final(self).position() == old(self).position(),
    {
        proof {
            use_type_invariant(&*self);
        }
        if self.reached_end() {
            return None;
        }
        let ch = self.to_walk[self.index];
        self.index += 1;
        Some(ch)
    }

    /// Whether the walk has come to the end of the text.
    pub fn reached_end(&self) -> (end: bool)
        ensures
            end == (self.position() == self.text().len()),
            0 <= self.position() <= self.text().len(),
    {
        proof {
            use_type_invariant(self);
        }
        self.to_walk.len() <= self.index
    }

    /// Steps over at least one character, then on to the next place where
    /// `target` stands, or to the end.
    pub fn jump_to_next(&mut self, target: &str)
        ensures
            final(self).text() == old(self).text(),
            final(self).position() == next_stop(old(self).text(), old(self).position(), target@),
    {
        proof {
            use_type_invariant(&*self);
        }
        loop
            invariant_except_break
                self.text() == old(self).text(),
                0 <= self.position() <= self.text().len(),
                next_stop(self.text(), self.position(), target@) == next_stop(
                    old(self).text(),
                    old(self).position(),
                    target@,
                ),
            ensures
                self.text() == old(self).text(),
                self.position() == next_stop(old(self).text(), old(self).position(), target@),
            decreases self.text().len() - self.position(),
        {
            if self.next_char().is_none() {
                break;
            }
            if self.currently_starts_with(target) || self.reached_end() {
                break;
            }
        }
    }

    /// Whether `pat` stands at the place the walk has come to.
    pub fn currently_starts_with(&self, pat: &str) -> (found: bool)
        ensures
            found == starts_with_at(self.text(), self.position(), pat@),
    {
        proof {
            use_type_invariant(self);
        }
        let mut at: usize = self.index;
        for ch in it: pat.chars()
            invariant
                at == self.index + it.index(),
                at <= self.to_walk.len(),
                it.seq() == pat@,
                self.to_walk@.subrange(self.index as int, at as int) == pat@.take(it.index() as int),
        {
            if at >= self.to_walk.len() || self.to_walk[at] != ch {
                proof {
                    if self.index + pat@.len() <= self.to_walk.len() {
                        let whole = self.to_walk@.subrange(
                            self.index as int,
                            self.index + pat@.len(),
                        );
                        assert(whole[it.index() as int] == self.to_walk@[at as int]);
                    }
                }
                return false;
            }
            at += 1;
            proof {
                let k = it.index() as int;
                assert(self.to_walk@.subrange(self.index as int, at as int) == pat@.take(k + 1));
            }
        }
        proof {
            assert(pat@.take(pat@.len() as int) == pat@);
        }
        true
    }

    /// Steps over `amount` bytes of the text as it is written in UTF-8. The
    /// bytes must be those of whole characters: an amount that ends inside a
    /// character, or behind the end of the text, is no amount to jump by.
    pub fn jump_by(&mut self, amount: usize)
        requires
            exists|k: int|
                0 <= k && old(self).position() + k <= old(self).text().len() && byte_len(
                    #[trigger] old(self).text().subrange(
                        old(self).position(),
                        old(self).position() + k,
                    ),
                ) == amount,
        ensures
            final(self).text() == old(self).text(),
            old(self).position() <= final(self).position() <= final(self).text().len(),
            byte_len(old(self).text().subrange(old(self).position(), final(self).position()))
                == amount,
            forall|k: int|
                0 <= k && old(self).position() + k <= old(self).text().len() && byte_len(
                    #[trigger] old(self).text().subrange(
                        old(self).position(),
                        old(self).position() + k,
                    ),
                ) == amount ==> final(self).position() == old(self).position() + k,
    {
        proof {
            use_type_invariant(&*self);
        }
        let ghost text = self.to_walk@;
        let ghost start = self.index as int;
        let ghost k = choose|k: int|
            0 <= k && start + k <= text.len() && byte_len(
                #[trigger] text.subrange(start, start + k),
            ) == amount;
        let ghost rest = text.subrange(start, text.len() as int);
        let mut jumped: usize = 0;
        let mut index: usize = self.index;
        assert(rest.take(0) =~= Seq::empty());
        assert(rest.take(k) =~= text.subrange(start, start + k));
        while jumped < amount
            invariant
                text == self.to_walk@,
                0 <= start <= text.len(),
                rest == text.subrange(start, text.len() as int),
                0 <= k && start + k <= text.len(),
                byte_len(rest.take(k)) == amount,
                start <= index <= start + k,
                jumped == byte_len(rest.take(index - start)),
                jumped <= amount,
            decreases amount - jumped,
        {
            proof {
                assert(index < start + k);
                assert(index < self.to_walk.len());
                lemma_byte_len_grows(rest, index - start + 1, k);
                assert(rest.take(index - start + 1).drop_last() =~= rest.take(index - start));
                assert(rest.take(index - start + 1).last() == text[index as int]);
            }
            jumped += char_len_utf8(self.to_walk[index]);
            index += 1;
        }
        assert(rest.take(index - start) =~= text.subrange(start, index as int));
        assert forall|j: int|
            0 <= j && start + j <= text.len() && byte_len(#[trigger] text.subrange(start, start + j))
                == amount implies index == start + j by {
            assert(rest.take(j) =~= text.subrange(start, start + j));
            if j < index - start {
                lemma_byte_len_grows(rest, j, index - start);
            } else if j > index - start {
                lemma_byte_len_grows(rest, index - start, j);
            }
        }
        self.index = index;
    }

    /// Steps over `amount` characters.
    fn step_by(&mut self, amount: usize)
        requires
            old(self).position() + amount <= old(self).text().len(),
        ensures
            final(self).text() == old(self).text(),
            final(self).position() == old(self).position() + amount,
    {
        proof {
            use_type_invariant(&*self);
        }
        self.index += amount;
    }

    /// Tries the rules in order. At the first whose key stands at the place
    /// the walk has come to, steps over the key and returns the rule's item.
    pub fn try_each<T: Clone>(&mut self, rules: &[(&str, T)]) -> (found: Option<T>)
        ensures
            final(self).text() == old(self).text(),
            0 <= final(self).position() <= final(self).text().len(),
            match first_match(rule_keys(rules@), old(self).text(), old(self).position()) {
                Some(k) => 0 <= k < rules@.len() && found.is_some() && cloned::<T>(
                    rules@[k].1,
                    found.unwrap(),
                ) && final(self).position() == old(self).position() + rules@[k].0@.len(),
                None => found.is_none() && final(self).position() == old(self).position(),
            },
    {
        proof {
            use_type_invariant(&*self);
            lemma_first_match(rule_keys(rules@), self.text(), self.position(), 0);
        }
        let mut k: usize = 0;
        while k < rules.len()
            invariant
                k <= rules.len(),
                *self == *old(self),
                first_match(rule_keys(rules@), self.text(), self.position()) == first_match_from(
                    rule_keys(rules@),
                    self.text(),
                    self.position(),
                    k as int,
                ),
            decreases rules.len() - k,
        {
            if self.currently_starts_with(rules[k].0) {
                let n = rules[k].0.unicode_len();
                self.step_by(n);
                return Some(rules[k].1.clone());
            }
            k += 1;
        }
        None
    }
}

} // verus!
