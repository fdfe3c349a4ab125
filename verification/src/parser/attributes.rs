//! The attributes of a tag.

use crate::error::{CatResult, ErrorView, TeaCatError};
use crate::lexer::{StringLiteral, StringLiteralView, Token, TokenStream, TokenView};
use crate::parser::agrees;
use crate::parser::grammar::attributes_until_brace;
use vstd::prelude::*;

verus! {
/// The attributes of a tag: literals by name, no name twice.
#[derive(Debug)]
pub struct Attributes(Vec<(String, StringLiteral)>);

impl View for Attributes {
    type V = Seq<(Seq<char>, StringLiteralView)>;

    /// The entries, in the order in which their names were first set.
    closed spec fn view(&self) -> Seq<(Seq<char>, StringLiteralView)> {
        Seq::new(self.0@.len(), |i: int| (self.0@[i].0@, self.0@[i].1@))
    }
}

/// The index of the entry of `entries` with the name `key`, from index `i`
/// on.
pub open spec fn position_from(
    entries: Seq<(Seq<char>, StringLiteralView)>,
    key: Seq<char>,
    i: int,
) -> Option<int>
    decreases entries.len() - i,
{
    if i < 0 || i >= entries.len() {
        None
    } else if entries[i].0 == key {
        Some(i)
    } else {
        position_from(entries, key, i + 1)
    }
}

/// The index of the entry of `entries` with the name `key`.
pub open spec fn position(entries: Seq<(Seq<char>, StringLiteralView)>, key: Seq<char>) -> Option<
    int,
> {
    position_from(entries, key, 0)
}

/// The entries after `value` has been set for `key`: in place of the value
/// that `key` had, or else as a new last entry.
pub open spec fn inserted(
    entries: Seq<(Seq<char>, StringLiteralView)>,
    key: Seq<char>,
    value: StringLiteralView,
) -> Seq<(Seq<char>, StringLiteralView)> {
    match position(entries, key) {
        Some(i) => entries.update(i, (key, value)),
        None => entries.push((key, value)),
    }
}

/// Whether no two entries have the same name.
pub open spec fn distinct_keys(entries: Seq<(Seq<char>, StringLiteralView)>) -> bool {
    forall|i: int, j: int|
        0 <= i < j < entries.len() ==> (#[trigger] entries[i]).0 != (#[trigger] entries[j]).0
}

/// The entries as a map from name to literal.
pub open spec fn as_map(entries: Seq<(Seq<char>, StringLiteralView)>) -> Map<
    Seq<char>,
    StringLiteralView,
> {
    Map::new(
        |key: Seq<char>| position(entries, key).is_some(),
        |key: Seq<char>| entries[position(entries, key).unwrap()].1,
    )
}

/// Whether each name of `a` has the same literal in `b`.
pub open spec fn included(
    a: Map<Seq<char>, StringLiteralView>,
    b: Map<Seq<char>, StringLiteralView>,
) -> bool {
    forall|key: Seq<char>| #[trigger] a.contains_key(key) ==> b.contains_key(key) && b[key] == a[key]
}

/// What a search from `i` on finds: an entry with the name, and none before
/// it; or that there is none.
pub proof fn lemma_position_from(
    entries: Seq<(Seq<char>, StringLiteralView)>,
    key: Seq<char>,
    i: int,
)
    requires
        0 <= i,
    ensures
        match position_from(entries, key, i) {
            Some(k) => i <= k < entries.len() && entries[k].0 == key && forall|j: int|
                i <= j < k ==> (#[trigger] entries[j]).0 != key,
            None => forall|j: int| i <= j < entries.len() ==> (#[trigger] entries[j]).0 != key,
        },
    decreases entries.len() - i,
{
    if i < entries.len() && entries[i].0 != key {
        lemma_position_from(entries, key, i + 1);
    }
}

/// Setting a value keeps the names distinct, and the map of the entries is
/// then the map before with the value set for the name.
pub proof fn lemma_inserted(
    entries: Seq<(Seq<char>, StringLiteralView)>,
    key: Seq<char>,
    value: StringLiteralView,
)
    requires
        distinct_keys(entries),
    ensures
        distinct_keys(inserted(entries, key, value)),
        as_map(inserted(entries, key, value)) == as_map(entries).insert(key, value),
{
    let after = inserted(entries, key, value);
    lemma_position_from(entries, key, 0);
    assert forall|other: Seq<char>|
        #![trigger position(after, other)]
        position(after, other).is_some() == (other == key || position(entries, other).is_some())
            && (position(after, other).is_some() ==> after[position(after, other).unwrap()].1 == (
        if other == key {
            value
        } else {
            entries[position(entries, other).unwrap()].1
        })) by {
        lemma_position_from(entries, other, 0);
        lemma_position_from(after, other, 0);
        match position(entries, key) {
            Some(i) => {
                assert(after.len() == entries.len());
                match position(entries, other) {
                    Some(k) => {
                        assert(after[k].0 == other);
                    },
                    None => {
                        if other == key {
                            assert(after[i].0 == other);
                        }
                    },
                }
            },
            None => {
                assert(after[entries.len() as int].0 == key);
                match position(entries, other) {
                    Some(k) => {
                        assert(after[k].0 == other);
                    },
                    None => {},
                }
            },
        }
    }
    assert(as_map(after) =~= as_map(entries).insert(key, value));
}

impl Attributes {
    #[verifier::type_invariant]
    spec fn inv(self) -> bool {
        distinct_keys(self@)
    }

    /// No attributes.
    pub fn new() -> (attributes: Self)
        ensures
            attributes@ == Seq::<(Seq<char>, StringLiteralView)>::empty(),
    {
        let attributes = Attributes(Vec::new());
        assert(attributes@ =~= Seq::empty());
        attributes
    }

    /// The number of attributes. No two of them have the same name.
    pub fn len(&self) -> (len: usize)
        ensures
            len == self@.len(),
            distinct_keys(self@),
    {
        proof {
            use_type_invariant(self);
        }
        self.0.len()
    }

    /// The name of the attribute at `index`.
    pub fn key(&self, index: usize) -> (key: &String)
        requires
            index < self@.len(),
        ensures
            key@ == self@[index as int].0,
    {
        &self.0[index].0
    }

    /// The literal of the attribute at `index`.
    pub fn value(&self, index: usize) -> (value: &StringLiteral)
        requires
            index < self@.len(),
        ensures
            value@ == self@[index as int].1,
    {
        &self.0[index].1
    }

    /// The literal of the attribute with the name `key`, if there is one.
    pub fn get(&self, key: &String) -> (value: Option<&StringLiteral>)
        ensures
            match value {
                Some(literal) => as_map(self@).contains_key(key@) && as_map(self@)[key@]
                    == literal@,
                None => !as_map(self@).contains_key(key@),
            },
    {
        match self.find(key) {
            Some(i) => Some(&self.0[i].1),
            None => None,
        }
    }

    /// Sets the literal of the attribute with the name `key`.
    pub fn insert(&mut self, key: String, value: StringLiteral)
        ensures
            final(self)@ == inserted(old(self)@, key@, value@),
    {
        proof {
            use_type_invariant(&*self);
            lemma_inserted(self@, key@, value@);
        }
        match self.find(&key) {
            Some(i) => {
                let mut entries: Vec<(String, StringLiteral)> = Vec::new();
                std::mem::swap(&mut entries, &mut self.0);
                entries.set(i, (key, value));
                assert(Attributes(entries)@ =~= inserted(old(self)@, key@, value@));
                self.0 = entries;
            },
            None => {
                let mut entries: Vec<(String, StringLiteral)> = Vec::new();
                std::mem::swap(&mut entries, &mut self.0);
                entries.push((key, value));
                assert(Attributes(entries)@ =~= inserted(old(self)@, key@, value@));
                self.0 = entries;
            },
        }
    }

    /// The index of the attribute with the name `key`.
    fn find(&self, key: &String) -> (found: Option<usize>)
        ensures
            match found {
                Some(i) => position(self@, key@) == Some(i as int) && i < self@.len(),
                None => position(self@, key@).is_none(),
            },
    {
        let mut i: usize = 0;
        while i < self.0.len()
            invariant
                i <= self.0.len(),
                position(self@, key@) == position_from(self@, key@, i as int),
            decreases self.0.len() - i,
        {
            if self.0[i].0 == *key {
                return Some(i);
            }
            i += 1;
        }
        None
    }

    /// Whether each attribute of `self` is an attribute of `other`, with the
    /// same literal.
    pub fn is_included_in(&self, other: &Attributes) -> (all: bool)
        ensures
            all == included(as_map(self@), as_map(other@)),
    {
        proof {
            use_type_invariant(self);
        }
        let mut i: usize = 0;
        while i < self.0.len()
            invariant
                i <= self.0.len(),
                distinct_keys(self@),
                forall|k: int|
                    0 <= k < i ==> as_map(other@).contains_key(#[trigger] self@[k].0) && as_map(
                        other@,
                    )[self@[k].0] == self@[k].1,
            decreases self.0.len() - i,
        {
            proof {
                lemma_position_from(self@, self@[i as int].0, 0);
            }
            let same = match other.get(&self.0[i].0) {
                Some(value) => *value == self.0[i].1,
                None => false,
            };
            if !same {
                assert(as_map(self@).contains_key(self@[i as int].0));
                return false;
            }
            i += 1;
        }
        proof {
            assert forall|key: Seq<char>| #[trigger]
                as_map(self@).contains_key(key) implies as_map(other@).contains_key(key) && as_map(
                other@,
            )[key] == as_map(self@)[key] by {
                lemma_position_from(self@, key, 0);
                let p = position(self@, key).unwrap();
                assert(self@[p].0 == key);
            }
        }
        true
    }

    /// Reads the entries of an attribute block, whose opening brace has been
    /// read, up to and with the closing brace.
    #[verifier::loop_isolation(false)]
    pub fn parse(tokenstream: &mut TokenStream) -> (res: CatResult<Self>)
        ensures
            agrees(
                res,
                final(tokenstream)@,
                attributes_until_brace(old(tokenstream)@, Seq::empty(), 0),
            ),
            final(tokenstream)@.len() <= old(tokenstream)@.len(),
    {
        let mut attributes = Attributes::new();
        let mut current_line: usize = 0;
        let ghost start = tokenstream@;
        loop
            invariant
                tokenstream@.len() <= start.len(),
                attributes_until_brace(tokenstream@, attributes@, current_line)
                    == attributes_until_brace(start, Seq::empty(), 0),
            decreases tokenstream@.len(),
        {
            let ghost before = tokenstream@;
            let (line, token) = match tokenstream.pop() {
                Some(pair) => pair,
                None => {
                    return Err(TeaCatError::EarlyEof(current_line, Token::CloseBrace));
                },
            };
            current_line = line;
            match token {
                Token::CloseBrace => {
                    break ;
                },
                Token::Text(key) => {
                    let on_other = |at: usize, found: Token| -> (e: TeaCatError)
                        ensures
                            e@ == ErrorView::UnexpectedAttr(at, found@),
                        {
                            let e = TeaCatError::UnexpectedAttr(at, found);
                            e
                        };
                    let on_end = || -> (e: TeaCatError)
                        ensures
                            e@ == ErrorView::EarlyEof(line, TokenView::Colon),
                        {
                            let e = TeaCatError::EarlyEof(line, Token::Colon);
                            e
                        };
                    let colon = tokenstream.expect_with_err(Token::Colon, on_other, on_end);
                    match colon {
                        Ok(_) => {},
                        Err(e) => {
                            return Err(e);
                        },
                    }
                    let value = match tokenstream.pop() {
                        Some((_, Token::Stringliteral(value))) => value,
                        Some((at, found)) => {
                            return Err(TeaCatError::UnexpectedAttr(at, found));
                        },
                        None => {
                            return Err(
                                TeaCatError::EarlyEof(
                                    line,
                                    Token::Stringliteral(StringLiteral::empty('"')),
                                ),
                            );
                        },
                    };
                    assert(tokenstream@ =~= before.skip(3));
                    attributes.insert(key, value);
                },
                other => {
                    return Err(TeaCatError::UnexpectedAttr(line, other));
                },
            }
        }
        Ok(attributes)
    }
}

impl Clone for Attributes {
    fn clone(&self) -> (res: Self)
        ensures
            res@ == self@,
    {
        proof {
            use_type_invariant(self);
        }
        let mut entries: Vec<(String, StringLiteral)> = Vec::new();
        let mut i: usize = 0;
        while i < self.0.len()
            invariant
                i <= self.0.len(),
                entries@.len() == i,
                forall|k: int|
                    0 <= k < i ==> (#[trigger] entries@[k]).0@ == self.0@[k].0@ && entries@[k].1@
                        == self.0@[k].1@,
            decreases self.0.len() - i,
        {
            entries.push((self.0[i].0.clone(), self.0[i].1.clone()));
            i += 1;
        }
        assert(Attributes(entries)@ =~= self@);
        Attributes(entries)
    }
}

impl PartialEq for Attributes {
    /// Two sets of attributes are equal where they bind the same names to
    /// the same literals, in whatever order.
    fn eq(&self, other: &Self) -> (res: bool) {
        self.is_included_in(other) && other.is_included_in(self)
    }
}

impl vstd::std_specs::cmp::PartialEqSpecImpl for Attributes {
    open spec fn obeys_eq_spec() -> bool {
        true
    }

    open spec fn eq_spec(&self, other: &Self) -> bool {
        included(as_map(self@), as_map(other@)) && included(as_map(other@), as_map(self@))
    }
}

impl Eq for Attributes {

}

} // verus!
