//! What is in reach at a place of the tree.

use crate::expanded::scope::{Macros, Variables};
use crate::expanded::ExpandedAst;
use crate::parser::Ast;
use vstd::prelude::*;

verus! {

/// The variables and macros in reach at a place of the tree. A definition
/// takes the place of an earlier one of the same name.
pub struct Environment {
    vars: Vec<(String, ExpandedAst)>,
    macrs: Vec<(String, Ast)>,
}

/// What an [`Environment`] holds.
pub struct EnvironmentView {
    pub vars: Variables,
    pub macrs: Macros,
}

/// The variables that a list of definitions binds, a later definition
/// before an earlier one.
pub open spec fn vars_of(entries: Seq<(String, ExpandedAst)>) -> Variables
    decreases entries.len(),
{
    if entries.len() == 0 {
        Map::empty()
    } else {
        vars_of(entries.drop_last()).insert(entries.last().0@, entries.last().1@)
    }
}

/// The macros that a list of definitions binds, a later definition before
/// an earlier one.
pub open spec fn macrs_of(entries: Seq<(String, Ast)>) -> Macros
    decreases entries.len(),
{
    if entries.len() == 0 {
        Map::empty()
    } else {
        macrs_of(entries.drop_last()).insert(entries.last().0@, entries.last().1@)
    }
}

impl View for Environment {
    type V = EnvironmentView;

    closed spec fn view(&self) -> EnvironmentView {
        EnvironmentView { vars: vars_of(self.vars@), macrs: macrs_of(self.macrs@) }
    }
}

impl Environment {
    /// Nothing in reach.
    pub fn new() -> (env: Self)
        ensures
            env@.vars == Variables::empty(),
            env@.macrs == Macros::empty(),
    {
        Environment { vars: Vec::new(), macrs: Vec::new() }
    }

    /// What the variable `name` stands for, if it is in reach.
    pub fn var(&self, name: &String) -> (found: Option<&ExpandedAst>)
        ensures
            match found {
                Some(contents) => self@.vars.contains_key(name@) && self@.vars[name@] == contents@,
                None => !self@.vars.contains_key(name@),
            },
    {
        let mut i: usize = self.vars.len();
        assert(self.vars@.take(i as int) == self.vars@);
        while i > 0
            invariant
                i <= self.vars.len(),
                self@.vars.contains_key(name@) == vars_of(self.vars@.take(i as int)).contains_key(
                    name@,
                ),
                self@.vars.contains_key(name@) ==> self@.vars[name@] == vars_of(
                    self.vars@.take(i as int),
                )[name@],
            decreases i,
        {
            i -= 1;
            assert(self.vars@.take(i + 1).drop_last() == self.vars@.take(i as int));
            if self.vars[i].0 == *name {
                return Some(&self.vars[i].1);
            }
        }
        None
    }

    /// Lets the variable `name` stand for `contents`.
    pub fn define_var(&mut self, name: String, contents: ExpandedAst)
        ensures
            final(self)@.vars == old(self)@.vars.insert(name@, contents@),
            final(self)@.macrs == old(self)@.macrs,
    {
        let ghost before = self.vars@;
        self.vars.push((name, contents));
        assert(self.vars@.drop_last() == before);
    }

    /// The body of the macro `name`, if it is in reach.
    pub fn macr(&self, name: &String) -> (found: Option<&Ast>)
        ensures
            match found {
                Some(body) => self@.macrs.contains_key(name@) && self@.macrs[name@] == body@,
                None => !self@.macrs.contains_key(name@),
            },
    {
        let mut i: usize = self.macrs.len();
        assert(self.macrs@.take(i as int) == self.macrs@);
        while i > 0
            invariant
                i <= self.macrs.len(),
                self@.macrs.contains_key(name@) == macrs_of(
                    self.macrs@.take(i as int),
                ).contains_key(name@),
                self@.macrs.contains_key(name@) ==> self@.macrs[name@] == macrs_of(
                    self.macrs@.take(i as int),
                )[name@],
            decreases i,
        {
            i -= 1;
            assert(self.macrs@.take(i + 1).drop_last() == self.macrs@.take(i as int));
            if self.macrs[i].0 == *name {
                return Some(&self.macrs[i].1);
            }
        }
        None
    }

    /// Lets the macro `name` stand for `body`.
    pub fn define_macr(&mut self, name: String, body: Ast)
        ensures
            final(self)@.macrs == old(self)@.macrs.insert(name@, body@),
            final(self)@.vars == old(self)@.vars,
    {
        let ghost before = self.macrs@;
        self.macrs.push((name, body));
        assert(self.macrs@.drop_last() == before);
    }

    /// The environment inside an invocation: the same macros, and no
    /// variables.
    pub fn without_vars(&self) -> (env: Self)
        ensures
            env@.vars == Variables::empty(),
            env@.macrs == self@.macrs,
    {
        let copy = self.clone();
        Environment { vars: Vec::new(), macrs: copy.macrs }
    }
}

impl Clone for Environment {
    fn clone(&self) -> (res: Self)
        ensures
            res@ == self@,
    {
        let mut vars: Vec<(String, ExpandedAst)> = Vec::new();
        let mut i: usize = 0;
        while i < self.vars.len()
            invariant
                i <= self.vars.len(),
                vars@.len() == i,
                vars_of(vars@) == vars_of(self.vars@.take(i as int)),
            decreases self.vars.len() - i,
        {
            let ghost before = vars@;
            vars.push((self.vars[i].0.clone(), self.vars[i].1.clone()));
            assert(vars@.drop_last() == before);
            assert(self.vars@.take(i + 1).drop_last() == self.vars@.take(i as int));
            i += 1;
        }
        assert(self.vars@.take(i as int) == self.vars@);
        let mut macrs: Vec<(String, Ast)> = Vec::new();
        let mut k: usize = 0;
        while k < self.macrs.len()
            invariant
                k <= self.macrs.len(),
                macrs@.len() == k,
                macrs_of(macrs@) == macrs_of(self.macrs@.take(k as int)),
            decreases self.macrs.len() - k,
        {
            let ghost before = macrs@;
            macrs.push((self.macrs[k].0.clone(), self.macrs[k].1.clone()));
            assert(macrs@.drop_last() == before);
            assert(self.macrs@.take(k + 1).drop_last() == self.macrs@.take(k as int));
            k += 1;
        }
        assert(self.macrs@.take(k as int) == self.macrs@);
        Environment { vars, macrs }
    }
}

} // verus!
