//! Expansion rules: a pattern and the scopes that a match of it implies.
use vstd::prelude::*;
use std::cmp::Ordering;
use crate::scopes::{Scope, ordering_of};

verus! {

/// What a rule holds: the bytes of its pattern and of each implied scope.
pub struct RuleView {
    pub pattern: Seq<u8>,
    pub scopes: Seq<Seq<u8>>,
}

/// An expansion rule.  A scope that matches `pattern` is expanded with `scopes`.
#[derive(Debug)]
pub struct Rule {
    pub pattern: Scope,
    pub scopes: Vec<Scope>,
}

impl View for Rule {
    type V = RuleView;

    open spec fn view(&self) -> RuleView {
        RuleView { pattern: self.pattern@, scopes: self.scopes.deep_view() }
    }
}

impl DeepView for Rule {
    type V = RuleView;

    open spec fn deep_view(&self) -> RuleView {
        self@
    }
}

/// A copy of a list of scopes.
pub fn clone_scopes(scopes: &Vec<Scope>) -> (r: Vec<Scope>)
    ensures
        r.deep_view() == scopes.deep_view(),
{
    let r = scopes.clone();
    assert(r.deep_view() =~= scopes.deep_view());
    r
}

impl Clone for Rule {
    fn clone(&self) -> (r: Rule)
        ensures
            r@ == self@,
    {
        Rule { pattern: self.pattern.clone(), scopes: clone_scopes(&self.scopes) }
    }
}

impl PartialEq for Rule {
    fn eq(&self, other: &Rule) -> (r: bool) {
        if !(self.pattern == other.pattern) {
            return false;
        }
        if self.scopes.len() != other.scopes.len() {
            assert(self.scopes.deep_view().len() != other.scopes.deep_view().len());
            return false;
        }
        let mut i: usize = 0;
        while i < self.scopes.len()
            invariant
                i <= self.scopes.len(),
                self.scopes.len() == other.scopes.len(),
                forall|j: int| 0 <= j < i ==> self.scopes[j]@ == other.scopes[j]@,
            decreases self.scopes.len() - i,
        {
            if !(self.scopes[i] == other.scopes[i]) {
                assert(self.scopes.deep_view()[i as int] != other.scopes.deep_view()[i as int]);
                return false;
            }
            i += 1;
        }
        assert(self.scopes.deep_view() =~= other.scopes.deep_view());
        true
    }
}

impl vstd::std_specs::cmp::PartialEqSpecImpl for Rule {
    open spec fn obeys_eq_spec() -> bool {
        true
    }

    open spec fn eq_spec(&self, other: &Rule) -> bool {
        self@ == other@
    }
}

impl Eq for Rule {

}

impl PartialOrd for Rule {
    fn partial_cmp(&self, other: &Rule) -> (r: Option<Ordering>) {
        Some(self.cmp(other))
    }
}

impl vstd::std_specs::cmp::PartialOrdSpecImpl for Rule {
    open spec fn obeys_partial_cmp_spec() -> bool {
        true
    }

    open spec fn partial_cmp_spec(&self, other: &Rule) -> Option<Ordering> {
        Some(ordering_of(self@.pattern, other@.pattern))
    }
}

impl Rule {
    /// Compares two rules by their patterns, in the order on scopes.
    pub fn cmp(&self, other: &Rule) -> (r: Ordering)
        ensures
            r == ordering_of(self@.pattern, other@.pattern),
    {
        self.pattern.cmp(&other.pattern)
    }
}

} // verus!
