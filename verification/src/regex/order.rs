//! The order of the expressions by the inclusion of what they match.
use crate::model::NfaModel;
use crate::nfa::order::{compare, compared};
use crate::regex::{Regex, RegexModel};
use crate::symbol::Symbol;
use std::cmp::Ordering;
use vstd::prelude::*;

verus! {

impl<V> RegexModel<V> {
    /// The automaton of the expression.
    pub open spec fn to_nfa(self) -> NfaModel<V> {
        self.tree.to_nfa(self.alphabet)
    }
}

impl<V: Symbol> Regex<V> {
    /// Whether `self` matches every word that `other` matches, where the two
    /// have one alphabet: whether the automaton of `self` contains that of
    /// `other`.
    pub fn contains(&self, other: &Regex<V>) -> (r: bool)
        requires
            self.wf(),
            other.wf(),
        ensures
            r == self@.to_nfa().contains(other@.to_nfa()),
            self@.alphabet == other@.alphabet ==> (r <==> forall|w: Seq<V>|
                other@.matches(w) ==> self@.matches(w)),
    {
        let a = self.to_nfa();
        let b = other.to_nfa();
        let r = a.contains(&b);
        proof {
            if self@.alphabet == other@.alphabet {
                if r {
                    assert forall|w: Seq<V>| other@.matches(w) implies self@.matches(w) by {
                        assert(b@.accepts(w) ==> a@.accepts(w));
                    }
                } else {
                    let w = choose|w: Seq<V>| b@.accepts(w) && !a@.accepts(w);
                    assert(other@.matches(w) && !self@.matches(w));
                }
            }
        }
        r
    }

    /// Whether the two expressions contain each other: whether they match the
    /// same words, where they have one alphabet.
    pub fn eq(&self, other: &Regex<V>) -> (r: bool)
        requires
            self.wf(),
            other.wf(),
        ensures
            r == self@.to_nfa().equivalent(other@.to_nfa()),
            self@.alphabet == other@.alphabet ==> (r <==> forall|w: Seq<V>|
                self@.matches(w) <==> other@.matches(w)),
    {
        let a = self.to_nfa();
        let b = other.to_nfa();
        let r = a.eq(&b);
        proof {
            if self@.alphabet == other@.alphabet {
                if r {
                    assert forall|w: Seq<V>| self@.matches(w) <==> other@.matches(w) by {
                        assert(a@.accepts(w) <==> b@.accepts(w));
                    }
                } else {
                    let w = choose|w: Seq<V>| !(a@.accepts(w) <==> b@.accepts(w));
                    assert(!(self@.matches(w) <==> other@.matches(w)));
                }
            }
        }
        r
    }

    /// Whether `other` contains `self`.
    pub fn le(&self, other: &Regex<V>) -> (r: bool)
        requires
            self.wf(),
            other.wf(),
        ensures
            r == other@.to_nfa().contains(self@.to_nfa()),
    {
        other.contains(self)
    }

    /// Whether `self` contains `other`.
    pub fn ge(&self, other: &Regex<V>) -> (r: bool)
        requires
            self.wf(),
            other.wf(),
        ensures
            r == self@.to_nfa().contains(other@.to_nfa()),
    {
        self.contains(other)
    }

    /// Whether `other` contains `self` and is not contained in it.
    pub fn lt(&self, other: &Regex<V>) -> (r: bool)
        requires
            self.wf(),
            other.wf(),
        ensures
            r == (other@.to_nfa().contains(self@.to_nfa()) && !self@.to_nfa().contains(
                other@.to_nfa(),
            )),
    {
        other.contains(self) && !self.contains(other)
    }

    /// Whether `self` contains `other` and is not contained in it.
    pub fn gt(&self, other: &Regex<V>) -> (r: bool)
        requires
            self.wf(),
            other.wf(),
        ensures
            r == (self@.to_nfa().contains(other@.to_nfa()) && !other@.to_nfa().contains(
                self@.to_nfa(),
            )),
    {
        self.contains(other) && !other.contains(self)
    }

    /// How what the two expressions match compares.
    pub fn partial_cmp(&self, other: &Regex<V>) -> (r: Option<Ordering>)
        requires
            self.wf(),
            other.wf(),
        ensures
            r == compared(
                self@.to_nfa().contains(other@.to_nfa()),
                other@.to_nfa().contains(self@.to_nfa()),
            ),
    {
        compare(self.ge(other), self.le(other))
    }
}

} // verus!
