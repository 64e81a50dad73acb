//! The order of the deterministic automata by the inclusion of their
//! languages.
use crate::dfa::DFA;
use crate::nfa::order::{compare, compared};
use crate::symbol::Symbol;
use std::cmp::Ordering;
use vstd::prelude::*;

verus! {

impl<V: Symbol> DFA<V> {
    /// Whether the two automata contain each other: whether they accept the
    /// same words, where they have one alphabet.
    pub fn eq(&self, other: &DFA<V>) -> (r: bool)
        requires
            self.wf(),
            other.wf(),
        ensures
            r == self@.to_nfa().equivalent(other@.to_nfa()),
            self@.alphabet == other@.alphabet ==> (r <==> forall|w: Seq<V>|
                self@.accepts(w) <==> other@.accepts(w)),
    {
        let a = self.to_nfa();
        let b = other.to_nfa();
        let r = a.eq(&b);
        proof {
            if self@.alphabet == other@.alphabet {
                if r {
                    assert forall|w: Seq<V>| self@.accepts(w) <==> other@.accepts(w) by {
                        assert(a@.accepts(w) <==> b@.accepts(w));
                    }
                } else {
                    let w = choose|w: Seq<V>| !(a@.accepts(w) <==> b@.accepts(w));
                    assert(!(self@.accepts(w) <==> other@.accepts(w)));
                }
            }
        }
        r
    }

    /// Whether `other` contains `self`.
    pub fn le(&self, other: &DFA<V>) -> (r: bool)
        requires
            self.wf(),
            other.wf(),
        ensures
            r == other@.to_nfa().contains(self@.to_nfa()),
    {
        other.contains(self)
    }

    /// Whether `self` contains `other`.
    pub fn ge(&self, other: &DFA<V>) -> (r: bool)
        requires
            self.wf(),
            other.wf(),
        ensures
            r == self@.to_nfa().contains(other@.to_nfa()),
    {
        self.contains(other)
    }

    /// Whether `other` contains `self` and is not contained in it.
    pub fn lt(&self, other: &DFA<V>) -> (r: bool)
        requires
            self.wf(),
            other.wf(),
        ensures
            r == (other@.to_nfa().contains(self@.to_nfa()) && !self@.to_nfa().contains(
                other@.to_nfa(),
            )),
    {
        other.contains(self) && !self.contains(other)
    }

    /// Whether `self` contains `other` and is not contained in it.
    pub fn gt(&self, other: &DFA<V>) -> (r: bool)
        requires
            self.wf(),
            other.wf(),
        ensures
            r == (self@.to_nfa().contains(other@.to_nfa()) && !other@.to_nfa().contains(
                self@.to_nfa(),
            )),
    {
        self.contains(other) && !other.contains(self)
    }

    /// How the languages of the two automata compare.
    pub fn partial_cmp(&self, other: &DFA<V>) -> (r: Option<Ordering>)
        requires
            self.wf(),
            other.wf(),
        ensures
            r == compared(
                self@.to_nfa().contains(other@.to_nfa()),
                other@.to_nfa().contains(self@.to_nfa()),
            ),
    {
        compare(self.ge(other), self.le(other))
    }
}

} // verus!
