//! What the three representations share: the sum of the three, and the
//! errors of building one from raw parts.
use crate::dfa::DFA;
use crate::model::NfaModel;
use crate::nfa::order::{compare, compared};
use crate::nfa::NFA;
use crate::regex::Regex;
use crate::symbol::Symbol;
use std::cmp::Ordering;
use vstd::prelude::*;

verus! {

/// Why raw parts do not make an automaton.
#[derive(Debug, PartialEq, Eq)]
pub enum FromRawError<V> {
    /// An initial state that is not a state.
    InvalidInitial(usize),
    /// A final state that is not a state.
    InvalidFinal(usize),
    /// A symbol on an edge that is not in the alphabet.
    UnknownLetter(V),
    /// An edge, given as source, symbol and target, whose target is not a
    /// state.
    InvalidTransition(usize, V, usize),
}

/// A regular language in one of its three representations.
#[derive(Debug)]
pub enum Automaton<V: Symbol> {
    /// A deterministic automaton.
    DFA(DFA<V>),
    /// A nondeterministic automaton.
    NFA(NFA<V>),
    /// A regular expression.
    REG(Regex<V>),
}

impl<V: Symbol> Automaton<V> {
    /// The invariant of the representation that is held.
    pub open spec fn wf(&self) -> bool {
        match self {
            Automaton::DFA(a) => a.wf(),
            Automaton::NFA(a) => a.wf(),
            Automaton::REG(a) => a.wf(),
        }
    }

    /// The nondeterministic automaton that stands for the language.
    pub open spec fn as_nfa(&self) -> NfaModel<V> {
        match self {
            Automaton::DFA(a) => a@.to_nfa(),
            Automaton::NFA(a) => a@,
            Automaton::REG(a) => a@.to_nfa(),
        }
    }

    /// Whether `w` is a word of the language.
    pub open spec fn holds(&self, w: Seq<V>) -> bool {
        match self {
            Automaton::DFA(a) => a@.accepts(w),
            Automaton::NFA(a) => a@.accepts(w),
            Automaton::REG(a) => a@.matches(w),
        }
    }

    /// A nondeterministic automaton for the language.
    pub fn to_nfa(&self) -> (r: NFA<V>)
        requires
            self.wf(),
        ensures
            r.wf(),
            r@ == self.as_nfa(),
            forall|w: Seq<V>| r@.accepts(w) <==> self.holds(w),
    {
        match self {
            Automaton::DFA(a) => a.to_nfa(),
            Automaton::NFA(a) => a.copy(),
            Automaton::REG(a) => a.to_nfa(),
        }
    }

    /// Whether `self` holds every word that `other` holds, where the two
    /// have one alphabet.
    pub fn contains(&self, other: &Automaton<V>) -> (r: bool)
        requires
            self.wf(),
            other.wf(),
        ensures
            r == self.as_nfa().contains(other.as_nfa()),
            self.as_nfa().alphabet == other.as_nfa().alphabet ==> (r <==> forall|w: Seq<V>|
                other.holds(w) ==> self.holds(w)),
    {
        let a = self.to_nfa();
        let b = other.to_nfa();
        let r = a.contains(&b);
        proof {
            if self.as_nfa().alphabet == other.as_nfa().alphabet {
                if r {
                    assert forall|w: Seq<V>| other.holds(w) implies self.holds(w) by {
                        assert(b@.accepts(w) ==> a@.accepts(w));
                    }
                } else {
                    let w = choose|w: Seq<V>| b@.accepts(w) && !a@.accepts(w);
                    assert(other.holds(w) && !self.holds(w));
                }
            }
        }
        r
    }

    /// Whether the two contain each other: whether they hold the same words,
    /// where they have one alphabet.
    pub fn eq(&self, other: &Automaton<V>) -> (r: bool)
        requires
            self.wf(),
            other.wf(),
        ensures
            r == self.as_nfa().equivalent(other.as_nfa()),
            self.as_nfa().alphabet == other.as_nfa().alphabet ==> (r <==> forall|w: Seq<V>|
                self.holds(w) <==> other.holds(w)),
    {
        let a = self.to_nfa();
        let b = other.to_nfa();
        let r = a.eq(&b);
        proof {
            if self.as_nfa().alphabet == other.as_nfa().alphabet {
                if r {
                    assert forall|w: Seq<V>| self.holds(w) <==> other.holds(w) by {
                        assert(a@.accepts(w) <==> b@.accepts(w));
                    }
                } else {
                    let w = choose|w: Seq<V>| !(a@.accepts(w) <==> b@.accepts(w));
                    assert(!(self.holds(w) <==> other.holds(w)));
                }
            }
        }
        r
    }

    /// Whether `other` contains `self`.
    pub fn le(&self, other: &Automaton<V>) -> (r: bool)
        requires
            self.wf(),
            other.wf(),
        ensures
            r == other.as_nfa().contains(self.as_nfa()),
    {
        other.contains(self)
    }

    /// Whether `self` contains `other`.
    pub fn ge(&self, other: &Automaton<V>) -> (r: bool)
        requires
            self.wf(),
            other.wf(),
        ensures
            r == self.as_nfa().contains(other.as_nfa()),
    {
        self.contains(other)
    }

    /// Whether `other` contains `self` and is not contained in it.
    pub fn lt(&self, other: &Automaton<V>) -> (r: bool)
        requires
            self.wf(),
            other.wf(),
        ensures
            r == (other.as_nfa().contains(self.as_nfa()) && !self.as_nfa().contains(
                other.as_nfa(),
            )),
    {
        other.contains(self) && !self.contains(other)
    }

    /// Whether `self` contains `other` and is not contained in it.
    pub fn gt(&self, other: &Automaton<V>) -> (r: bool)
        requires
            self.wf(),
            other.wf(),
        ensures
            r == (self.as_nfa().contains(other.as_nfa()) && !other.as_nfa().contains(
                self.as_nfa(),
            )),
    {
        self.contains(other) && !other.contains(self)
    }

    /// How the two languages compare: equal where each contains the other,
    /// greater where `self` alone contains the other, less where `other`
    /// alone does, and not at all where neither does.
    pub fn partial_cmp(&self, other: &Automaton<V>) -> (r: Option<Ordering>)
        requires
            self.wf(),
            other.wf(),
        ensures
            r == compared(
                self.as_nfa().contains(other.as_nfa()),
                other.as_nfa().contains(self.as_nfa()),
            ),
    {
        compare(self.ge(other), self.le(other))
    }
}

} // verus!
