//! The order of the automata by the inclusion of their languages.
use crate::laws::order::lemma_equivalent_same_language;
use crate::nfa::NFA;
use crate::symbol::Symbol;
use std::cmp::Ordering;
use vstd::prelude::*;

verus! {

/// How two languages compare, from whether each contains the other.
pub open spec fn compared(first_has_second: bool, second_has_first: bool) -> Option<Ordering> {
    if first_has_second && second_has_first {
        Some(Ordering::Equal)
    } else if first_has_second {
        Some(Ordering::Greater)
    } else if second_has_first {
        Some(Ordering::Less)
    } else {
        None
    }
}

/// How two languages compare, from whether each contains the other.
pub fn compare(first_has_second: bool, second_has_first: bool) -> (r: Option<Ordering>)
    ensures
        r == compared(first_has_second, second_has_first),
{
    if first_has_second && second_has_first {
        Some(Ordering::Equal)
    } else if first_has_second {
        Some(Ordering::Greater)
    } else if second_has_first {
        Some(Ordering::Less)
    } else {
        None
    }
}

impl<V: Symbol> NFA<V> {
    /// Whether the two automata contain each other: whether they accept the
    /// same words, where they have one alphabet.
    pub fn eq(&self, other: &NFA<V>) -> (r: bool)
        requires
            self.wf(),
            other.wf(),
        ensures
            r == self@.equivalent(other@),
            self@.alphabet == other@.alphabet ==> (r <==> forall|w: Seq<V>|
                self@.accepts(w) <==> other@.accepts(w)),
    {
        proof {
            self.lemma_model_wf();
            other.lemma_model_wf();
            if self@.alphabet == other@.alphabet {
                lemma_equivalent_same_language(self@, other@);
            }
        }
        self.le(other) && self.ge(other)
    }

    /// Whether `other` contains `self`.
    pub fn le(&self, other: &NFA<V>) -> (r: bool)
        requires
            self.wf(),
            other.wf(),
        ensures
            r == other@.contains(self@),
    {
        other.contains(self)
    }

    /// Whether `self` contains `other`.
    pub fn ge(&self, other: &NFA<V>) -> (r: bool)
        requires
            self.wf(),
            other.wf(),
        ensures
            r == self@.contains(other@),
    {
        self.contains(other)
    }

    /// Whether `other` contains `self` and is not contained in it.
    pub fn lt(&self, other: &NFA<V>) -> (r: bool)
        requires
            self.wf(),
            other.wf(),
        ensures
            r == (other@.contains(self@) && !self@.contains(other@)),
    {
        other.contains(self) && !self.contains(other)
    }

    /// Whether `self` contains `other` and is not contained in it.
    pub fn gt(&self, other: &NFA<V>) -> (r: bool)
        requires
            self.wf(),
            other.wf(),
        ensures
            r == (self@.contains(other@) && !other@.contains(self@)),
    {
        self.contains(other) && !other.contains(self)
    }

    /// How the languages of the two automata compare: equal where each
    /// contains the other, greater where `self` alone contains the other, less
    /// where `other` alone does, and not at all where neither does.
    pub fn partial_cmp(&self, other: &NFA<V>) -> (r: Option<Ordering>)
        requires
            self.wf(),
            other.wf(),
        ensures
            r == compared(self@.contains(other@), other@.contains(self@)),
    {
        compare(self.ge(other), self.le(other))
    }
}

} // verus!
