//! Complement, intersection and containment.
use crate::language::word_over;
use crate::laws::complement::{
    lemma_contains_is_inclusion, lemma_dfa_negate_language, lemma_intersect_same_alphabet,
};
use crate::laws::unite::lemma_unite_language;
use crate::determinism::{is_determinized, is_intersected, is_negated};
use crate::laws::walks::lemma_accepted_over_alphabet;
use crate::nfa::NFA;
use crate::symbol::Symbol;
use vstd::prelude::*;

verus! {

impl<V: Symbol> NFA<V> {
    /// The automaton that accepts the words over the alphabet that `self`
    /// does not accept: `self` is made deterministic and complete, and the
    /// final states are exchanged for the others.
    pub fn negate(self) -> (r: NFA<V>)
        requires
            self.wf(),
        ensures
            r.wf(),
            r@.alphabet == self@.alphabet,
            forall|w: Seq<V>| r@.accepts(w) <==> (word_over(self@.alphabet, w) && !self@.accepts(w)),
            crate::laws::order::is_complement(self@, r@),
            is_negated(self@, r@),
    {
        let d = self.to_dfa();
        let ghost dm = d@;
        proof {
            d.lemma_model_wf();
        }
        let g = d.negate();
        let r = g.to_nfa();
        proof {
            assert(dm.wf() && is_determinized(self@, dm) && r@ == dm.negate().to_nfa());
            assert forall|w: Seq<V>|
                r@.accepts(w) <==> (word_over(self@.alphabet, w) && !self@.accepts(w)) by {
                lemma_dfa_negate_language(dm, w);
            }
        }
        r
    }

    /// The automaton that accepts the words that both `self` and `other`
    /// accept, where the two have one alphabet: the complement of the union
    /// of the complements.
    ///
    /// Where the alphabets differ, the complements are taken each over its own
    /// alphabet and the last one over both.
    pub fn intersect(self, other: NFA<V>) -> (r: NFA<V>)
        requires
            self.wf(),
            other.wf(),
        ensures
            r.wf(),
            r@.alphabet == self@.alphabet.union(other@.alphabet),
            forall|w: Seq<V>| r@.accepts(w) <==> self@.in_both(other@, w),
            self@.alphabet == other@.alphabet ==> forall|w: Seq<V>|
                r@.accepts(w) <==> (self@.accepts(w) && other@.accepts(w)),
            is_intersected(self@, other@, r@),
    {
        let ghost a = self@;
        let ghost b = other@;
        proof {
            self.lemma_model_wf();
            other.lemma_model_wf();
        }
        let na = self.negate();
        let nb = other.negate();
        let ghost nam = na@;
        let ghost nbm = nb@;
        proof {
            na.lemma_model_wf();
            nb.lemma_model_wf();
        }
        let u = na.unite(nb);
        let ghost um = u@;
        let r = u.negate();
        proof {
            assert(nam.wf() && nbm.wf() && is_negated(a, nam) && is_negated(b, nbm) && is_negated(
                nam.unite(nbm),
                r@,
            ));
            assert forall|w: Seq<V>| r@.accepts(w) <==> a.in_both(b, w) by {
                lemma_unite_language(nam, nbm, w);
            }
            if a.alphabet == b.alphabet {
                assert forall|w: Seq<V>| r@.accepts(w) <==> (a.accepts(w) && b.accepts(w)) by {
                    lemma_intersect_same_alphabet(a, b, w);
                }
            }
        }
        r
    }

    /// Whether `self` accepts every word that `other` accepts, where the two
    /// have one alphabet: whether the complement of `self`, intersected with
    /// `other`, accepts nothing.
    pub fn contains(&self, other: &NFA<V>) -> (r: bool)
        requires
            self.wf(),
            other.wf(),
        ensures
            r == self@.contains(other@),
            self@.alphabet == other@.alphabet ==> (r <==> forall|w: Seq<V>|
                other@.accepts(w) ==> self@.accepts(w)),
    {
        let ghost a = self@;
        let ghost b = other@;
        proof {
            self.lemma_model_wf();
            other.lemma_model_wf();
        }
        let na = self.copy().negate();
        let ghost nam = na@;
        proof {
            na.lemma_model_wf();
        }
        let x = na.intersect(other.copy());
        let r = x.is_empty();
        proof {
            assert forall|w: Seq<V>| x@.accepts(w) <==> a.escapes(b, w) by {
                if a.accepts(w) {
                    lemma_accepted_over_alphabet(a, w);
                }
            }
            if r {
                assert forall|w: Seq<V>| !a.escapes(b, w) by {
                    assert(!x@.accepts(w));
                }
            } else {
                let w = choose|w: Seq<V>| x@.accepts(w);
                assert(a.escapes(b, w));
            }
            if a.alphabet == b.alphabet {
                lemma_contains_is_inclusion(a, b);
            }
        }
        r
    }
}

} // verus!
