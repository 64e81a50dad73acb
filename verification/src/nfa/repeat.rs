//! Bounded and unbounded repetition, built from concatenation and star.

use crate::nfa::NFA;
use crate::sets::{copy_symbols, marked, overlap};
use crate::symbol::Symbol;
use vstd::prelude::*;

verus! {

/// The upper bound of a repetition as a natural number.
pub open spec fn bound(hi: Option<usize>) -> Option<nat> {
    match hi {
        Some(h) => Some(h as nat),
        None => None,
    }
}

impl<V: Symbol> NFA<V> {
    /// The automaton with one more state, initial and final and without
    /// edges, so that it accepts the empty word too; `self` as it is where it
    /// accepts the empty word already.
    pub fn or_empty_word(self) -> (r: NFA<V>)
        requires
            self.wf(),
        ensures
            r.wf(),
            r@ == self@.or_empty_word(),
            forall|w: Seq<V>| r@.accepts(w) <==> (self@.accepts(w) || w.len() == 0),
    {
        let ghost a = self;
        proof {
            a.lemma_model_wf();
            assert forall|w: Seq<V>|
                a@.or_empty_word().accepts(w) <==> (a@.accepts(w) || w.len() == 0) by {
                crate::laws::repeat::lemma_or_empty_word_language(a@, w);
            }
        }
        if overlap(&self.initials, &self.finals) {
            proof {
                let q = choose|q: int|
                    marked(self.initials@).contains(q) && marked(self.finals@).contains(q);
                assert(self@.initials.contains(q) && self@.finals.contains(q));
            }
            return self;
        }
        let NFA { alphabet, initials, finals, transitions } = self;
        let mut initials = initials;
        let mut finals = finals;
        let mut transitions = transitions;
        let n = transitions.len();
        initials.push(true);
        finals.push(true);
        transitions.push(Vec::new());
        let r = NFA { alphabet, initials, finals, transitions };
        proof {
            let goal = a@.or_empty_word();
            assert(r@.initials =~= goal.initials);
            assert(r@.finals =~= goal.finals);
            assert forall|e: (int, V, int)| r@.edges.contains(e) <==> goal.edges.contains(e) by {
                if 0 <= e.0 < n {
                    assert(r.transitions[e.0] == a.transitions[e.0]);
                }
                if e.0 == n && r@.edges.contains(e) {
                    let k = choose|k: int|
                        0 <= k < r.transitions[e.0]@.len() && r.transitions[e.0]@[k] == (
                            e.1,
                            e.2 as usize,
                        );
                }
            }
            assert(r@.edges =~= goal.edges);
            assert forall|q: int, k: int|
                0 <= q < r.transitions.len() && 0 <= k < r.transitions[q].len() implies (
            #[trigger] r.transitions[q][k]).1 < r.transitions.len() && r.alphabet@.contains(
                r.transitions[q][k].0,
            ) by {
                assert(r.transitions[q] == a.transitions[q]);
                assert(a.transitions[q][k].1 < n);
            }
        }
        r
    }

    /// `k` copies of `self`, one after the other, behind the automaton of the
    /// empty word.
    pub fn chain(&self, k: usize) -> (r: NFA<V>)
        requires
            self.wf(),
        ensures
            r.wf(),
            r@ == self@.chain(k as nat),
            forall|w: Seq<V>|
                r@.accepts(w) <==> crate::language::in_power(self@.language(), k as nat, w),
    {
        proof {
            self.lemma_model_wf();
            assert forall|w: Seq<V>|
                self@.chain(k as nat).accepts(w) <==> crate::language::in_power(
                    self@.language(),
                    k as nat,
                    w,
                ) by {
                crate::laws::repeat::lemma_chain_language(self@, k as nat, w);
            }
        }
        let mut acc = NFA::new_empty_word(copy_symbols(&self.alphabet));
        let mut i: usize = 0;
        while i < k
            invariant
                self.wf(),
                i <= k,
                acc.wf(),
                acc@ == self@.chain(i as nat),
            decreases k - i,
        {
            acc = acc.concatenate(self.copy());
            i += 1;
        }
        acc
    }

    /// The automaton that accepts at most `k` words of `self` in a row.
    pub fn at_most(self, k: usize) -> (r: NFA<V>)
        requires
            self.wf(),
        ensures
            r.wf(),
            r@ == self@.at_most(k as nat),
            forall|w: Seq<V>|
                r@.accepts(w) <==> crate::language::in_repeat(
                    self@.language(),
                    0,
                    Some(k as nat),
                    w,
                ),
    {
        proof {
            self.lemma_model_wf();
            assert forall|w: Seq<V>|
                self@.at_most(k as nat).accepts(w) <==> crate::language::in_repeat(
                    self@.language(),
                    0,
                    Some(k as nat),
                    w,
                ) by {
                crate::laws::repeat::lemma_at_most_language(self@, k as nat, w);
            }
        }
        let base = self.or_empty_word();
        base.chain(k)
    }

    /// The automaton that accepts at least `k` words of `self` in a row.
    pub fn at_least(self, k: usize) -> (r: NFA<V>)
        requires
            self.wf(),
        ensures
            r.wf(),
            r@ == self@.at_least(k as nat),
            forall|w: Seq<V>|
                r@.accepts(w) <==> crate::language::in_repeat(self@.language(), k as nat, None, w),
    {
        proof {
            self.lemma_model_wf();
            assert forall|w: Seq<V>|
                self@.at_least(k as nat).accepts(w) <==> crate::language::in_repeat(
                    self@.language(),
                    k as nat,
                    None,
                    w,
                ) by {
                crate::laws::repeat::lemma_at_least_language(self@, k as nat, w);
            }
        }
        let front = self.chain(k);
        front.concatenate(self.kleene())
    }

    /// The automaton that accepts between `lo` and `hi` words of `self` in a
    /// row; without `hi`, `lo` or more. Where `hi` is below `lo` it accepts
    /// nothing.
    pub fn repeat(self, lo: usize, hi: Option<usize>) -> (r: NFA<V>)
        requires
            self.wf(),
        ensures
            r.wf(),
            r@ == self@.repeat(lo as nat, bound(hi)),
            forall|w: Seq<V>|
                r@.accepts(w) <==> crate::language::in_repeat(
                    self@.language(),
                    lo as nat,
                    bound(hi),
                    w,
                ),
    {
        proof {
            self.lemma_model_wf();
            assert forall|w: Seq<V>|
                self@.repeat(lo as nat, bound(hi)).accepts(w) <==> crate::language::in_repeat(
                    self@.language(),
                    lo as nat,
                    bound(hi),
                    w,
                ) by {
                crate::laws::repeat::lemma_repeat_language(self@, lo as nat, bound(hi), w);
            }
        }
        match hi {
            Some(h) => {
                if h < lo {
                    NFA::new_empty(copy_symbols(&self.alphabet))
                } else {
                    let front = self.chain(lo);
                    front.concatenate(self.at_most(h - lo))
                }
            },
            None => self.at_least(lo),
        }
    }
}

} // verus!
