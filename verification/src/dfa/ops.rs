//! The operations on deterministic automata that go by way of the
//! nondeterministic ones.
use crate::determinism::is_determinized;
use crate::dfa::DFA;
use crate::language::{in_concat, in_repeat, in_star};
use crate::model::DfaModel;
use crate::nfa::repeat::bound;
use crate::symbol::Symbol;
use vstd::prelude::*;

verus! {

impl<V: Symbol> DFA<V> {
    /// A deterministic automaton that accepts what `self` or `other`
    /// accepts.
    pub fn unite(self, other: DFA<V>) -> (r: DFA<V>)
        requires
            self.wf(),
            other.wf(),
        ensures
            r.wf(),
            r@.alphabet == self@.alphabet.union(other@.alphabet),
            forall|w: Seq<V>| r@.accepts(w) <==> (self@.accepts(w) || other@.accepts(w)),
            is_determinized(self@.to_nfa().unite(other@.to_nfa()), r@),
    {
        self.to_nfa().unite(other.to_nfa()).to_dfa()
    }

    /// A deterministic automaton that accepts a word of `self` followed by a
    /// word of `other`.
    pub fn concatenate(self, other: DFA<V>) -> (r: DFA<V>)
        requires
            self.wf(),
            other.wf(),
        ensures
            r.wf(),
            r@.alphabet == self@.alphabet.union(other@.alphabet),
            forall|w: Seq<V>|
                r@.accepts(w) <==> in_concat(
                    self@.to_nfa().language(),
                    other@.to_nfa().language(),
                    w,
                ),
            is_determinized(self@.to_nfa().concatenate(other@.to_nfa()), r@),
    {
        self.to_nfa().concatenate(other.to_nfa()).to_dfa()
    }

    /// A deterministic automaton that accepts the concatenations of words of
    /// `self`.
    pub fn kleene(self) -> (r: DFA<V>)
        requires
            self.wf(),
        ensures
            r.wf(),
            r@.alphabet == self@.alphabet,
            forall|w: Seq<V>| r@.accepts(w) <==> in_star(self@.to_nfa().language(), w),
            is_determinized(self@.to_nfa().kleene(), r@),
    {
        self.to_nfa().kleene().to_dfa()
    }

    /// A deterministic automaton that accepts at most `k` words of `self` in
    /// a row.
    pub fn at_most(self, k: usize) -> (r: DFA<V>)
        requires
            self.wf(),
        ensures
            r.wf(),
            r@.alphabet == self@.alphabet,
            forall|w: Seq<V>|
                r@.accepts(w) <==> in_repeat(self@.to_nfa().language(), 0, Some(k as nat), w),
            is_determinized(self@.to_nfa().at_most(k as nat), r@),
    {
        let n = self.to_nfa();
        proof {
            n.lemma_model_wf();
            crate::laws::repeat::lemma_at_most_language(n@, k as nat, Seq::<V>::empty());
        }
        n.at_most(k).to_dfa()
    }

    /// A deterministic automaton that accepts at least `k` words of `self`
    /// in a row.
    pub fn at_least(self, k: usize) -> (r: DFA<V>)
        requires
            self.wf(),
        ensures
            r.wf(),
            r@.alphabet == self@.alphabet,
            forall|w: Seq<V>|
                r@.accepts(w) <==> in_repeat(self@.to_nfa().language(), k as nat, None, w),
            is_determinized(self@.to_nfa().at_least(k as nat), r@),
    {
        let n = self.to_nfa();
        proof {
            n.lemma_model_wf();
            crate::laws::repeat::lemma_at_least_language(n@, k as nat, Seq::<V>::empty());
        }
        n.at_least(k).to_dfa()
    }

    /// A deterministic automaton that accepts between `lo` and `hi` words of
    /// `self` in a row; without `hi`, `lo` or more.
    pub fn repeat(self, lo: usize, hi: Option<usize>) -> (r: DFA<V>)
        requires
            self.wf(),
        ensures
            r.wf(),
            r@.alphabet == self@.alphabet,
            forall|w: Seq<V>|
                r@.accepts(w) <==> in_repeat(self@.to_nfa().language(), lo as nat, bound(hi), w),
            is_determinized(self@.to_nfa().repeat(lo as nat, bound(hi)), r@),
    {
        let n = self.to_nfa();
        proof {
            n.lemma_model_wf();
            crate::laws::repeat::lemma_repeat_language(
                n@,
                lo as nat,
                bound(hi),
                Seq::<V>::empty(),
            );
        }
        n.repeat(lo, hi).to_dfa()
    }

    /// A deterministic automaton that accepts the words of `self` read
    /// backwards.
    pub fn reverse(self) -> (r: DFA<V>)
        requires
            self.wf(),
        ensures
            r.wf(),
            r@.alphabet == self@.alphabet,
            forall|w: Seq<V>| r@.accepts(w) <==> self@.accepts(w.reverse()),
            r@.to_nfa().is_reachable(),
            is_determinized(self@.to_nfa().reverse(), r@),
    {
        self.to_nfa().reverse().to_dfa()
    }

    /// A deterministic automaton for the same words, made from `self`
    /// without the states that no walk from the initial state ends in.
    pub fn make_reachable(self) -> (r: DFA<V>)
        requires
            self.wf(),
        ensures
            r.wf(),
            r@.alphabet == self@.alphabet,
            forall|w: Seq<V>| r@.accepts(w) <==> self@.accepts(w),
            is_determinized(self@.to_nfa().make_reachable(), r@),
    {
        let n = self.to_nfa();
        proof {
            n.lemma_model_wf();
            crate::laws::trim::lemma_make_reachable_wf(n@);
        }
        n.make_reachable().to_dfa()
    }

    /// A deterministic automaton for the same words, made from `self`
    /// without the states from which no walk ends in a final state.
    pub fn make_coreachable(self) -> (r: DFA<V>)
        requires
            self.wf(),
        ensures
            r.wf(),
            r@.alphabet == self@.alphabet,
            forall|w: Seq<V>| r@.accepts(w) <==> self@.accepts(w),
            is_determinized(self@.to_nfa().make_coreachable(), r@),
    {
        let n = self.to_nfa();
        proof {
            n.lemma_model_wf();
            crate::laws::trim::lemma_make_coreachable_wf(n@);
        }
        n.make_coreachable().to_dfa()
    }

    /// A deterministic automaton for the same words, made from `self`
    /// without the states that are not on a walk from the initial state to a
    /// final state.
    pub fn trim(self) -> (r: DFA<V>)
        requires
            self.wf(),
        ensures
            r.wf(),
            r@.alphabet == self@.alphabet,
            forall|w: Seq<V>| r@.accepts(w) <==> self@.accepts(w),
            is_determinized(self@.to_nfa().trim(), r@),
    {
        let n = self.to_nfa();
        proof {
            n.lemma_model_wf();
            crate::laws::trim::lemma_trim_wf(n@);
        }
        n.trim().to_dfa()
    }

    /// A deterministic automaton that accepts the words that both `self` and
    /// `other` accept, where the two have one alphabet: the complement of the
    /// union of the complements.
    pub fn intersect(self, other: DFA<V>) -> (r: DFA<V>)
        requires
            self.wf(),
            other.wf(),
        ensures
            r.wf(),
            r@.alphabet == self@.alphabet.union(other@.alphabet),
            forall|w: Seq<V>| r@.accepts(w) <==> self@.to_nfa().in_both(other@.to_nfa(), w),
            self@.alphabet == other@.alphabet ==> forall|w: Seq<V>|
                r@.accepts(w) <==> (self@.accepts(w) && other@.accepts(w)),
            exists|u: DfaModel<V>|
                u.wf() && #[trigger] is_determinized(
                    self@.negate().to_nfa().unite(other@.negate().to_nfa()),
                    u,
                ) && r@ == u.negate(),
    {
        let ghost a = self@;
        let ghost b = other@;
        proof {
            self.lemma_model_wf();
            other.lemma_model_wf();
        }
        let na = self.negate();
        let nb = other.negate();
        let ghost nam = na@;
        let ghost nbm = nb@;
        let u = na.unite(nb);
        let ghost um = u@;
        proof {
            u.lemma_model_wf();
        }
        let r = u.negate();
        proof {
            assert(um.wf() && is_determinized(a.negate().to_nfa().unite(b.negate().to_nfa()), um)
                && r@ == um.negate());
            assert forall|w: Seq<V>| r@.accepts(w) <==> a.to_nfa().in_both(b.to_nfa(), w) by {
                crate::laws::complement::lemma_dfa_negate_language(a, w);
                crate::laws::complement::lemma_dfa_negate_language(b, w);
                crate::laws::complement::lemma_dfa_negate_language(um, w);
            }
            crate::laws::complement::lemma_dfa_negate_language(um, Seq::<V>::empty());
            crate::laws::complement::lemma_dfa_negate_language(a, Seq::<V>::empty());
            crate::laws::complement::lemma_dfa_negate_language(b, Seq::<V>::empty());
            if a.alphabet == b.alphabet {
                assert forall|w: Seq<V>| r@.accepts(w) <==> (a.accepts(w) && b.accepts(w)) by {
                    crate::laws::complement::lemma_intersect_same_alphabet(
                        a.to_nfa(),
                        b.to_nfa(),
                        w,
                    );
                }
            }
        }
        r
    }

    /// The minimal deterministic automaton for the same words: `self` is
    /// reversed and made deterministic, twice. In the result every state is
    /// reached from the initial state, no two states accept the same words,
    /// and some word is accepted from every state unless there is one state
    /// only: no deterministic automaton for the same words has fewer states.
    pub fn minimize(self) -> (r: DFA<V>)
        requires
            self.wf(),
        ensures
            r.wf(),
            r@.alphabet == self@.alphabet,
            forall|w: Seq<V>| r@.accepts(w) <==> self@.accepts(w),
            r@.is_minimal(),
            r@.is_smallest(),
            exists|mid: DfaModel<V>|
                mid.wf() && #[trigger] is_determinized(self@.to_nfa().reverse(), mid)
                    && is_determinized(mid.to_nfa().reverse(), r@),
    {
        let ghost a = self@;
        let back = self.reverse();
        let ghost bm = back@;
        let again = back.to_dfa();
        let ghost am = again@;
        let forth = again.reverse();
        let ghost fm = forth@;
        let r = forth.to_dfa();
        proof {
            r.lemma_model_wf();
            again.lemma_model_wf();
            if am.to_nfa().reverse().is_empty() {
                crate::laws::minimal::lemma_one_state_minimal(am.alphabet);
            } else {
                let turned = am.to_nfa().reverse();
                let (letters, subs) = choose|letters: Seq<V>, subs: Seq<Set<int>>|
                    crate::determinism::numbered_by(turned, fm, letters, subs);
                let w = choose|w: Seq<V>| turned.accepts(w);
                let p = choose|p: Seq<int>| #[trigger]
                    turned.is_walk(p, w) && turned.initials.contains(p[0])
                        && turned.finals.contains(p.last());
                assert(subs[0].contains(p[0]));
                crate::laws::minimal::lemma_reverse_determinized_minimal(am, fm, subs);
            }
            assert forall|w: Seq<V>| r@.accepts(w) <==> a.accepts(w) by {
                assert(r@.accepts(w) <==> fm.accepts(w));
                assert(fm.accepts(w) <==> am.accepts(w.reverse()));
                assert(am.accepts(w.reverse()) <==> bm.accepts(w.reverse()));
                assert(bm.accepts(w.reverse()) <==> a.accepts(w.reverse().reverse()));
                assert(w.reverse().reverse() =~= w);
            }
            crate::laws::minimal::lemma_minimal_smallest(r@);
        }
        r
    }

    /// Whether `self` accepts every word that `other` accepts, where the two
    /// have one alphabet.
    pub fn contains(&self, other: &DFA<V>) -> (r: bool)
        requires
            self.wf(),
            other.wf(),
        ensures
            r == self@.to_nfa().contains(other@.to_nfa()),
            self@.alphabet == other@.alphabet ==> (r <==> forall|w: Seq<V>|
                other@.accepts(w) ==> self@.accepts(w)),
    {
        let a = self.to_nfa();
        let b = other.to_nfa();
        let r = a.contains(&b);
        proof {
            if self@.alphabet == other@.alphabet {
                if r {
                    assert forall|w: Seq<V>| other@.accepts(w) implies self@.accepts(w) by {
                        assert(b@.accepts(w) ==> a@.accepts(w));
                    }
                } else {
                    let w = choose|w: Seq<V>| b@.accepts(w) && !a@.accepts(w);
                    assert(other@.accepts(w) && !self@.accepts(w));
                }
            }
        }
        r
    }

    /// Whether every state is reached by a walk from the initial state.
    pub fn is_reachable(&self) -> (r: bool)
        requires
            self.wf(),
        ensures
            r == self@.to_nfa().is_reachable(),
    {
        self.to_nfa().is_reachable()
    }

    /// Whether from every state some walk ends in a final state.
    pub fn is_coreachable(&self) -> (r: bool)
        requires
            self.wf(),
        ensures
            r == self@.to_nfa().is_coreachable(),
    {
        self.to_nfa().is_coreachable()
    }

    /// Whether every state is on a walk from the initial state to a final
    /// state.
    pub fn is_trimmed(&self) -> (r: bool)
        requires
            self.wf(),
        ensures
            r == self@.to_nfa().is_trimmed(),
    {
        self.to_nfa().is_trimmed()
    }

    /// Whether the automaton accepts no word.
    pub fn is_empty(&self) -> (r: bool)
        requires
            self.wf(),
        ensures
            r == self@.to_nfa().is_empty(),
            r == forall|w: Seq<V>| !self@.accepts(w),
    {
        let a = self.to_nfa();
        let r = a.is_empty();
        proof {
            if r {
                assert forall|w: Seq<V>| !self@.accepts(w) by {
                    assert(!a@.accepts(w));
                }
            } else {
                let w = choose|w: Seq<V>| a@.accepts(w);
                assert(self@.accepts(w));
            }
        }
        r
    }

    /// Whether the initial state and every state that a walk from it ends in
    /// are final. Of a complete automaton this says that it accepts every
    /// word over its alphabet.
    pub fn is_full(&self) -> (r: bool)
        requires
            self.wf(),
        ensures
            r == self@.to_nfa().is_full(),
    {
        self.to_nfa().is_full()
    }

    /// An expression that matches the words that the automaton accepts.
    pub fn to_regex(&self) -> (r: crate::regex::Regex<V>)
        requires
            self.wf(),
        ensures
            r.wf(),
            r@.alphabet == self@.alphabet,
            crate::nfa::to_regex::is_elimination(self@.to_nfa(), r@.tree),
            crate::regex::plainness::plain_or_empty(r@.tree),
            forall|w: Seq<V>| r@.matches(w) <==> self@.accepts(w),
    {
        self.to_nfa().to_regex()
    }

    /// The automaton itself, as a copy.
    pub fn to_dfa(&self) -> (r: DFA<V>)
        requires
            self.wf(),
        ensures
            r.wf(),
            r@ == self@,
    {
        self.copy()
    }
}

} // verus!
