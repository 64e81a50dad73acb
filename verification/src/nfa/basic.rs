//! The basic automata: the empty language, the empty word, every word, the
//! words of one length, and one word.
use crate::language::word_over;
use crate::model::{
    lemma_empty_language, lemma_empty_word_language, lemma_full_language, lemma_length_language,
    lemma_matching_language, NfaModel,
};
use crate::nfa::NFA;
use crate::sets::{distinct, marked, no_states};
use crate::symbol::Symbol;
use vstd::prelude::*;

verus! {

/// One edge to `target` for each symbol of `alphabet`.
pub fn fan<V: Symbol>(alphabet: &Vec<V>, target: usize) -> (row: Vec<(V, usize)>)
    ensures
        row.len() == alphabet.len(),
        forall|k: int| 0 <= k < row.len() ==> #[trigger] row[k] == (alphabet[k], target),
        forall|a: V, t: usize|
            row@.contains((a, t)) <==> (alphabet@.contains(a) && t == target),
{
    let mut row: Vec<(V, usize)> = Vec::new();
    let mut k: usize = 0;
    while k < alphabet.len()
        invariant
            k <= alphabet.len(),
            row.len() == k,
            forall|j: int| 0 <= j < k ==> #[trigger] row[j] == (alphabet[j], target),
        decreases alphabet.len() - k,
    {
        row.push((alphabet[k], target));
        k += 1;
    }
    proof {
        assert forall|a: V, t: usize| row@.contains((a, t)) <==> (alphabet@.contains(a) && t
            == target) by {
            if row@.contains((a, t)) {
                let j = choose|j: int| 0 <= j < row.len() && row[j] == (a, t);
                assert(alphabet@[j] == a);
            }
            if alphabet@.contains(a) && t == target {
                let j = choose|j: int| 0 <= j < alphabet.len() && alphabet[j] == a;
                assert(row[j] == (a, t));
            }
        }
    }
    row
}

/// `n` flags of which the one at `at` alone is set.
pub fn only_state(n: usize, at: usize) -> (r: Vec<bool>)
    requires
        at < n,
    ensures
        r.len() == n,
        marked(r@) == set![at as int],
{
    let mut r = no_states(n);
    r.set(at, true);
    proof {
        assert(marked(r@) =~= set![at as int]);
    }
    r
}

impl<V: Symbol> NFA<V> {
    /// The automaton without states over `alphabet`. It accepts no word.
    pub fn new_empty(alphabet: Vec<V>) -> (r: NFA<V>)
        ensures
            r.wf(),
            r@ == NfaModel::empty(alphabet@.to_set()),
            forall|w: Seq<V>| !r@.accepts(w),
    {
        let r = NFA {
            alphabet: distinct(&alphabet),
            initials: Vec::new(),
            finals: Vec::new(),
            transitions: Vec::new(),
        };
        proof {
            assert(r@.initials =~= Set::<int>::empty());
            assert(r@.finals =~= Set::<int>::empty());
            assert(r@.edges =~= Set::<(int, V, int)>::empty());
            assert forall|w: Seq<V>| !r@.accepts(w) by {
                lemma_empty_language(alphabet@.to_set(), w);
            }
        }
        r
    }

    /// The automaton over `alphabet` that accepts the empty word and nothing
    /// else: one state, initial and final, without edges.
    pub fn new_empty_word(alphabet: Vec<V>) -> (r: NFA<V>)
        ensures
            r.wf(),
            r@ == NfaModel::empty_word(alphabet@.to_set()),
            forall|w: Seq<V>| r@.accepts(w) <==> w.len() == 0,
    {
        let mut transitions: Vec<Vec<(V, usize)>> = Vec::new();
        transitions.push(Vec::new());
        let r = NFA {
            alphabet: distinct(&alphabet),
            initials: only_state(1, 0),
            finals: only_state(1, 0),
            transitions,
        };
        proof {
            assert(r@.edges =~= Set::<(int, V, int)>::empty());
            assert forall|w: Seq<V>| r@.accepts(w) <==> w.len() == 0 by {
                lemma_empty_word_language(alphabet@.to_set(), w);
            }
        }
        r
    }

    /// The automaton that accepts every word over `alphabet`: one state,
    /// initial and final, with a loop on every symbol.
    pub fn new_full(alphabet: Vec<V>) -> (r: NFA<V>)
        ensures
            r.wf(),
            r@ == NfaModel::full(alphabet@.to_set()),
            forall|w: Seq<V>| r@.accepts(w) <==> word_over(alphabet@.to_set(), w),
    {
        let alphabet_kept = distinct(&alphabet);
        let mut transitions: Vec<Vec<(V, usize)>> = Vec::new();
        transitions.push(fan(&alphabet_kept, 0));
        let r = NFA {
            alphabet: alphabet_kept,
            initials: only_state(1, 0),
            finals: only_state(1, 0),
            transitions,
        };
        proof {
            let goal = NfaModel::full(alphabet@.to_set());
            assert forall|e: (int, V, int)| r@.edges.contains(e) <==> goal.edges.contains(e) by {
                if goal.edges.contains(e) {
                    assert(r.transitions[0]@.contains((e.1, 0usize)));
                }
            }
            assert(r@.edges =~= goal.edges);
            assert forall|w: Seq<V>| r@.accepts(w) <==> word_over(alphabet@.to_set(), w) by {
                lemma_full_language(alphabet@.to_set(), w);
            }
        }
        r
    }

    /// The automaton that accepts the words of length `len` over `alphabet`:
    /// a line of `len + 1` states, each but the last leading to the next on
    /// every symbol.
    pub fn new_length(alphabet: Vec<V>, len: usize) -> (r: NFA<V>)
        ensures
            r.wf(),
            r@ == NfaModel::length(alphabet@.to_set(), len as nat),
            forall|w: Seq<V>|
                r@.accepts(w) <==> (w.len() == len && word_over(alphabet@.to_set(), w)),
    {
        let alphabet_kept = distinct(&alphabet);
        let mut transitions: Vec<Vec<(V, usize)>> = Vec::new();
        let mut initials: Vec<bool> = Vec::new();
        let mut finals: Vec<bool> = Vec::new();
        let mut i: usize = 0;
        while i < len
            invariant
                i <= len,
                transitions.len() == i,
                initials.len() == i,
                finals.len() == i,
                forall|q: int| 0 <= q < i ==> initials[q] == (q == 0),
                forall|q: int| 0 <= q < i ==> !finals[q],
                forall|q: int, a: V, t: usize|
                    0 <= q < i ==> ((#[trigger] transitions[q]@.contains((a, t))) <==> (
                    alphabet_kept@.contains(a) && t == q + 1)),
            decreases len - i,
        {
            transitions.push(fan(&alphabet_kept, i + 1));
            initials.push(i == 0);
            finals.push(false);
            i += 1;
        }
        transitions.push(Vec::new());
        initials.push(len == 0);
        finals.push(true);
        let r = NFA { alphabet: alphabet_kept, initials, finals, transitions };
        proof {
            let goal = NfaModel::length(alphabet@.to_set(), len as nat);
            assert(r@.initials =~= goal.initials);
            assert(r@.finals =~= goal.finals);
            assert forall|e: (int, V, int)| r@.edges.contains(e) <==> goal.edges.contains(e) by {
                if goal.edges.contains(e) {
                    assert(r.transitions[e.0]@.contains((e.1, e.2 as usize)));
                }
                if r@.edges.contains(e) {
                    assert(r.transitions[e.0]@.contains((e.1, e.2 as usize)));
                    if e.0 == len {
                        let k = choose|k: int|
                            0 <= k < r.transitions[e.0]@.len() && r.transitions[e.0]@[k] == (
                                e.1,
                                e.2 as usize,
                            );
                    }
                }
            }
            assert(r@.edges =~= goal.edges);
            assert forall|q: int, k: int|
                0 <= q < r.transitions.len() && 0 <= k < r.transitions[q].len() implies (
            #[trigger] r.transitions[q][k]).1 < r.transitions.len() && r.alphabet@.contains(
                r.transitions[q][k].0,
            ) by {
                let e = r.transitions[q][k];
                assert(r.transitions[q]@.contains((e.0, e.1)));
            }
            assert forall|w: Seq<V>|
                r@.accepts(w) <==> (w.len() == len && word_over(alphabet@.to_set(), w)) by {
                lemma_length_language(alphabet@.to_set(), len as nat, w);
            }
        }
        r
    }

    /// The automaton over `alphabet` that accepts `word` and nothing else: a
    /// line of `word.len() + 1` states, state `i` leading to the next on
    /// `word[i]`.
    pub fn new_matching(alphabet: Vec<V>, word: &[V]) -> (r: NFA<V>)
        requires
            word_over(alphabet@.to_set(), word@),
        ensures
            r.wf(),
            r@ == NfaModel::matching(alphabet@.to_set(), word@),
            forall|w: Seq<V>| r@.accepts(w) <==> w == word@,
    {
        let alphabet_kept = distinct(&alphabet);
        let len = word.len();
        let mut transitions: Vec<Vec<(V, usize)>> = Vec::new();
        let mut initials: Vec<bool> = Vec::new();
        let mut finals: Vec<bool> = Vec::new();
        let mut i: usize = 0;
        while i < len
            invariant
                i <= len,
                len == word.len(),
                transitions.len() == i,
                initials.len() == i,
                finals.len() == i,
                forall|q: int| 0 <= q < i ==> initials[q] == (q == 0),
                forall|q: int| 0 <= q < i ==> !finals[q],
                forall|q: int|
                    0 <= q < i ==> (#[trigger] transitions[q])@ == seq![(word@[q], (q + 1) as usize)],
            decreases len - i,
        {
            let mut row: Vec<(V, usize)> = Vec::new();
            row.push((word[i], i + 1));
            proof {
                assert(row@ =~= seq![(word@[i as int], (i + 1) as usize)]);
            }
            transitions.push(row);
            initials.push(i == 0);
            finals.push(false);
            i += 1;
        }
        transitions.push(Vec::new());
        initials.push(len == 0);
        finals.push(true);
        let r = NFA { alphabet: alphabet_kept, initials, finals, transitions };
        proof {
            let goal = NfaModel::matching(alphabet@.to_set(), word@);
            assert(r@.initials =~= goal.initials);
            assert(r@.finals =~= goal.finals);
            assert forall|e: (int, V, int)| r@.edges.contains(e) <==> goal.edges.contains(e) by {
                if goal.edges.contains(e) {
                    assert(r.transitions[e.0]@[0] == (e.1, e.2 as usize));
                }
                if r@.edges.contains(e) {
                    let k = choose|k: int|
                        0 <= k < r.transitions[e.0]@.len() && r.transitions[e.0]@[k] == (
                            e.1,
                            e.2 as usize,
                        );
                    if e.0 < len {
                        assert(r.transitions[e.0]@ == seq![(word@[e.0], (e.0 + 1) as usize)]);
                    }
                }
            }
            assert(r@.edges =~= goal.edges);
            assert forall|q: int, k: int|
                0 <= q < r.transitions.len() && 0 <= k < r.transitions[q].len() implies (
            #[trigger] r.transitions[q][k]).1 < r.transitions.len() && r.alphabet@.contains(
                r.transitions[q][k].0,
            ) by {
                assert(r.transitions[q]@ == seq![(word@[q], (q + 1) as usize)]);
                assert(alphabet@.to_set().contains(word@[q]));
            }
            assert forall|w: Seq<V>| r@.accepts(w) <==> w == word@ by {
                lemma_matching_language(alphabet@.to_set(), word@, w);
            }
        }
        r
    }
}

} // verus!
