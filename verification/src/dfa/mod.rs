//! Deterministic finite automata.
use crate::model::DfaModel;
use crate::nfa::closure::push_edges;
use crate::nfa::{edges_of, NFA};
use crate::sets::{copy_flags, copy_symbols, distinct, marked, no_states};
use crate::symbol::Symbol;
use vstd::prelude::*;

pub mod ops;
pub mod order;
pub mod raw;
pub mod run;

verus! {

/// A deterministic finite automaton.
///
/// The states are the indices of `transitions`. `finals` holds one flag per
/// state, and `transitions[q]` lists the edges that leave `q`, each as its
/// symbol and its target; no two edges of a state with one symbol differ.
#[derive(Debug, Clone)]
pub struct DFA<V: Symbol> {
    pub(crate) alphabet: Vec<V>,
    pub(crate) initial: usize,
    pub(crate) finals: Vec<bool>,
    pub(crate) transitions: Vec<Vec<(V, usize)>>,
}

impl<V: Symbol> View for DFA<V> {
    type V = DfaModel<V>;

    open(crate) spec fn view(&self) -> DfaModel<V> {
        DfaModel {
            alphabet: self.alphabet@.to_set(),
            size: self.transitions.len() as nat,
            initial: self.initial as int,
            finals: marked(self.finals@),
            edges: edges_of(self.transitions@),
        }
    }
}

impl<V: Symbol> DFA<V> {
    /// The invariant of the representation: no symbol is listed twice in
    /// the alphabet, there is one flag per state, the initial state is a
    /// state, every edge is labelled by a symbol of the alphabet and leads to a
    /// state, and two edges of a state with one symbol have one target.
    pub open(crate) spec fn wf(&self) -> bool {
        &&& self.alphabet@.no_duplicates()
        &&& self.finals.len() == self.transitions.len()
        &&& self.initial < self.transitions.len()
        &&& forall|q: int, k: int|
            0 <= q < self.transitions.len() && 0 <= k < self.transitions[q].len() ==> {
                &&& (#[trigger] self.transitions[q][k]).1 < self.transitions.len()
                &&& self.alphabet@.contains(self.transitions[q][k].0)
            }
        &&& forall|q: int, j: int, k: int|
            0 <= q < self.transitions.len() && 0 <= j < self.transitions[q].len() && 0 <= k
                < self.transitions[q].len() && (#[trigger] self.transitions[q][j]).0 == (
            #[trigger] self.transitions[q][k]).0 ==> self.transitions[q][j].1
                == self.transitions[q][k].1
    }

    /// A well-formed automaton has a well-formed model.
    pub proof fn lemma_model_wf(&self)
        requires
            self.wf(),
        ensures
            self@.wf(),
    {
        let m = self@.to_nfa();
        assert forall|q: int, a: V, t: int| #[trigger] m.edges.contains((q, a, t)) implies 0 <= q
            < m.size && 0 <= t < m.size && m.alphabet.contains(a) by {
            let k = choose|k: int|
                0 <= k < self.transitions[q].len() && self.transitions[q][k] == (a, t as usize);
            assert(self.transitions[q][k].1 < self.transitions.len());
        }
        assert forall|q: int, a: V, t1: int, t2: int|
            #[trigger] self@.edges.contains((q, a, t1)) && #[trigger] self@.edges.contains(
                (q, a, t2),
            ) implies t1 == t2 by {
            let k1 = choose|k: int|
                0 <= k < self.transitions[q].len() && self.transitions[q][k] == (a, t1 as usize);
            let k2 = choose|k: int|
                0 <= k < self.transitions[q].len() && self.transitions[q][k] == (a, t2 as usize);
            assert(self.transitions[q][k1].0 == self.transitions[q][k2].0);
        }
    }

    /// The representation is well formed once its model is.
    pub(crate) proof fn lemma_wf_by_model(&self)
        requires
            self@.wf(),
            self.alphabet@.no_duplicates(),
            self.finals.len() == self.transitions.len(),
        ensures
            self.wf(),
    {
        let m = self@.to_nfa();
        assert(m.initials.contains(self.initial as int));
        assert forall|q: int, k: int|
            0 <= q < self.transitions.len() && 0 <= k < self.transitions[q].len() implies (
        #[trigger] self.transitions[q][k]).1 < self.transitions.len() && self.alphabet@.contains(
            self.transitions[q][k].0,
        ) by {
            let e = self.transitions[q][k];
            assert(self.transitions[q]@.contains((e.0, e.1)));
            assert(m.edges.contains((q, e.0, e.1 as int)));
        }
        assert forall|q: int, j: int, k: int|
            0 <= q < self.transitions.len() && 0 <= j < self.transitions[q].len() && 0 <= k
                < self.transitions[q].len() && (#[trigger] self.transitions[q][j]).0 == (
            #[trigger] self.transitions[q][k]).0 implies self.transitions[q][j].1
            == self.transitions[q][k].1 by {
            let e1 = self.transitions[q][j];
            let e2 = self.transitions[q][k];
            assert(self.transitions[q]@.contains((e1.0, e1.1)));
            assert(self.transitions[q]@.contains((e2.0, e2.1)));
            assert(self@.edges.contains((q, e1.0, e1.1 as int)));
            assert(self@.edges.contains((q, e2.0, e2.1 as int)));
        }
    }

    /// The automaton with one state, not final, and no edge. It accepts no
    /// word.
    pub fn new_empty(alphabet: &Vec<V>) -> (r: DFA<V>)
        ensures
            r.wf(),
            r@ == DfaModel::empty(alphabet@.to_set()),
    {
        let mut transitions: Vec<Vec<(V, usize)>> = Vec::new();
        transitions.push(Vec::new());
        let r = DFA {
            alphabet: distinct(alphabet),
            initial: 0,
            finals: no_states(1),
            transitions,
        };
        proof {
            assert(r@.edges =~= Set::<(int, V, int)>::empty());
        }
        r
    }

    /// The same automaton as a nondeterministic one.
    pub fn to_nfa(&self) -> (r: NFA<V>)
        requires
            self.wf(),
        ensures
            r.wf(),
            r@ == self@.to_nfa(),
    {
        let n = self.transitions.len();
        let mut transitions: Vec<Vec<(V, usize)>> = Vec::new();
        let mut q: usize = 0;
        while q < n
            invariant
                self.wf(),
                n == self.transitions.len(),
                q <= n,
                transitions.len() == q,
                forall|s: int, a: V, t: usize|
                    0 <= s < q ==> ((#[trigger] transitions[s]@.contains((a, t)))
                        <==> self.transitions[s]@.contains((a, t))),
            decreases n - q,
        {
            let mut row: Vec<(V, usize)> = Vec::new();
            push_edges(&mut row, &self.transitions[q], 0);
            transitions.push(row);
            q += 1;
        }
        let mut initials = no_states(n);
        initials.set(self.initial, true);
        let r = NFA {
            alphabet: copy_symbols(&self.alphabet),
            initials,
            finals: copy_flags(&self.finals),
            transitions,
        };
        proof {
            assert(r@.initials =~= set![self.initial as int]);
            assert(r@.edges =~= self@.edges);
            assert forall|s: int, x: V, t: usize|
                0 <= s < n && #[trigger] r.transitions[s]@.contains((x, t)) implies t < n
                && r.alphabet@.contains(x) by {
                let k = choose|k: int|
                    0 <= k < self.transitions[s].len() && self.transitions[s][k] == (x, t);
                assert(self.transitions[s][k].1 < n);
            }
            r.lemma_wf_by_rows(n as int);
        }
        r
    }

    /// A copy of the automaton.
    pub fn copy(&self) -> (r: DFA<V>)
        requires
            self.wf(),
        ensures
            r.wf(),
            r@ == self@,
    {
        let n = self.transitions.len();
        let mut transitions: Vec<Vec<(V, usize)>> = Vec::new();
        let mut q: usize = 0;
        while q < n
            invariant
                self.wf(),
                n == self.transitions.len(),
                q <= n,
                transitions.len() == q,
                forall|s: int, a: V, t: usize|
                    0 <= s < q ==> ((#[trigger] transitions[s]@.contains((a, t)))
                        <==> self.transitions[s]@.contains((a, t))),
            decreases n - q,
        {
            let mut row: Vec<(V, usize)> = Vec::new();
            push_edges(&mut row, &self.transitions[q], 0);
            transitions.push(row);
            q += 1;
        }
        let r = DFA {
            alphabet: copy_symbols(&self.alphabet),
            initial: self.initial,
            finals: copy_flags(&self.finals),
            transitions,
        };
        proof {
            assert(r@.edges =~= self@.edges);
            r.lemma_wf_by_rows(self);
        }
        r
    }

    /// The representation is well formed once its rows hold the edges of a
    /// well-formed automaton of the same size and alphabet.
    pub(crate) proof fn lemma_wf_by_rows(&self, like: &DFA<V>)
        requires
            like.wf(),
            self.alphabet@.no_duplicates(),
            self.alphabet@.to_set() == like.alphabet@.to_set(),
            self.transitions.len() == like.transitions.len(),
            self.finals.len() == self.transitions.len(),
            self.initial < self.transitions.len(),
            forall|q: int, a: V, t: usize|
                0 <= q < self.transitions.len() ==> ((#[trigger] self.transitions[q]@.contains(
                    (a, t),
                )) <==> like.transitions[q]@.contains((a, t))),
        ensures
            self.wf(),
    {
        assert forall|q: int, k: int|
            0 <= q < self.transitions.len() && 0 <= k < self.transitions[q].len() implies (
        #[trigger] self.transitions[q][k]).1 < self.transitions.len() && self.alphabet@.contains(
            self.transitions[q][k].0,
        ) by {
            let e = self.transitions[q][k];
            assert(self.transitions[q]@.contains((e.0, e.1)));
            let j = choose|j: int|
                0 <= j < like.transitions[q].len() && like.transitions[q][j] == (e.0, e.1);
            assert(like.transitions[q][j].1 < like.transitions.len());
            assert(like.alphabet@.to_set().contains(e.0));
            assert(self.alphabet@.to_set().contains(e.0));
        }
        assert forall|q: int, j: int, k: int|
            0 <= q < self.transitions.len() && 0 <= j < self.transitions[q].len() && 0 <= k
                < self.transitions[q].len() && (#[trigger] self.transitions[q][j]).0 == (
            #[trigger] self.transitions[q][k]).0 implies self.transitions[q][j].1
            == self.transitions[q][k].1 by {
            let e1 = self.transitions[q][j];
            let e2 = self.transitions[q][k];
            assert(self.transitions[q]@.contains((e1.0, e1.1)));
            assert(self.transitions[q]@.contains((e2.0, e2.1)));
            let j1 = choose|i: int|
                0 <= i < like.transitions[q].len() && like.transitions[q][i] == (e1.0, e1.1);
            let j2 = choose|i: int|
                0 <= i < like.transitions[q].len() && like.transitions[q][i] == (e2.0, e2.1);
            assert(like.transitions[q][j1].0 == like.transitions[q][j2].0);
        }
    }
}

} // verus!
