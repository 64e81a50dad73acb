//! Nondeterministic finite automata.
use crate::model::NfaModel;
use crate::sets::marked;
use crate::symbol::Symbol;
use vstd::prelude::*;

pub mod basic;
pub mod boolean;
pub mod closure;
pub mod determinize;
pub mod dot;
pub mod order;
pub mod parts;
pub mod repeat;
pub mod raw;
pub mod run;
pub mod search;
pub mod to_regex;
pub mod trim;

verus! {

/// A nondeterministic finite automaton without empty moves.
///
/// The states are the indices of `transitions`. `initials` and `finals` hold
/// one flag per state, and `transitions[q]` lists the edges that leave `q`,
/// each as its symbol and its target.
#[derive(Debug, Clone)]
pub struct NFA<V: Symbol> {
    pub(crate) alphabet: Vec<V>,
    pub(crate) initials: Vec<bool>,
    pub(crate) finals: Vec<bool>,
    pub(crate) transitions: Vec<Vec<(V, usize)>>,
}

/// The edges that the lists of `t` hold, as a relation.
pub open spec fn edges_of<V>(t: Seq<Vec<(V, usize)>>) -> Set<(int, V, int)> {
    Set::new(
        |e: (int, V, int)|
            0 <= e.0 < t.len() && 0 <= e.2 <= usize::MAX && t[e.0]@.contains((e.1, e.2 as usize)),
    )
}

impl<V: Symbol> View for NFA<V> {
    type V = NfaModel<V>;

    open(crate) spec fn view(&self) -> NfaModel<V> {
        NfaModel {
            alphabet: self.alphabet@.to_set(),
            size: self.transitions.len() as nat,
            initials: marked(self.initials@),
            finals: marked(self.finals@),
            edges: edges_of(self.transitions@),
        }
    }
}

impl<V: Symbol> NFA<V> {
    /// The invariant of the representation: no symbol is listed twice in
    /// the alphabet, there is one flag of each kind per state, and every edge
    /// is labelled by a symbol of the alphabet and leads to a state.
    pub open(crate) spec fn wf(&self) -> bool {
        &&& self.alphabet@.no_duplicates()
        &&& self.initials.len() == self.transitions.len()
        &&& self.finals.len() == self.transitions.len()
        &&& forall|q: int, k: int|
            0 <= q < self.transitions.len() && 0 <= k < self.transitions[q].len() ==> {
                &&& (#[trigger] self.transitions[q][k]).1 < self.transitions.len()
                &&& self.alphabet@.contains(self.transitions[q][k].0)
            }
    }

    /// The symbols of the alphabet, in the order in which the automaton holds
    /// them.
    pub open(crate) spec fn letters(&self) -> Seq<V> {
        self.alphabet@
    }

    /// A well-formed automaton has a well-formed model.
    pub proof fn lemma_model_wf(&self)
        requires
            self.wf(),
        ensures
            self@.wf(),
    {
        assert forall|q: int, a: V, t: int| #[trigger] self@.edges.contains((q, a, t)) implies 0
            <= q < self@.size && 0 <= t < self@.size && self@.alphabet.contains(a) by {
            let k = choose|k: int|
                0 <= k < self.transitions[q].len() && self.transitions[q][k] == (a, t as usize);
            assert(self.transitions[q][k].1 < self.transitions.len());
        }
    }
}

} // verus!
