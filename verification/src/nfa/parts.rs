//! Reading the parts of an automaton.
use crate::dfa::run::target_on;
use crate::dfa::DFA;
use crate::nfa::NFA;
use crate::sets::{copy_symbols, lemma_push_contains, marked};
use crate::symbol::Symbol;
use vstd::prelude::*;

verus! {

/// The states whose flag is set, in rising order.
pub fn flagged(flags: &Vec<bool>) -> (r: Vec<usize>)
    ensures
        forall|q: usize| r@.contains(q) <==> marked(flags@).contains(q as int),
        forall|i: int, j: int| 0 <= i < j < r.len() ==> r[i] < r[j],
{
    let mut r: Vec<usize> = Vec::new();
    let mut q: usize = 0;
    while q < flags.len()
        invariant
            q <= flags.len(),
            forall|s: usize| r@.contains(s) <==> (s < q && flags[s as int]),
            forall|i: int| 0 <= i < r.len() ==> r[i] < q,
            forall|i: int, j: int| 0 <= i < j < r.len() ==> r[i] < r[j],
        decreases flags.len() - q,
    {
        let ghost before = r@;
        if flags[q] {
            r.push(q);
        }
        proof {
            assert forall|s: usize| r@.contains(s) <==> (s < q + 1 && flags[s as int]) by {
                lemma_push_contains(before, q, s);
            }
        }
        q += 1;
    }
    r
}

/// The targets of the edges of `row` that are labelled `a`, in their order.
pub fn targets_on<V: Symbol>(row: &Vec<(V, usize)>, a: V) -> (r: Vec<usize>)
    ensures
        forall|t: usize| r@.contains(t) <==> row@.contains((a, t)),
{
    let mut r: Vec<usize> = Vec::new();
    let mut k: usize = 0;
    while k < row.len()
        invariant
            k <= row.len(),
            forall|t: usize| r@.contains(t) <==> row@.take(k as int).contains((a, t)),
        decreases row.len() - k,
    {
        let ghost before = r@;
        let e = row[k];
        if e.0.same(&a) {
            r.push(e.1);
        }
        proof {
            assert(row@.take(k as int + 1) =~= row@.take(k as int).push(e));
            assert forall|t: usize| r@.contains(t) <==> row@.take(k as int + 1).contains(
                (a, t),
            ) by {
                lemma_push_contains(before, e.1, t);
                lemma_push_contains(row@.take(k as int), e, (a, t));
            }
        }
        k += 1;
    }
    proof {
        assert(row@.take(row.len() as int) =~= row@);
    }
    r
}

impl<V: Symbol> NFA<V> {
    /// The number of states.
    pub fn size(&self) -> (r: usize)
        ensures
            r == self@.size,
    {
        self.transitions.len()
    }

    /// The symbols of the alphabet, each once, in the order in which the
    /// automaton holds them.
    pub fn alphabet(&self) -> (r: Vec<V>)
        ensures
            r@ == self.letters(),
            r@.to_set() == self@.alphabet,
            self.wf() ==> r@.no_duplicates(),
    {
        copy_symbols(&self.alphabet)
    }

    /// The initial states, in rising order.
    pub fn initials(&self) -> (r: Vec<usize>)
        ensures
            forall|q: usize| r@.contains(q) <==> self@.initials.contains(q as int),
            forall|i: int, j: int| 0 <= i < j < r.len() ==> r[i] < r[j],
    {
        flagged(&self.initials)
    }

    /// The final states, in rising order.
    pub fn finals(&self) -> (r: Vec<usize>)
        ensures
            forall|q: usize| r@.contains(q) <==> self@.finals.contains(q as int),
            forall|i: int, j: int| 0 <= i < j < r.len() ==> r[i] < r[j],
    {
        flagged(&self.finals)
    }

    /// The successors of the state `q` on the symbol `a`; none where `q` is
    /// no state.
    pub fn successors(&self, q: usize, a: V) -> (r: Vec<usize>)
        ensures
            forall|t: usize| r@.contains(t) <==> self@.edges.contains((q as int, a, t as int)),
    {
        if q < self.transitions.len() {
            targets_on(&self.transitions[q], a)
        } else {
            Vec::new()
        }
    }
}

impl<V: Symbol> DFA<V> {
    /// The number of states.
    pub fn size(&self) -> (r: usize)
        ensures
            r == self@.size,
    {
        self.transitions.len()
    }

    /// The symbols of the alphabet, each once.
    pub fn alphabet(&self) -> (r: Vec<V>)
        ensures
            r@.to_set() == self@.alphabet,
            self.wf() ==> r@.no_duplicates(),
    {
        copy_symbols(&self.alphabet)
    }

    /// The initial state.
    pub fn initial(&self) -> (r: usize)
        ensures
            r == self@.initial,
    {
        self.initial
    }

    /// The final states, in rising order.
    pub fn finals(&self) -> (r: Vec<usize>)
        ensures
            forall|q: usize| r@.contains(q) <==> self@.finals.contains(q as int),
            forall|i: int, j: int| 0 <= i < j < r.len() ==> r[i] < r[j],
    {
        flagged(&self.finals)
    }

    /// The successor of the state `q` on the symbol `a`, where there is one.
    pub fn successor(&self, q: usize, a: V) -> (r: Option<usize>)
        requires
            self.wf(),
        ensures
            match r {
                Some(t) => self@.edges.contains((q as int, a, t as int)),
                None => forall|t: int| !self@.edges.contains((q as int, a, t)),
            },
    {
        if q < self.transitions.len() {
            let r = target_on(&self.transitions[q], a);
            proof {
                if r is None {
                    assert forall|t: int| !self@.edges.contains((q as int, a, t)) by {
                        if self@.edges.contains((q as int, a, t)) {
                            let k = choose|k: int|
                                0 <= k < self.transitions[q as int]@.len()
                                    && self.transitions[q as int]@[k] == (a, t as usize);
                            assert(self.transitions[q as int]@[k].0 == a);
                        }
                    }
                }
            }
            r
        } else {
            None
        }
    }
}

impl<V: Symbol> crate::regex::Regex<V> {
    /// The symbols of the alphabet, each once.
    pub fn alphabet(&self) -> (r: Vec<V>)
        ensures
            r@.to_set() == self@.alphabet,
            r@ == self.letters(),
    {
        copy_symbols(&self.alphabet)
    }
}

} // verus!
