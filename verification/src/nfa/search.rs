//! Searching an automaton from a set of states, and the predicates that rest
//! on the search.
use crate::model::{lemma_closed_is_reach, lemma_empty_by_reach, lemma_links_push, lemma_links_self};
use crate::nfa::NFA;
use crate::sets::{
    all_marked, any_marked, count, lemma_count_bound, lemma_count_set, marked, overlap, within,
};
use crate::symbol::Symbol;
use vstd::prelude::*;

verus! {

/// Whether `row` holds an edge labelled `a`.
pub fn leaves_on<V: Symbol>(row: &Vec<(V, usize)>, a: V) -> (r: bool)
    ensures
        r == crate::nfa::closure::leaves(row@, a),
{
    let mut k: usize = 0;
    while k < row.len()
        invariant
            k <= row.len(),
            forall|j: int| 0 <= j < k ==> (#[trigger] row[j]).0 != a,
        decreases row.len() - k,
    {
        if row[k].0.same(&a) {
            return true;
        }
        k += 1;
    }
    false
}

impl<V: Symbol> NFA<V> {
    /// The states that a walk from a state flagged in `start` ends in.
    pub fn reach(&self, start: &Vec<bool>) -> (seen: Vec<bool>)
        requires
            self.wf(),
            start.len() == self@.size,
        ensures
            seen.len() == self@.size,
            marked(seen@) == self@.reach_from(marked(start@)),
    {
        let n = self.transitions.len();
        let mut seen: Vec<bool> = Vec::new();
        let mut order: Vec<usize> = Vec::new();
        let mut q: usize = 0;
        while q < n
            invariant
                q <= n,
                n == start.len(),
                seen.len() == q,
                seen@ == start@.take(q as int),
                order.len() == count(seen@),
                forall|j: int| 0 <= j < order.len() ==> #[trigger] order[j] < q && seen[order[j] as int],
                forall|s: int| 0 <= s < q && seen[s] ==> exists|j: int|
                    0 <= j < order.len() && #[trigger] order[j] == s,
            decreases n - q,
        {
            let ghost before = order@;
            seen.push(start[q]);
            if start[q] {
                order.push(q);
            }
            proof {
                assert(seen@.drop_last() =~= start@.take(q as int));
                assert(seen@ =~= start@.take(q as int + 1));
                assert forall|s: int| 0 <= s < q + 1 && seen[s] implies exists|j: int|
                    0 <= j < order.len() && #[trigger] order[j] == s by {
                    if s < q {
                        let j = choose|j: int| 0 <= j < before.len() && #[trigger] before[j] == s;
                        assert(order[j] == s);
                    } else {
                        assert(order[order.len() - 1] == s);
                    }
                }
            }
            q += 1;
        }
        proof {
            assert(start@.take(n as int) =~= start@);
            assert forall|s: int| marked(seen@).contains(s) implies self@.reach_from(
                marked(start@),
            ).contains(s) by {
                lemma_links_self(self@, s);
            }
        }
        let mut head: usize = 0;
        while head < order.len()
            invariant
                self.wf(),
                n == self.transitions.len(),
                seen.len() == n,
                start.len() == n,
                head <= order.len(),
                order.len() == count(seen@),
                marked(start@).subset_of(marked(seen@)),
                marked(seen@).subset_of(self@.reach_from(marked(start@))),
                forall|j: int| 0 <= j < order.len() ==> #[trigger] order[j] < n && seen[order[j] as int],
                forall|s: int| 0 <= s < n && seen[s] ==> exists|j: int|
                    0 <= j < order.len() && #[trigger] order[j] == s,
                forall|j: int, k: int|
                    0 <= j < head && 0 <= k < self.transitions[order[j] as int].len() ==> seen[(
                    #[trigger] self.transitions[order[j] as int][k]).1 as int],
            decreases n - head,
        {
            proof {
                lemma_count_bound(seen@);
            }
            let from = order[head];
            let row = &self.transitions[from];
            let mut k: usize = 0;
            while k < row.len()
                invariant
                    self.wf(),
                    n == self.transitions.len(),
                    seen.len() == n,
                    start.len() == n,
                    head < order.len(),
                    from == order[head as int],
                    from < n,
                    row == self.transitions[from as int],
                    k <= row.len(),
                    order.len() == count(seen@),
                    marked(start@).subset_of(marked(seen@)),
                    marked(seen@).subset_of(self@.reach_from(marked(start@))),
                    forall|j: int|
                        0 <= j < order.len() ==> #[trigger] order[j] < n && seen[order[j] as int],
                    forall|s: int| 0 <= s < n && seen[s] ==> exists|j: int|
                        0 <= j < order.len() && #[trigger] order[j] == s,
                    forall|j: int, k: int|
                        0 <= j < head && 0 <= k < self.transitions[order[j] as int].len()
                            ==> seen[(#[trigger] self.transitions[order[j] as int][k]).1 as int],
                    forall|j: int| 0 <= j < k ==> seen[(#[trigger] row[j]).1 as int],
                decreases row.len() - k,
            {
                let e = row[k];
                let t = e.1;
                if !seen[t] {
                    let ghost seen_before = seen@;
                    let ghost order_before = order@;
                    proof {
                        lemma_count_set(seen@, t as int);
                        self.lemma_edge_reaches(marked(start@), from as int, k as int);
                    }
                    seen.set(t, true);
                    order.push(t);
                    proof {
                        assert forall|s: int| 0 <= s < n && seen[s] implies exists|j: int|
                            0 <= j < order.len() && #[trigger] order[j] == s by {
                            if s == t {
                                assert(order[order.len() - 1] == s);
                            } else {
                                let j = choose|j: int|
                                    0 <= j < order_before.len() && #[trigger] order_before[j] == s;
                                assert(order[j] == s);
                            }
                        }
                        assert forall|j: int| 0 <= j < order.len() implies #[trigger] order[j] < n
                            && seen[order[j] as int] by {
                            if j < order_before.len() {
                                assert(order_before[j] < n && seen_before[order_before[j] as int]);
                            }
                        }
                        assert forall|s: int| marked(seen@).contains(s) implies self@.reach_from(
                            marked(start@),
                        ).contains(s) by {
                            if s != t {
                                assert(marked(seen_before).contains(s));
                            }
                        }
                        assert forall|s: int| marked(start@).contains(s) implies marked(
                            seen@,
                        ).contains(s) by {
                            assert(marked(seen_before).contains(s));
                        }
                    }
                }
                k += 1;
            }
            head += 1;
        }
        proof {
            let closed = marked(seen@);
            assert forall|s: int, a: V, t: int|
                closed.contains(s) && #[trigger] self@.edges.contains((s, a, t)) implies closed.contains(
                t,
            ) by {
                let j = choose|j: int| 0 <= j < order.len() && #[trigger] order[j] == s;
                let k = choose|k: int|
                    0 <= k < self.transitions[s].len() && self.transitions[s][k] == (
                        a,
                        t as usize,
                    );
                assert(seen[self.transitions[order[j] as int][k].1 as int]);
            }
            lemma_closed_is_reach(self@, marked(start@), closed);
        }
        seen
    }

    /// The target of an edge that leaves a reached state is reached.
    pub(crate) proof fn lemma_edge_reaches(&self, s: Set<int>, from: int, k: int)
        requires
            self.wf(),
            self@.reach_from(s).contains(from),
            0 <= from < self.transitions.len(),
            0 <= k < self.transitions[from].len(),
        ensures
            self@.reach_from(s).contains(self.transitions[from][k].1 as int),
    {
        let e = self.transitions[from][k];
        let (q, w) = choose|q: int, w: Seq<V>| s.contains(q) && #[trigger] self@.links(q, w, from);
        assert(self.transitions[from]@.contains((e.0, e.1)));
        assert(self@.edges.contains((from, e.0, e.1 as int)));
        lemma_links_push(self@, q, w, from, e.0, e.1 as int);
    }

    /// Whether every state is reached by a walk from an initial state.
    pub fn is_reachable(&self) -> (r: bool)
        requires
            self.wf(),
        ensures
            r == self@.is_reachable(),
    {
        let seen = self.reach(&self.initials);
        let r = all_marked(&seen);
        proof {
            if r {
                assert forall|q: int| 0 <= q < self@.size implies self@.reachable().contains(q) by {
                    assert(marked(seen@).contains(q));
                }
            }
            if self@.is_reachable() {
                assert forall|q: int| 0 <= q < seen.len() implies seen[q] by {
                    assert(self@.reachable().contains(q));
                    assert(marked(seen@).contains(q));
                }
            }
        }
        r
    }

    /// Whether the automaton accepts no word: whether no walk from an initial
    /// state ends in a final state.
    pub fn is_empty(&self) -> (r: bool)
        requires
            self.wf(),
        ensures
            r == self@.is_empty(),
    {
        let seen = self.reach(&self.initials);
        let r = !overlap(&seen, &self.finals);
        proof {
            lemma_empty_by_reach(self@);
            if !r {
                let q = choose|q: int|
                    marked(seen@).contains(q) && marked(self.finals@).contains(q);
                assert(self@.reachable().contains(q) && self@.finals.contains(q));
            } else {
                assert forall|t: int| self@.reachable().contains(t) implies !self@.finals.contains(
                    t,
                ) by {
                    assert(marked(seen@).contains(t));
                }
            }
        }
        r
    }

    /// Whether some initial state is final and every state that a walk from
    /// an initial state ends in is final.
    ///
    /// Of a complete automaton this says that it accepts every word over its
    /// alphabet; of others it says less.
    pub fn is_full(&self) -> (r: bool)
        requires
            self.wf(),
        ensures
            r == self@.is_full(),
            r && self@.is_complete() ==> forall|w: Seq<V>|
                crate::language::word_over(self@.alphabet, w) ==> self@.accepts(w),
    {
        proof {
            self.lemma_model_wf();
            if self@.is_full() && self@.is_complete() {
                assert forall|w: Seq<V>|
                    crate::language::word_over(self@.alphabet, w) implies self@.accepts(w) by {
                    crate::laws::complete::lemma_full_accepts_all(self@, w);
                }
            }
        }
        if !overlap(&self.initials, &self.finals) {
            return false;
        }
        let seen = self.reach(&self.initials);
        let r = within(&seen, &self.finals);
        proof {
            let q = choose|q: int|
                marked(self.initials@).contains(q) && marked(self.finals@).contains(q);
            assert(self@.initials.contains(q) && self@.finals.contains(q));
        }
        r
    }

    /// Whether the automaton has an initial state and every state has a
    /// successor on every symbol of the alphabet.
    pub fn is_complete(&self) -> (r: bool)
        requires
            self.wf(),
        ensures
            r == self@.is_complete(),
    {
        if !any_marked(&self.initials) {
            return false;
        }
        let n = self.transitions.len();
        let mut q: usize = 0;
        while q < n
            invariant
                self.wf(),
                n == self.transitions.len(),
                q <= n,
                forall|s: int, a: V|
                    0 <= s < q && self@.alphabet.contains(a) ==> #[trigger] self@.has_successor(s, a),
            decreases n - q,
        {
            let mut i: usize = 0;
            while i < self.alphabet.len()
                invariant
                    self.wf(),
                    n == self.transitions.len(),
                    q < n,
                    i <= self.alphabet.len(),
                    forall|j: int|
                        0 <= j < i ==> self@.has_successor(q as int, #[trigger] self.alphabet[j]),
                decreases self.alphabet.len() - i,
            {
                let a = self.alphabet[i];
                if !leaves_on(&self.transitions[q], a) {
                    proof {
                        assert(self@.alphabet.contains(a));
                        if self@.has_successor(q as int, a) {
                            let t = choose|t: int| #[trigger] self@.edges.contains((q as int, a, t));
                            let k = choose|k: int|
                                0 <= k < self.transitions[q as int].len()
                                    && self.transitions[q as int][k] == (a, t as usize);
                            assert(self.transitions[q as int][k].0 == a);
                        }
                    }
                    return false;
                }
                proof {
                    let k = choose|k: int|
                        0 <= k < self.transitions[q as int].len() && (
                        #[trigger] self.transitions[q as int][k]).0 == a;
                    let e = self.transitions[q as int][k];
                    assert(self.transitions[q as int]@.contains((a, e.1)));
                    assert(self@.edges.contains((q as int, a, e.1 as int)));
                }
                i += 1;
            }
            proof {
                assert forall|a: V| self@.alphabet.contains(a) implies self@.has_successor(
                    q as int,
                    a,
                ) by {
                    let j = choose|j: int| 0 <= j < self.alphabet.len() && self.alphabet[j] == a;
                    assert(self@.has_successor(q as int, self.alphabet[j]));
                }
            }
            q += 1;
        }
        proof {
            let q0 = choose|q0: int| marked(self.initials@).contains(q0);
            assert(self@.initials.contains(q0));
        }
        true
    }
}

} // verus!
