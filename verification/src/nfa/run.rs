//! Reading a word: the set of states an automaton may be in.
use crate::model::{lemma_accepts_by_after, NfaModel};
use crate::nfa::NFA;
use crate::sets::{any_marked, copy_flags, marked, no_states, overlap};
use crate::symbol::Symbol;
use vstd::prelude::*;

verus! {

/// Some edge labelled `a` leads to `t` from a state flagged in `cur`, and it
/// is met before place `k_end` of state `q_end` when the states and their
/// edge lists are walked in order.
pub open spec fn met<V>(
    trans: Seq<Vec<(V, usize)>>,
    cur: Seq<bool>,
    a: V,
    t: int,
    q_end: int,
    k_end: int,
) -> bool {
    exists|q: int, k: int|
        0 <= q < trans.len() && cur[q] && 0 <= k < trans[q].len() && #[trigger] trans[q][k] == (
            a,
            t as usize,
        ) && (q < q_end || (q == q_end && k < k_end))
}

impl<V: Symbol> NFA<V> {
    /// The states reached from the states flagged in `cur` by one edge
    /// labelled `a`.
    pub fn advance(&self, cur: &Vec<bool>, a: V) -> (next: Vec<bool>)
        requires
            self.wf(),
            cur.len() == self@.size,
        ensures
            next.len() == self@.size,
            marked(next@) == self@.step(marked(cur@), a),
    {
        let n = self.transitions.len();
        let mut next = no_states(n);
        let mut q: usize = 0;
        while q < n
            invariant
                self.wf(),
                n == self.transitions.len(),
                cur.len() == n,
                next.len() == n,
                q <= n,
                forall|t: int| 0 <= t < n ==> next[t] == met(self.transitions@, cur@, a, t, q as int, 0),
            decreases n - q,
        {
            if cur[q] {
                let edges = &self.transitions[q];
                let mut k: usize = 0;
                while k < edges.len()
                    invariant
                        self.wf(),
                        n == self.transitions.len(),
                        cur.len() == n,
                        next.len() == n,
                        q < n,
                        cur[q as int],
                        edges == self.transitions[q as int],
                        k <= edges.len(),
                        forall|t: int|
                            0 <= t < n ==> next[t] == met(
                                self.transitions@,
                                cur@,
                                a,
                                t,
                                q as int,
                                k as int,
                            ),
                    decreases edges.len() - k,
                {
                    let e = edges[k];
                    let ghost before = next@;
                    if e.0.same(&a) {
                        next.set(e.1, true);
                    }
                    proof {
                        assert forall|t: int| 0 <= t < n implies next[t] == met(
                            self.transitions@,
                            cur@,
                            a,
                            t,
                            q as int,
                            k as int + 1,
                        ) by {
                            if met(self.transitions@, cur@, a, t, q as int, k as int) {
                                let (q0, k0) = choose|q0: int, k0: int|
                                    0 <= q0 < self.transitions@.len() && cur@[q0] && 0 <= k0
                                        < self.transitions@[q0].len()
                                        && #[trigger] self.transitions@[q0][k0] == (a, t as usize)
                                        && (q0 < q || (q0 == q && k0 < k));
                                assert(self.transitions@[q0][k0] == (a, t as usize));
                            }
                            if e.0 == a && e.1 == t {
                                assert(self.transitions@[q as int][k as int] == (a, t as usize));
                            }
                            if met(self.transitions@, cur@, a, t, q as int, k as int + 1) {
                                let (q0, k0) = choose|q0: int, k0: int|
                                    0 <= q0 < self.transitions@.len() && cur@[q0] && 0 <= k0
                                        < self.transitions@[q0].len()
                                        && #[trigger] self.transitions@[q0][k0] == (a, t as usize)
                                        && (q0 < q || (q0 == q && k0 < k + 1));
                                if q0 == q && k0 == k {
                                } else {
                                    assert(self.transitions@[q0][k0] == (a, t as usize));
                                    assert(met(self.transitions@, cur@, a, t, q as int, k as int));
                                }
                            }
                        }
                    }
                    k += 1;
                }
                proof {
                    assert forall|t: int| 0 <= t < n implies next[t] == met(
                        self.transitions@,
                        cur@,
                        a,
                        t,
                        q as int + 1,
                        0,
                    ) by {
                        lemma_met_row_end(self.transitions@, cur@, a, t, q as int);
                    }
                }
            } else {
                proof {
                    assert forall|t: int| 0 <= t < n implies next[t] == met(
                        self.transitions@,
                        cur@,
                        a,
                        t,
                        q as int + 1,
                        0,
                    ) by {
                        lemma_met_row_skip(self.transitions@, cur@, a, t, q as int);
                    }
                }
            }
            q += 1;
        }
        proof {
            assert forall|t: int| marked(next@).contains(t) <==> self@.step(
                marked(cur@),
                a,
            ).contains(t) by {
                self.lemma_met_is_step(cur@, a, t);
            }
            assert(marked(next@) =~= self@.step(marked(cur@), a));
        }
        next
    }

    /// Once every state has been walked, `met` is the step relation.
    pub(crate) proof fn lemma_met_is_step(&self, cur: Seq<bool>, a: V, t: int)
        requires
            self.wf(),
            cur.len() == self.transitions.len(),
        ensures
            (0 <= t < self.transitions.len() && met(
                self.transitions@,
                cur,
                a,
                t,
                self.transitions.len() as int,
                0,
            )) <==> self@.step(marked(cur), a).contains(t),
    {
        let trans = self.transitions@;
        let n = trans.len() as int;
        if 0 <= t < n && met(trans, cur, a, t, n, 0) {
            let (q0, k0) = choose|q0: int, k0: int|
                0 <= q0 < trans.len() && cur[q0] && 0 <= k0 < trans[q0].len()
                    && #[trigger] trans[q0][k0] == (a, t as usize) && (q0 < n || (q0 == n && k0
                    < 0));
            assert(trans[q0]@.contains((a, t as usize)));
            assert(marked(cur).contains(q0));
            assert(self@.edges.contains((q0, a, t)));
        }
        if self@.step(marked(cur), a).contains(t) {
            let q0 = choose|q0: int|
                marked(cur).contains(q0) && #[trigger] self@.edges.contains((q0, a, t));
            let k0 = choose|k0: int|
                0 <= k0 < trans[q0].len() && trans[q0][k0] == (a, t as usize);
            assert(trans[q0][k0] == (a, t as usize));
            assert(trans[q0][k0].1 < n);
            assert(met(trans, cur, a, t, n, 0));
        }
    }

    /// Whether the automaton accepts `word`: whether some walk from an initial
    /// state to a final state reads it.
    ///
    /// The set of states that the automaton may be in is followed symbol by
    /// symbol, and the run stops as soon as that set is empty.
    pub fn run(&self, word: &[V]) -> (r: bool)
        requires
            self.wf(),
        ensures
            r == self@.accepts(word@),
    {
        let mut cur = copy_flags(&self.initials);
        let mut i: usize = 0;
        proof {
            assert(word@.take(0) =~= Seq::<V>::empty());
        }
        while i < word.len()
            invariant
                self.wf(),
                i <= word.len(),
                cur.len() == self.transitions.len(),
                marked(cur@) == self@.after(self@.initials, word@.take(i as int)),
            decreases word.len() - i,
        {
            if !any_marked(&cur) {
                proof {
                    lemma_after_dies(self@, word@, i as int);
                    lemma_accepts_by_after(self@, word@);
                }
                return false;
            }
            cur = self.advance(&cur, word[i]);
            proof {
                let w1 = word@.take(i as int + 1);
                assert(w1.drop_last() =~= word@.take(i as int));
                assert(w1.last() == word@[i as int]);
            }
            i += 1;
        }
        proof {
            assert(word@.take(word.len() as int) =~= word@);
            lemma_accepts_by_after(self@, word@);
        }
        overlap(&cur, &self.finals)
    }
}

/// `met` at the end of a state's edge list is `met` at the start of the next.
pub proof fn lemma_met_row_end<V>(
    trans: Seq<Vec<(V, usize)>>,
    cur: Seq<bool>,
    a: V,
    t: int,
    q: int,
)
    requires
        0 <= q < trans.len(),
    ensures
        met(trans, cur, a, t, q, trans[q].len() as int) == met(trans, cur, a, t, q + 1, 0),
{
    let len = trans[q].len() as int;
    if met(trans, cur, a, t, q, len) {
        let (q0, k0) = choose|q0: int, k0: int|
            0 <= q0 < trans.len() && cur[q0] && 0 <= k0 < trans[q0].len()
                && #[trigger] trans[q0][k0] == (a, t as usize) && (q0 < q || (q0 == q && k0
                < len));
        assert(trans[q0][k0] == (a, t as usize));
        assert(met(trans, cur, a, t, q + 1, 0));
    }
    if met(trans, cur, a, t, q + 1, 0) {
        let (q0, k0) = choose|q0: int, k0: int|
            0 <= q0 < trans.len() && cur[q0] && 0 <= k0 < trans[q0].len()
                && #[trigger] trans[q0][k0] == (a, t as usize) && (q0 < q + 1 || (q0 == q + 1
                && k0 < 0));
        assert(trans[q0][k0] == (a, t as usize));
        assert(met(trans, cur, a, t, q, len));
    }
}

/// A state that is not flagged adds nothing to `met`.
pub proof fn lemma_met_row_skip<V>(
    trans: Seq<Vec<(V, usize)>>,
    cur: Seq<bool>,
    a: V,
    t: int,
    q: int,
)
    requires
        0 <= q < trans.len(),
        !cur[q],
    ensures
        met(trans, cur, a, t, q, 0) == met(trans, cur, a, t, q + 1, 0),
{
    if met(trans, cur, a, t, q, 0) {
        let (q0, k0) = choose|q0: int, k0: int|
            0 <= q0 < trans.len() && cur[q0] && 0 <= k0 < trans[q0].len()
                && #[trigger] trans[q0][k0] == (a, t as usize) && (q0 < q || (q0 == q && k0 < 0));
        assert(trans[q0][k0] == (a, t as usize));
        assert(met(trans, cur, a, t, q + 1, 0));
    }
    if met(trans, cur, a, t, q + 1, 0) {
        let (q0, k0) = choose|q0: int, k0: int|
            0 <= q0 < trans.len() && cur[q0] && 0 <= k0 < trans[q0].len()
                && #[trigger] trans[q0][k0] == (a, t as usize) && (q0 < q + 1 || (q0 == q + 1
                && k0 < 0));
        assert(trans[q0][k0] == (a, t as usize));
        assert(met(trans, cur, a, t, q, 0));
    }
}

/// Once no state is left after a prefix, none is left after the whole word.
pub proof fn lemma_after_dies<V>(m: NfaModel<V>, w: Seq<V>, i: int)
    requires
        0 <= i <= w.len(),
        m.after(m.initials, w.take(i)) =~= Set::<int>::empty(),
    ensures
        m.after(m.initials, w) =~= Set::<int>::empty(),
    decreases w.len() - i,
{
    if i < w.len() {
        let w1 = w.take(i + 1);
        assert(w1.drop_last() =~= w.take(i));
        assert(m.after(m.initials, w1) =~= Set::<int>::empty());
        lemma_after_dies(m, w, i + 1);
    } else {
        assert(w.take(i) =~= w);
    }
}

} // verus!
