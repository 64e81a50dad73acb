//! Removing the states that do not matter to the language.
use crate::model::{lemma_rank_onto, lemma_rank_rises, rank};
use crate::nfa::NFA;
use crate::sets::{lemma_push_contains, marked};
use crate::symbol::Symbol;
use vstd::prelude::*;

verus! {

/// The edges of `row`, each target replaced by its entry in `index`.
pub fn renumber<V: Symbol>(row: &Vec<(V, usize)>, index: &Vec<usize>) -> (r: Vec<(V, usize)>)
    requires
        forall|k: int| 0 <= k < row.len() ==> (#[trigger] row[k]).1 < index.len(),
    ensures
        forall|a: V, t: usize|
            r@.contains((a, t)) <==> exists|k: int|
                0 <= k < row.len() && (#[trigger] row[k]).0 == a && index[row[k].1 as int] == t,
{
    let mut r: Vec<(V, usize)> = Vec::new();
    let mut i: usize = 0;
    while i < row.len()
        invariant
            i <= row.len(),
            forall|k: int| 0 <= k < row.len() ==> (#[trigger] row[k]).1 < index.len(),
            forall|a: V, t: usize|
                r@.contains((a, t)) <==> exists|k: int|
                    0 <= k < i && (#[trigger] row[k]).0 == a && index[row[k].1 as int] == t,
        decreases row.len() - i,
    {
        let e = row[i];
        let ghost before = r@;
        r.push((e.0, index[e.1]));
        proof {
            assert forall|a: V, t: usize|
                r@.contains((a, t)) <==> exists|k: int|
                    0 <= k < i + 1 && (#[trigger] row[k]).0 == a && index[row[k].1 as int]
                        == t by {
                lemma_push_contains(before, (e.0, index[e.1 as int]), (a, t));
                if before.contains((a, t)) {
                    let k = choose|k: int|
                        0 <= k < i && (#[trigger] row[k]).0 == a && index[row[k].1 as int] == t;
                    assert(row[k].0 == a);
                }
                if (e.0, index[e.1 as int]) == (a, t) {
                    assert(row[i as int].0 == a);
                }
                if exists|k: int|
                    0 <= k < i + 1 && (#[trigger] row[k]).0 == a && index[row[k].1 as int] == t {
                    let k = choose|k: int|
                        0 <= k < i + 1 && (#[trigger] row[k]).0 == a && index[row[k].1 as int]
                            == t;
                    if k < i {
                        assert(row[k].0 == a);
                    }
                }
            }
        }
        i += 1;
    }
    r
}

impl<V: Symbol> NFA<V> {
    /// The automaton without the states that no walk from an initial state
    /// ends in. The states that stay keep their order and are numbered anew
    /// without gaps.
    pub fn make_reachable(self) -> (r: NFA<V>)
        requires
            self.wf(),
        ensures
            r.wf(),
            r@ == self@.make_reachable(),
            forall|w: Seq<V>| r@.accepts(w) <==> self@.accepts(w),
    {
        proof {
            self.lemma_model_wf();
            assert forall|w: Seq<V>| self@.make_reachable().accepts(w) <==> self@.accepts(w) by {
                crate::laws::trim::lemma_make_reachable_language(self@, w);
            }
        }
        let seen = self.reach(&self.initials);
        let ghost a = self;
        let ghost keep = self@.reachable();
        let n = self.transitions.len();
        let mut index: Vec<usize> = Vec::new();
        let mut cnt: usize = 0;
        let mut q: usize = 0;
        while q < n
            invariant
                q <= n,
                n == seen.len(),
                marked(seen@) == keep,
                index.len() == q,
                cnt == rank(keep, q as int),
                cnt <= q,
                forall|s: int| 0 <= s < q ==> #[trigger] index[s] == rank(keep, s),
            decreases n - q,
        {
            index.push(cnt);
            if seen[q] {
                assert(keep.contains(q as int));
                cnt += 1;
            } else {
                assert(!keep.contains(q as int));
            }
            q += 1;
        }
        let mut initials: Vec<bool> = Vec::new();
        let mut finals: Vec<bool> = Vec::new();
        let mut transitions: Vec<Vec<(V, usize)>> = Vec::new();
        let mut q: usize = 0;
        while q < n
            invariant
                q <= n,
                a == self,
                self.wf(),
                n == self.transitions.len(),
                n == seen.len(),
                marked(seen@) == keep,
                index.len() == n,
                forall|s: int| 0 <= s < n ==> #[trigger] index[s] == rank(keep, s),
                initials.len() == rank(keep, q as int),
                finals.len() == rank(keep, q as int),
                transitions.len() == rank(keep, q as int),
                forall|s: int|
                    0 <= s < q && keep.contains(s) ==> initials[#[trigger] rank(keep, s)]
                        == self.initials[s] && finals[rank(keep, s)] == self.finals[s],
                forall|s: int, x: V, t: usize|
                    0 <= s < q && keep.contains(s) ==> ((#[trigger] transitions[rank(
                        keep,
                        s,
                    )]@.contains((x, t))) <==> exists|k: int|
                        0 <= k < self.transitions[s].len() && (
                        #[trigger] self.transitions[s][k]).0 == x && rank(
                            keep,
                            self.transitions[s][k].1 as int,
                        ) == t),
            decreases n - q,
        {
            let ghost initials0 = initials@;
            let ghost finals0 = finals@;
            let ghost transitions0 = transitions@;
            if seen[q] {
                assert(keep.contains(q as int));
                initials.push(self.initials[q]);
                finals.push(self.finals[q]);
                let row = renumber(&self.transitions[q], &index);
                transitions.push(row);
            } else {
                assert(!keep.contains(q as int));
            }
            proof {
                lemma_rank_rises(keep, q as int, q as int);
                assert forall|s: int| 0 <= s < q && keep.contains(s) implies 0 <= rank(keep, s)
                    < rank(keep, q as int) by {
                    lemma_rank_rises(keep, s, q as int);
                }
                assert forall|s: int| 0 <= s < q + 1 && keep.contains(s) implies initials[
                #[trigger] rank(keep, s)] == self.initials[s] && finals[rank(keep, s)]
                    == self.finals[s] by {
                    if s < q {
                        assert(initials[rank(keep, s)] == initials0[rank(keep, s)]);
                        assert(finals[rank(keep, s)] == finals0[rank(keep, s)]);
                    }
                }
                assert forall|s: int, x: V, t: usize|
                    0 <= s < q + 1 && keep.contains(s) implies ((#[trigger] transitions[rank(
                    keep,
                    s,
                )]@.contains((x, t))) <==> exists|k: int|
                    0 <= k < self.transitions[s].len() && (#[trigger] self.transitions[s][k]).0
                        == x && rank(keep, self.transitions[s][k].1 as int) == t) by {
                    if s < q {
                        assert(transitions[rank(keep, s)] == transitions0[rank(keep, s)]);
                    } else {
                        let row = self.transitions[s];
                        if transitions[rank(keep, s)]@.contains((x, t)) {
                            let k = choose|k: int|
                                0 <= k < row.len() && (#[trigger] row[k]).0 == x
                                    && index[row[k].1 as int] == t;
                            assert(self.transitions[s][k].0 == x);
                        }
                        if exists|k: int|
                            0 <= k < self.transitions[s].len() && (
                            #[trigger] self.transitions[s][k]).0 == x && rank(
                                keep,
                                self.transitions[s][k].1 as int,
                            ) == t {
                            let k = choose|k: int|
                                0 <= k < self.transitions[s].len() && (
                                #[trigger] self.transitions[s][k]).0 == x && rank(
                                    keep,
                                    self.transitions[s][k].1 as int,
                                ) == t;
                            assert(row[k].0 == x && index[row[k].1 as int] == t);
                        }
                    }
                }
            }
            q += 1;
        }
        let r = NFA { alphabet: self.alphabet, initials, finals, transitions };
        proof {
            let goal = a@.make_reachable();
            let size = rank(keep, n as int);
            a.lemma_model_wf();
            lemma_rank_rises(keep, 0, n as int);
            assert forall|x: int| r@.initials.contains(x) <==> goal.initials.contains(x) by {
                if r@.initials.contains(x) {
                    let s = lemma_rank_onto(keep, n as int, x);
                    assert(a@.initials.contains(s));
                }
                if goal.initials.contains(x) {
                    let s = choose|s: int|
                        0 <= s && keep.contains(s) && a@.initials.contains(s) && #[trigger] rank(
                            keep,
                            s,
                        ) == x;
                    lemma_rank_rises(keep, s, n as int);
                }
            }
            assert(r@.initials =~= goal.initials);
            assert forall|x: int| r@.finals.contains(x) <==> goal.finals.contains(x) by {
                if r@.finals.contains(x) {
                    let s = lemma_rank_onto(keep, n as int, x);
                    assert(a@.finals.contains(s));
                }
                if goal.finals.contains(x) {
                    let s = choose|s: int|
                        0 <= s && keep.contains(s) && a@.finals.contains(s) && #[trigger] rank(
                            keep,
                            s,
                        ) == x;
                    lemma_rank_rises(keep, s, n as int);
                }
            }
            assert(r@.finals =~= goal.finals);
            assert forall|s: int, k: int|
                0 <= s < n && keep.contains(s) && 0 <= k < a.transitions[s].len() implies keep.contains(
                (#[trigger] a.transitions[s][k]).1 as int,
            ) by {
                a.lemma_edge_reaches(a@.initials, s, k);
            }
            assert forall|e: (int, V, int)| r@.edges.contains(e) <==> goal.edges.contains(e) by {
                if r@.edges.contains(e) {
                    let s = lemma_rank_onto(keep, n as int, e.0);
                    let k = choose|k: int|
                        0 <= k < a.transitions[s].len() && (#[trigger] a.transitions[s][k]).0
                            == e.1 && rank(keep, a.transitions[s][k].1 as int) == e.2 as usize;
                    let t = a.transitions[s][k].1;
                    assert(a.transitions[s]@.contains((e.1, t)));
                    assert(a@.edges.contains((s, e.1, t as int)));
                    assert(keep.contains(t as int));
                    lemma_rank_rises(keep, 0, t as int);
                    assert(rank(keep, s) == e.0 && rank(keep, t as int) == e.2);
                }
                if goal.edges.contains(e) {
                    let (s, t) = choose|s: int, t: int|
                        0 <= s && 0 <= t && keep.contains(s) && keep.contains(t)
                            && a@.edges.contains((s, e.1, t)) && #[trigger] rank(keep, s) == e.0
                            && #[trigger] rank(keep, t) == e.2;
                    lemma_rank_rises(keep, s, n as int);
                    lemma_rank_rises(keep, t, n as int);
                    let k = choose|k: int|
                        0 <= k < a.transitions[s]@.len() && a.transitions[s]@[k] == (
                            e.1,
                            t as usize,
                        );
                    assert(a.transitions[s][k].0 == e.1);
                    assert(r.transitions[rank(keep, s)]@.contains((e.1, e.2 as usize)));
                }
            }
            assert(r@.edges =~= goal.edges);
            assert forall|s: int, x: V, t: usize|
                0 <= s < size && #[trigger] r.transitions[s]@.contains((x, t)) implies t < size
                && r.alphabet@.contains(x) by {
                let s0 = lemma_rank_onto(keep, n as int, s);
                let k = choose|k: int|
                    0 <= k < a.transitions[s0].len() && (#[trigger] a.transitions[s0][k]).0 == x
                        && rank(keep, a.transitions[s0][k].1 as int) == t;
                let t0 = a.transitions[s0][k].1;
                assert(keep.contains(t0 as int));
                lemma_rank_rises(keep, t0 as int, n as int);
            }
            r.lemma_wf_by_rows(size);
        }
        r
    }

    /// The automaton without the states from which no walk ends in a final
    /// state.
    pub fn make_coreachable(self) -> (r: NFA<V>)
        requires
            self.wf(),
        ensures
            r.wf(),
            r@ == self@.make_coreachable(),
            forall|w: Seq<V>| r@.accepts(w) <==> self@.accepts(w),
    {
        proof {
            self.lemma_model_wf();
            assert forall|w: Seq<V>| self@.make_coreachable().accepts(w) <==> self@.accepts(w) by {
                crate::laws::trim::lemma_make_coreachable_language(self@, w);
            }
        }
        self.reverse().make_reachable().reverse()
    }

    /// The automaton without the states that are not on a walk from an
    /// initial to a final state.
    pub fn trim(self) -> (r: NFA<V>)
        requires
            self.wf(),
        ensures
            r.wf(),
            r@ == self@.trim(),
            forall|w: Seq<V>| r@.accepts(w) <==> self@.accepts(w),
    {
        proof {
            self.lemma_model_wf();
            assert forall|w: Seq<V>| self@.trim().accepts(w) <==> self@.accepts(w) by {
                crate::laws::trim::lemma_trim_language(self@, w);
            }
        }
        self.make_reachable().make_coreachable()
    }

    /// Whether from every state some walk ends in a final state.
    pub fn is_coreachable(&self) -> (r: bool)
        requires
            self.wf(),
        ensures
            r == self@.is_coreachable(),
    {
        self.copy().reverse().is_reachable()
    }

    /// Whether every state is on a walk from an initial to a final state.
    pub fn is_trimmed(&self) -> (r: bool)
        requires
            self.wf(),
        ensures
            r == self@.is_trimmed(),
    {
        self.is_reachable() && self.is_coreachable()
    }
}

} // verus!
