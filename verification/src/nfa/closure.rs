//! The closure operations: union, concatenation, star, repetition, reversal
//! and completion.

use crate::nfa::search::leaves_on;
use crate::nfa::{edges_of, NFA};
use crate::sets::{
    any_marked, copy_flags, copy_symbols, lemma_push_contains, marked, no_states, overlap, shifted,
};
use crate::symbol::Symbol;
use crate::utils::append_hashset;
use vstd::prelude::*;

verus! {

/// Appends to `dst` the edges of `src`, each target moved up by `by`.
pub fn push_edges<V: Symbol>(dst: &mut Vec<(V, usize)>, src: &Vec<(V, usize)>, by: usize)
    requires
        forall|k: int| 0 <= k < src.len() ==> (#[trigger] src[k]).1 + by <= usize::MAX,
    ensures
        forall|a: V, t: usize|
            final(dst)@.contains((a, t)) <==> (old(dst)@.contains((a, t)) || (t >= by
                && src@.contains((a, (t - by) as usize)))),
{
    let mut k: usize = 0;
    while k < src.len()
        invariant
            k <= src.len(),
            forall|j: int| 0 <= j < src.len() ==> (#[trigger] src[j]).1 + by <= usize::MAX,
            forall|a: V, t: usize|
                dst@.contains((a, t)) <==> (old(dst)@.contains((a, t)) || (t >= by
                    && src@.take(k as int).contains((a, (t - by) as usize)))),
        decreases src.len() - k,
    {
        let e = src[k];
        let ghost before = dst@;
        dst.push((e.0, e.1 + by));
        proof {
            assert(src@.take(k as int + 1) =~= src@.take(k as int).push(e));
            assert forall|a: V, t: usize|
                dst@.contains((a, t)) <==> (old(dst)@.contains((a, t)) || (t >= by && src@.take(
                    k as int + 1,
                ).contains((a, (t - by) as usize)))) by {
                lemma_push_contains(before, (e.0, (e.1 + by) as usize), (a, t));
                lemma_push_contains(src@.take(k as int), e, (a, (t - by) as usize));
            }
        }
        k += 1;
    }
    proof {
        assert(src@.take(src.len() as int) =~= src@);
    }
}

/// The flags of `a` followed by those of `b` mark the set of `a` and the
/// set of `b` moved up behind it.
pub proof fn lemma_marked_concat(a: Seq<bool>, b: Seq<bool>)
    ensures
        marked(a + b) =~= marked(a).union(shifted(marked(b), a.len() as int)),
{
    assert forall|q: int|
        marked(a + b).contains(q) <==> marked(a).union(shifted(marked(b), a.len() as int)).contains(
            q,
        ) by {
        if 0 <= q < a.len() {
            assert((a + b)[q] == a[q]);
        } else if a.len() <= q < a.len() + b.len() {
            assert((a + b)[q] == b[q - a.len()]);
        }
    }
}

/// The row `t` of the reversed lists holds `(a, s)`: the edge `(s, a, t)` is
/// met before place `k_end` of state `q_end` when the states and their edge
/// lists are walked in order.
pub open spec fn turned<V>(
    trans: Seq<Vec<(V, usize)>>,
    t: int,
    a: V,
    s: int,
    q_end: int,
    k_end: int,
) -> bool {
    0 <= s < trans.len() && exists|k: int|
        0 <= k < trans[s].len() && #[trigger] trans[s][k] == (a, t as usize) && (s < q_end || (s
            == q_end && k < k_end))
}

/// Whether `row` holds an edge labelled `a`.
pub open spec fn leaves<V>(row: Seq<(V, usize)>, a: V) -> bool {
    exists|k: int| 0 <= k < row.len() && (#[trigger] row[k]).0 == a
}

/// What one more edge adds to `turned`.
pub proof fn lemma_turned_next<V>(
    trans: Seq<Vec<(V, usize)>>,
    t: int,
    a: V,
    s: int,
    q: int,
    k: int,
)
    requires
        0 <= q < trans.len(),
        0 <= k < trans[q].len(),
        0 <= t <= usize::MAX,
    ensures
        turned(trans, t, a, s, q, k + 1) <==> (turned(trans, t, a, s, q, k) || (s == q
            && trans[q][k] == (a, t as usize))),
{
    if turned(trans, t, a, s, q, k + 1) {
        let j = choose|j: int|
            0 <= j < trans[s].len() && #[trigger] trans[s][j] == (a, t as usize) && (s < q || (s
                == q && j < k + 1));
        if s == q && j == k {
        } else {
            assert(trans[s][j] == (a, t as usize));
        }
    }
    if turned(trans, t, a, s, q, k) {
        let j = choose|j: int|
            0 <= j < trans[s].len() && #[trigger] trans[s][j] == (a, t as usize) && (s < q || (s
                == q && j < k));
        assert(trans[s][j] == (a, t as usize));
    }
    if s == q && trans[q][k] == (a, t as usize) {
        assert(trans[s][k] == (a, t as usize));
    }
}

/// `turned` at the end of a state's edge list is `turned` at the start of
/// the next.
pub proof fn lemma_turned_row_end<V>(trans: Seq<Vec<(V, usize)>>, t: int, a: V, s: int, q: int)
    requires
        0 <= q < trans.len(),
    ensures
        turned(trans, t, a, s, q, trans[q].len() as int) <==> turned(trans, t, a, s, q + 1, 0),
{
    let len = trans[q].len() as int;
    if turned(trans, t, a, s, q, len) {
        let j = choose|j: int|
            0 <= j < trans[s].len() && #[trigger] trans[s][j] == (a, t as usize) && (s < q || (s
                == q && j < len));
        assert(trans[s][j] == (a, t as usize));
    }
    if turned(trans, t, a, s, q + 1, 0) {
        let j = choose|j: int|
            0 <= j < trans[s].len() && #[trigger] trans[s][j] == (a, t as usize) && (s < q + 1
                || (s == q + 1 && j < 0));
        assert(trans[s][j] == (a, t as usize));
    }
}

/// Once every state has been walked, `turned` is the edge relation.
pub proof fn lemma_turned_all<V>(trans: Seq<Vec<(V, usize)>>, t: int, a: V, s: int)
    requires
        0 <= t <= usize::MAX,
    ensures
        turned(trans, t, a, s, trans.len() as int, 0) <==> edges_of(trans).contains((s, a, t)),
{
    let n = trans.len() as int;
    if turned(trans, t, a, s, n, 0) {
        let j = choose|j: int|
            0 <= j < trans[s].len() && #[trigger] trans[s][j] == (a, t as usize) && (s < n || (s
                == n && j < 0));
        assert(trans[s]@.contains((a, t as usize)));
    }
    if edges_of(trans).contains((s, a, t)) {
        let j = choose|j: int| 0 <= j < trans[s]@.len() && trans[s]@[j] == (a, t as usize);
        assert(trans[s][j] == (a, t as usize));
    }
}

impl<V: Symbol> NFA<V> {
    /// The automaton that accepts what `self` or `other` accepts: the two
    /// side by side, the states of `other` renumbered behind those of `self`.
    pub fn unite(self, other: NFA<V>) -> (r: NFA<V>)
        requires
            self.wf(),
            other.wf(),
        ensures
            r.wf(),
            r@ == self@.unite(other@),
            forall|w: Seq<V>| r@.accepts(w) <==> (self@.accepts(w) || other@.accepts(w)),
    {
        let ghost a = self;
        let ghost b = other;
        proof {
            a.lemma_model_wf();
            b.lemma_model_wf();
            assert forall|w: Seq<V>|
                a@.unite(b@).accepts(w) <==> (a@.accepts(w) || b@.accepts(w)) by {
                crate::laws::unite::lemma_unite_language(a@, b@, w);
            }
        }
        let NFA { alphabet: o_alphabet, initials: o_initials, finals: o_finals, transitions: o_transitions } = other;
        let NFA { alphabet, initials, finals, transitions } = self;
        let mut alphabet = alphabet;
        let mut initials = initials;
        let mut finals = finals;
        let mut transitions = transitions;
        let mut o_initials = o_initials;
        let mut o_finals = o_finals;
        let n = transitions.len();
        let m = o_transitions.len();
        proof {
            lemma_marked_concat(initials@, o_initials@);
            lemma_marked_concat(finals@, o_finals@);
            a.lemma_rows_by_wf();
            b.lemma_rows_by_wf();
        }
        append_hashset(&mut alphabet, o_alphabet);
        initials.append(&mut o_initials);
        finals.append(&mut o_finals);
        let total = finals.len();
        let mut q: usize = 0;
        while q < m
            invariant
                q <= m,
                m == o_transitions.len(),
                n + m <= usize::MAX,
                n == a.transitions.len(),
                o_transitions == b.transitions,
                b.wf(),
                transitions.len() == n + q,
                forall|s: int| 0 <= s < n ==> transitions[s] == a.transitions[s],
                forall|s: int, x: V, t: usize|
                    0 <= s < q ==> ((#[trigger] transitions[n + s]@.contains((x, t))) <==> (t >= n
                        && o_transitions[s]@.contains((x, (t - n) as usize)))),
            decreases m - q,
        {
            let mut row: Vec<(V, usize)> = Vec::new();
            push_edges(&mut row, &o_transitions[q], n);
            transitions.push(row);
            q += 1;
        }
        let r = NFA { alphabet, initials, finals, transitions };
        proof {
            let goal = a@.unite(b@);
            assert forall|e: (int, V, int)| r@.edges.contains(e) <==> goal.edges.contains(e) by {
                if 0 <= e.0 < n {
                } else if n <= e.0 < n + m {
                    let s = e.0 - n;
                    if 0 <= e.2 <= usize::MAX {
                        let t = e.2 as usize;
                        assert(r.transitions[n + s]@.contains((e.1, t)) <==> (t >= n
                            && b.transitions[s]@.contains((e.1, (t - n) as usize))));
                    }
                    assert(e.0 == n + s);
                }
            }
            assert(r@.edges =~= goal.edges);
            assert forall|s: int, x: V, t: usize|
                0 <= s < n + m && #[trigger] r.transitions[s]@.contains((x, t)) implies t < n + m
                && r.alphabet@.contains(x) by {
                if s >= n {
                    assert(r.transitions[n + (s - n)]@.contains((x, t)));
                    assert(b.transitions[s - n]@.contains((x, (t - n) as usize)));
                    assert(b.alphabet@.to_set().contains(x));
                } else {
                    assert(a.transitions[s]@.contains((x, t)));
                    assert(a.alphabet@.to_set().contains(x));
                }
                assert(r.alphabet@.to_set().contains(x));
            }
            r.lemma_wf_by_rows((n + m) as int);
        }
        r
    }

    /// The edges that leave the initial states.
    pub fn initial_edges(&self) -> (r: Vec<(V, usize)>)
        requires
            self.wf(),
        ensures
            forall|a: V, t: usize| r@.contains((a, t)) <==> self@.starts_on(a, t as int),
            forall|k: int| 0 <= k < r.len() ==> (#[trigger] r[k]).1 < self@.size,
    {
        let n = self.transitions.len();
        let mut r: Vec<(V, usize)> = Vec::new();
        let mut i: usize = 0;
        proof {
            self.lemma_rows_by_wf();
        }
        while i < n
            invariant
                self.wf(),
                n == self.transitions.len(),
                i <= n,
                forall|a: V, t: usize|
                    r@.contains((a, t)) <==> exists|j: int|
                        0 <= j < i && self.initials[j] && #[trigger] self.transitions[j]@.contains(
                            (a, t),
                        ),
            decreases n - i,
        {
            if self.initials[i] {
                let ghost before = r@;
                push_edges(&mut r, &self.transitions[i], 0);
                proof {
                    assert forall|a: V, t: usize|
                        r@.contains((a, t)) <==> exists|j: int|
                            0 <= j < i + 1 && self.initials[j]
                                && #[trigger] self.transitions[j]@.contains((a, t)) by {
                        if before.contains((a, t)) {
                            let j = choose|j: int|
                                0 <= j < i && self.initials[j]
                                    && #[trigger] self.transitions[j]@.contains((a, t));
                            assert(self.transitions[j]@.contains((a, t)));
                        }
                    }
                }
            }
            i += 1;
        }
        proof {
            assert forall|a: V, t: usize| r@.contains((a, t)) <==> self@.starts_on(
                a,
                t as int,
            ) by {
                if r@.contains((a, t)) {
                    let j = choose|j: int|
                        0 <= j < n && self.initials[j] && #[trigger] self.transitions[j]@.contains(
                            (a, t),
                        );
                    assert(self@.initials.contains(j));
                    assert(self@.edges.contains((j, a, t as int)));
                }
                if self@.starts_on(a, t as int) {
                    let j = choose|j: int|
                        self@.initials.contains(j) && #[trigger] self@.edges.contains(
                            (j, a, t as int),
                        );
                    assert(self.transitions[j]@.contains((a, t)));
                }
            }
            assert forall|k: int| 0 <= k < r.len() implies (#[trigger] r[k]).1 < self@.size by {
                let e = r[k];
                assert(r@.contains((e.0, e.1)));
                let j = choose|j: int|
                    0 <= j < n && self.initials[j] && #[trigger] self.transitions[j]@.contains(
                        (e.0, e.1),
                    );
            }
        }
        r
    }

    /// The automaton that accepts a word of `self` followed by a word of
    /// `other`: the states of `other` are renumbered behind those of `self`,
    /// and every final state of `self` gets the edges that leave the initial
    /// states of `other`. The final states of `self` stay final only where
    /// `other` accepts the empty word.
    pub fn concatenate(self, other: NFA<V>) -> (r: NFA<V>)
        requires
            self.wf(),
            other.wf(),
        ensures
            r.wf(),
            r@ == self@.concatenate(other@),
            forall|w: Seq<V>|
                r@.accepts(w) <==> crate::language::in_concat(
                    self@.language(),
                    other@.language(),
                    w,
                ),
    {
        let ghost a = self;
        let ghost b = other;
        proof {
            a.lemma_model_wf();
            b.lemma_model_wf();
            assert forall|w: Seq<V>|
                a@.concatenate(b@).accepts(w) <==> crate::language::in_concat(
                    a@.language(),
                    b@.language(),
                    w,
                ) by {
                crate::laws::concat::lemma_concatenate_language(a@, b@, w);
            }
        }
        let starts = other.initial_edges();
        let keep = overlap(&other.initials, &other.finals);
        let NFA { alphabet: o_alphabet, initials: o_initials, finals: o_finals, transitions: o_transitions } = other;
        let NFA { alphabet, initials, finals: a_finals, transitions: a_transitions } = self;
        let mut alphabet = alphabet;
        let mut initials = initials;
        let mut o_finals = o_finals;
        let n = a_transitions.len();
        let m = o_transitions.len();
        let mut finals = if keep {
            copy_flags(&a_finals)
        } else {
            no_states(n)
        };
        let mut blank = no_states(m);
        proof {
            lemma_marked_concat(initials@, blank@);
            lemma_marked_concat(finals@, o_finals@);
            a.lemma_rows_by_wf();
            b.lemma_rows_by_wf();
            assert(shifted(marked(blank@), n as int) =~= Set::<int>::empty());
        }
        append_hashset(&mut alphabet, o_alphabet);
        initials.append(&mut blank);
        finals.append(&mut o_finals);
        let total = finals.len();
        let mut transitions: Vec<Vec<(V, usize)>> = Vec::new();
        let mut q: usize = 0;
        while q < n
            invariant
                q <= n,
                n + m <= usize::MAX,
                n == a.transitions.len(),
                a_transitions == a.transitions,
                a_finals == a.finals,
                a.wf(),
                m == b@.size,
                forall|x: V, t: usize| starts@.contains((x, t)) <==> b@.starts_on(x, t as int),
                forall|k: int| 0 <= k < starts.len() ==> (#[trigger] starts[k]).1 < m,
                transitions.len() == q,
                forall|s: int, x: V, t: usize|
                    0 <= s < q ==> ((#[trigger] transitions[s]@.contains((x, t))) <==> (
                    a_transitions[s]@.contains((x, t)) || (a_finals[s] && t >= n && b@.starts_on(
                        x,
                        t - n,
                    )))),
            decreases n - q,
        {
            let mut row: Vec<(V, usize)> = Vec::new();
            push_edges(&mut row, &a_transitions[q], 0);
            if a_finals[q] {
                push_edges(&mut row, &starts, n);
            }
            transitions.push(row);
            q += 1;
        }
        let mut q: usize = 0;
        while q < m
            invariant
                q <= m,
                m == o_transitions.len(),
                n + m <= usize::MAX,
                n == a.transitions.len(),
                a_transitions == a.transitions,
                a_finals == a.finals,
                o_transitions == b.transitions,
                b.wf(),
                transitions.len() == n + q,
                forall|s: int, x: V, t: usize|
                    0 <= s < n ==> ((#[trigger] transitions[s]@.contains((x, t))) <==> (
                    a_transitions[s]@.contains((x, t)) || (a_finals[s] && t >= n && b@.starts_on(
                        x,
                        t - n,
                    )))),
                forall|s: int, x: V, t: usize|
                    0 <= s < q ==> ((#[trigger] transitions[n + s]@.contains((x, t))) <==> (t >= n
                        && o_transitions[s]@.contains((x, (t - n) as usize)))),
            decreases m - q,
        {
            let mut row: Vec<(V, usize)> = Vec::new();
            push_edges(&mut row, &o_transitions[q], n);
            transitions.push(row);
            q += 1;
        }
        let r = NFA { alphabet, initials, finals, transitions };
        proof {
            let goal = a@.concatenate(b@);
            if keep {
                let w = choose|w: int|
                    marked(b.initials@).contains(w) && marked(b.finals@).contains(w);
                assert(b@.initials.contains(w) && b@.finals.contains(w));
            }
            assert(keep == b@.accepts_empty());
            assert(r@.initials =~= goal.initials);
            assert(r@.finals =~= goal.finals);
            assert forall|e: (int, V, int)| r@.edges.contains(e) <==> goal.edges.contains(e) by {
                if 0 <= e.0 < n {
                    if 0 <= e.2 <= usize::MAX {
                        let t = e.2 as usize;
                        assert(r.transitions[e.0]@.contains((e.1, t)) <==> (
                        a.transitions[e.0]@.contains((e.1, t)) || (a.finals[e.0] && t >= n
                            && b@.starts_on(e.1, t - n))));
                    }
                    if goal.edges.contains(e) && a@.finals.contains(e.0) && b@.starts_on(
                        e.1,
                        e.2 - n,
                    ) {
                        let i = choose|i: int|
                            b@.initials.contains(i) && #[trigger] b@.edges.contains(
                                (i, e.1, e.2 - n),
                            );
                        assert(0 <= e.2 - n < m);
                    }
                } else if n <= e.0 < n + m {
                    let s = e.0 - n;
                    if 0 <= e.2 <= usize::MAX {
                        let t = e.2 as usize;
                        assert(r.transitions[n + s]@.contains((e.1, t)) <==> (t >= n
                            && b.transitions[s]@.contains((e.1, (t - n) as usize))));
                    }
                    assert(e.0 == n + s);
                }
            }
            assert(r@.edges =~= goal.edges);
            assert forall|s: int, x: V, t: usize|
                0 <= s < n + m && #[trigger] r.transitions[s]@.contains((x, t)) implies t < n + m
                && r.alphabet@.contains(x) by {
                if s >= n {
                    assert(r.transitions[n + (s - n)]@.contains((x, t)));
                    assert(b.transitions[s - n]@.contains((x, (t - n) as usize)));
                    assert(b.alphabet@.to_set().contains(x));
                } else {
                    if a.transitions[s]@.contains((x, t)) {
                        assert(a.alphabet@.to_set().contains(x));
                    } else {
                        assert(b@.starts_on(x, t - n));
                        let i = choose|i: int|
                            b@.initials.contains(i) && #[trigger] b@.edges.contains(
                                (i, x, t - n),
                            );
                        b.lemma_model_wf();
                        assert(b.alphabet@.to_set().contains(x));
                    }
                }
                assert(r.alphabet@.to_set().contains(x));
            }
            r.lemma_wf_by_rows((n + m) as int);
        }
        r
    }

    /// The star of the automaton: one more state, the only initial state,
    /// which is final; it and every final state get the edges that leave the
    /// initial states of `self`.
    pub fn kleene(self) -> (r: NFA<V>)
        requires
            self.wf(),
        ensures
            r.wf(),
            r@ == self@.kleene(),
            forall|w: Seq<V>| r@.accepts(w) <==> crate::language::in_star(self@.language(), w),
    {
        let ghost a = self;
        proof {
            a.lemma_model_wf();
            assert forall|w: Seq<V>|
                a@.kleene().accepts(w) <==> crate::language::in_star(a@.language(), w) by {
                crate::laws::star::lemma_kleene_language(a@, w);
            }
        }
        let starts = self.initial_edges();
        let NFA { alphabet, initials: a_initials, finals, transitions: a_transitions } = self;
        let mut finals = finals;
        let n = a_transitions.len();
        let mut initials = no_states(n);
        initials.push(true);
        finals.push(true);
        let total = finals.len();
        proof {
            a.lemma_rows_by_wf();
        }
        let mut transitions: Vec<Vec<(V, usize)>> = Vec::new();
        let mut q: usize = 0;
        while q < n
            invariant
                q <= n,
                n < usize::MAX,
                n == a.transitions.len(),
                a_transitions == a.transitions,
                finals@ == a.finals@.push(true),
                a.wf(),
                forall|x: V, t: usize| starts@.contains((x, t)) <==> a@.starts_on(x, t as int),
                transitions.len() == q,
                forall|s: int, x: V, t: usize|
                    0 <= s < q ==> ((#[trigger] transitions[s]@.contains((x, t))) <==> (
                    a_transitions[s]@.contains((x, t)) || (a.finals[s] && a@.starts_on(
                        x,
                        t as int,
                    )))),
            decreases n - q,
        {
            let mut row: Vec<(V, usize)> = Vec::new();
            push_edges(&mut row, &a_transitions[q], 0);
            if finals[q] {
                push_edges(&mut row, &starts, 0);
            }
            transitions.push(row);
            q += 1;
        }
        let mut row: Vec<(V, usize)> = Vec::new();
        push_edges(&mut row, &starts, 0);
        transitions.push(row);
        let r = NFA { alphabet, initials, finals, transitions };
        proof {
            let goal = a@.kleene();
            a.lemma_model_wf();
            assert(r@.initials =~= goal.initials);
            assert(r@.finals =~= goal.finals);
            assert forall|e: (int, V, int)| r@.edges.contains(e) <==> goal.edges.contains(e) by {
                if 0 <= e.0 <= n {
                    if 0 <= e.2 <= usize::MAX {
                        let t = e.2 as usize;
                        if e.0 < n {
                            assert(r.transitions[e.0]@.contains((e.1, t)) <==> (
                            a.transitions[e.0]@.contains((e.1, t)) || (a.finals[e.0]
                                && a@.starts_on(e.1, t as int))));
                        } else {
                            assert(r.transitions[e.0]@.contains((e.1, t)) <==> a@.starts_on(
                                e.1,
                                t as int,
                            ));
                        }
                    }
                    if a@.starts_on(e.1, e.2) {
                        let i = choose|i: int|
                            a@.initials.contains(i) && #[trigger] a@.edges.contains(
                                (i, e.1, e.2),
                            );
                    }
                }
            }
            assert(r@.edges =~= goal.edges);
            assert forall|s: int, x: V, t: usize|
                0 <= s < n + 1 && #[trigger] r.transitions[s]@.contains((x, t)) implies t < n + 1
                && r.alphabet@.contains(x) by {
                if s < n && a.transitions[s]@.contains((x, t)) {
                } else {
                    assert(a@.starts_on(x, t as int));
                    let i = choose|i: int|
                        a@.initials.contains(i) && #[trigger] a@.edges.contains((i, x, t as int));
                    assert(a.alphabet@.to_set().contains(x));
                }
            }
            r.lemma_wf_by_rows((n + 1) as int);
        }
        r
    }

    /// The automaton that accepts the words of `self` read backwards: every
    /// edge is turned round, and the initial and final states are exchanged.
    pub fn reverse(self) -> (r: NFA<V>)
        requires
            self.wf(),
        ensures
            r.wf(),
            r@ == self@.reverse(),
            forall|w: Seq<V>| r@.accepts(w) <==> self@.accepts(w.reverse()),
    {
        let ghost a = self;
        proof {
            assert forall|w: Seq<V>| a@.reverse().accepts(w) <==> a@.accepts(w.reverse()) by {
                crate::laws::reverse::lemma_reverse_language(a@, w);
            }
        }
        let NFA { alphabet, initials, finals, transitions: a_transitions } = self;
        let n = a_transitions.len();
        let mut transitions: Vec<Vec<(V, usize)>> = Vec::new();
        let mut q: usize = 0;
        while q < n
            invariant
                q <= n,
                transitions.len() == q,
                forall|s: int| 0 <= s < q ==> (#[trigger] transitions[s])@ == Seq::<
                    (V, usize),
                >::empty(),
            decreases n - q,
        {
            transitions.push(Vec::new());
            q += 1;
        }
        let mut q: usize = 0;
        while q < n
            invariant
                q <= n,
                a.wf(),
                n == a.transitions.len(),
                a_transitions == a.transitions,
                transitions.len() == n,
                forall|t: int, x: V, s: usize|
                    0 <= t < n ==> ((#[trigger] transitions[t]@.contains((x, s))) <==> turned(
                        a_transitions@,
                        t,
                        x,
                        s as int,
                        q as int,
                        0,
                    )),
            decreases n - q,
        {
            let row = &a_transitions[q];
            let mut k: usize = 0;
            while k < row.len()
                invariant
                    q < n,
                    a.wf(),
                    n == a.transitions.len(),
                    a_transitions == a.transitions,
                    row == a_transitions[q as int],
                    k <= row.len(),
                    transitions.len() == n,
                    forall|t: int, x: V, s: usize|
                        0 <= t < n ==> ((#[trigger] transitions[t]@.contains((x, s))) <==> turned(
                            a_transitions@,
                            t,
                            x,
                            s as int,
                            q as int,
                            k as int,
                        )),
                decreases row.len() - k,
            {
                let e = row[k];
                let ghost before = transitions@;
                transitions[e.1].push((e.0, q));
                proof {
                    assert forall|t: int, x: V, s: usize| 0 <= t < n implies ((
                    #[trigger] transitions[t]@.contains((x, s))) <==> turned(
                        a_transitions@,
                        t,
                        x,
                        s as int,
                        q as int,
                        k as int + 1,
                    )) by {
                        lemma_turned_next(a_transitions@, t, x, s as int, q as int, k as int);
                        assert(before[t]@.contains((x, s)) <==> turned(
                            a_transitions@,
                            t,
                            x,
                            s as int,
                            q as int,
                            k as int,
                        ));
                        if t == e.1 {
                            lemma_push_contains(before[t]@, (e.0, q), (x, s));
                        }
                    }
                }
                k += 1;
            }
            proof {
                assert forall|t: int, x: V, s: usize| 0 <= t < n implies ((
                #[trigger] transitions[t]@.contains((x, s))) <==> turned(
                    a_transitions@,
                    t,
                    x,
                    s as int,
                    q as int + 1,
                    0,
                )) by {
                    lemma_turned_row_end(a_transitions@, t, x, s as int, q as int);
                }
            }
            q += 1;
        }
        let r = NFA { alphabet, initials: finals, finals: initials, transitions };
        proof {
            let goal = a@.reverse();
            a.lemma_model_wf();
            assert forall|e: (int, V, int)| r@.edges.contains(e) <==> goal.edges.contains(e) by {
                if 0 <= e.0 < n && 0 <= e.2 <= usize::MAX {
                    lemma_turned_all(a_transitions@, e.0, e.1, e.2);
                    assert(r.transitions[e.0]@.contains((e.1, e.2 as usize)) <==> turned(
                        a_transitions@,
                        e.0,
                        e.1,
                        e.2,
                        n as int,
                        0,
                    ));
                }
            }
            assert(r@.edges =~= goal.edges);
            assert forall|t: int, x: V, s: usize|
                0 <= t < n && #[trigger] r.transitions[t]@.contains((x, s)) implies s < n
                && r.alphabet@.contains(x) by {
                lemma_turned_all(a_transitions@, t, x, s as int);
                assert(a@.edges.contains((s as int, x, t)));
            }
            r.lemma_wf_by_rows(n as int);
        }
        r
    }

    /// The automaton made complete. A complete automaton is returned as it
    /// is. Otherwise a sink is added: every state, the sink too, leads to it
    /// on each symbol on which it had no successor, and the sink is initial
    /// where there was no initial state.
    pub fn complete(self) -> (r: NFA<V>)
        requires
            self.wf(),
        ensures
            r.wf(),
            r@ == self@.complete(),
            r@.is_complete(),
            forall|w: Seq<V>| r@.accepts(w) <==> self@.accepts(w),
    {
        proof {
            self.lemma_model_wf();
            crate::laws::complete::lemma_complete_wf(self@);
            assert forall|w: Seq<V>| self@.complete().accepts(w) <==> self@.accepts(w) by {
                crate::laws::complete::lemma_complete_language(self@, w);
            }
        }
        if self.is_complete() {
            return self;
        }
        let ghost a = self;
        let NFA { alphabet, initials, finals, transitions: a_transitions } = self;
        let mut initials = initials;
        let mut finals = finals;
        let mut a_transitions = a_transitions;
        let n = a_transitions.len();
        let none = !any_marked(&initials);
        initials.push(none);
        finals.push(false);
        a_transitions.push(Vec::new());
        let total = finals.len();
        proof {
            a.lemma_rows_by_wf();
        }
        let mut transitions: Vec<Vec<(V, usize)>> = Vec::new();
        let mut q: usize = 0;
        while q <= n
            invariant
                q <= n + 1,
                n < usize::MAX,
                n == a.transitions.len(),
                a_transitions.len() == n + 1,
                forall|s: int| 0 <= s < n ==> a_transitions[s] == a.transitions[s],
                a_transitions[n as int]@ == Seq::<(V, usize)>::empty(),
                a.wf(),
                alphabet == a.alphabet,
                transitions.len() == q,
                forall|s: int, x: V, t: usize|
                    0 <= s < q ==> ((#[trigger] transitions[s]@.contains((x, t))) <==> (
                    a_transitions[s]@.contains((x, t)) || (t == n && alphabet@.contains(x)
                        && !leaves(a_transitions[s]@, x)))),
            decreases n + 1 - q,
        {
            let old_row = &a_transitions[q];
            let mut row: Vec<(V, usize)> = Vec::new();
            push_edges(&mut row, old_row, 0);
            let mut i: usize = 0;
            while i < alphabet.len()
                invariant
                    i <= alphabet.len(),
                    q <= n,
                    old_row == a_transitions[q as int],
                    forall|x: V, t: usize|
                        row@.contains((x, t)) <==> (old_row@.contains((x, t)) || (t == n
                            && alphabet@.take(i as int).contains(x) && !leaves(old_row@, x))),
                decreases alphabet.len() - i,
            {
                let x = alphabet[i];
                let ghost before = row@;
                let missing = !leaves_on(old_row, x);
                if missing {
                    row.push((x, n));
                }
                proof {
                    assert(alphabet@.take(i as int + 1) =~= alphabet@.take(i as int).push(x));
                    assert forall|y: V, t: usize|
                        row@.contains((y, t)) <==> (old_row@.contains((y, t)) || (t == n
                            && alphabet@.take(i as int + 1).contains(y) && !leaves(
                            old_row@,
                            y,
                        ))) by {
                        lemma_push_contains(before, (x, n), (y, t));
                        lemma_push_contains(alphabet@.take(i as int), x, y);
                    }
                }
                i += 1;
            }
            proof {
                assert(alphabet@.take(alphabet.len() as int) =~= alphabet@);
            }
            transitions.push(row);
            q += 1;
        }
        let r = NFA { alphabet, initials, finals, transitions };
        proof {
            let goal = a@.complete();
            assert(!a@.is_complete());
            if none {
                assert(a@.initials =~= Set::<int>::empty());
                assert(r@.initials =~= set![n as int]);
            } else {
                let w = choose|w: int| marked(a.initials@).contains(w);
                assert(a@.initials.contains(w));
                assert(!(a@.initials =~= Set::<int>::empty()));
                assert(r@.initials =~= a@.initials);
            }
            assert(r@.finals =~= goal.finals);
            assert forall|s: int, x: V| 0 <= s <= n implies (leaves(a_transitions[s]@, x)
                <==> a@.has_successor(s, x)) by {
                if leaves(a_transitions[s]@, x) {
                    let k = choose|k: int|
                        0 <= k < a_transitions[s]@.len() && (#[trigger] a_transitions[s]@[k]).0
                            == x;
                    let e = a_transitions[s]@[k];
                    assert(a.transitions[s]@.contains((x, e.1)));
                    assert(a@.edges.contains((s, x, e.1 as int)));
                }
                if a@.has_successor(s, x) {
                    let t = choose|t: int| #[trigger] a@.edges.contains((s, x, t));
                    let k = choose|k: int|
                        0 <= k < a.transitions[s]@.len() && a.transitions[s]@[k] == (
                            x,
                            t as usize,
                        );
                    assert(a_transitions[s]@[k].0 == x);
                }
            }
            assert forall|e: (int, V, int)| r@.edges.contains(e) <==> goal.edges.contains(e) by {
                if 0 <= e.0 <= n && 0 <= e.2 <= usize::MAX {
                    let t = e.2 as usize;
                    assert(r.transitions[e.0]@.contains((e.1, t)) <==> (
                    a_transitions[e.0]@.contains((e.1, t)) || (t == n && r.alphabet@.contains(e.1)
                        && !leaves(a_transitions[e.0]@, e.1))));
                    assert(leaves(a_transitions[e.0]@, e.1) <==> a@.has_successor(e.0, e.1));
                    if e.0 == n {
                        assert(!a_transitions[e.0]@.contains((e.1, t)));
                    }
                }
            }
            assert(r@.edges =~= goal.edges);
            assert forall|s: int, x: V, t: usize|
                0 <= s < n + 1 && #[trigger] r.transitions[s]@.contains((x, t)) implies t < n + 1
                && r.alphabet@.contains(x) by {
                if a_transitions[s]@.contains((x, t)) {
                    assert(s < n);
                    assert(a.transitions[s]@.contains((x, t)));
                }
            }
            r.lemma_wf_by_rows((n + 1) as int);
        }
        r
    }

    /// The automaton itself, as a copy.
    pub fn to_nfa(&self) -> (r: NFA<V>)
        requires
            self.wf(),
        ensures
            r.wf(),
            r@ == self@,
    {
        self.copy()
    }

    /// A copy of the automaton.
    pub fn copy(&self) -> (r: NFA<V>)
        requires
            self.wf(),
        ensures
            r.wf(),
            r@ == self@,
    {
        let mut transitions: Vec<Vec<(V, usize)>> = Vec::new();
        let mut q: usize = 0;
        while q < self.transitions.len()
            invariant
                self.wf(),
                q <= self.transitions.len(),
                transitions.len() == q,
                forall|s: int, a: V, t: usize|
                    0 <= s < q ==> ((#[trigger] transitions[s]@.contains((a, t)))
                        <==> self.transitions[s]@.contains((a, t))),
            decreases self.transitions.len() - q,
        {
            let mut row: Vec<(V, usize)> = Vec::new();
            push_edges(&mut row, &self.transitions[q], 0);
            transitions.push(row);
            q += 1;
        }
        let r = NFA {
            alphabet: copy_symbols(&self.alphabet),
            initials: copy_flags(&self.initials),
            finals: copy_flags(&self.finals),
            transitions,
        };
        proof {
            assert(r@.edges =~= self@.edges);
            r.lemma_wf_by_rows(self.transitions.len() as int);
        }
        r
    }

    /// The representation is well formed once its flags have the right
    /// length and every edge that a row holds is in bounds.
    pub(crate) proof fn lemma_wf_by_rows(&self, n: int)
        requires
            self.alphabet@.no_duplicates(),
            n == self.transitions.len(),
            self.initials.len() == n,
            self.finals.len() == n,
            forall|q: int, a: V, t: usize|
                0 <= q < n && #[trigger] self.transitions[q]@.contains((a, t)) ==> t < n
                    && self.alphabet@.contains(a),
        ensures
            self.wf(),
    {
        assert forall|q: int, k: int|
            0 <= q < self.transitions.len() && 0 <= k < self.transitions[q].len() implies (
        #[trigger] self.transitions[q][k]).1 < self.transitions.len() && self.alphabet@.contains(
            self.transitions[q][k].0,
        ) by {
            let e = self.transitions[q][k];
            assert(self.transitions[q]@.contains((e.0, e.1)));
        }
    }

    /// Every edge that a row of a well-formed automaton holds is in bounds.
    pub(crate) proof fn lemma_rows_by_wf(&self)
        requires
            self.wf(),
        ensures
            forall|q: int, a: V, t: usize|
                0 <= q < self.transitions.len() && #[trigger] self.transitions[q]@.contains((a, t))
                    ==> t < self.transitions.len() && self.alphabet@.contains(a),
    {
        assert forall|q: int, a: V, t: usize|
            0 <= q < self.transitions.len() && #[trigger] self.transitions[q]@.contains(
                (a, t),
            ) implies t < self.transitions.len() && self.alphabet@.contains(a) by {
            let k = choose|k: int|
                0 <= k < self.transitions[q].len() && self.transitions[q][k] == (a, t);
            assert(self.transitions[q][k].1 < self.transitions.len());
        }
    }
}

} // verus!
