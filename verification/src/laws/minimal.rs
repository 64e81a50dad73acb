//! Reversing and making deterministic, twice, gives a minimal automaton:
//! every state is reached, no two states accept the same words, and some
//! word is accepted from every state unless there is one state only. No
//! deterministic automaton for the same words has fewer states.
use crate::determinism::{inhabited, is_subset_automaton, lemma_subset_automaton_wf, meets};
use crate::laws::reverse::{lemma_reverse_twice, lemma_reverse_walk, lemma_reverse_wf};
use crate::laws::walks::{lemma_walk_in_bounds, lemma_walk_join, lemma_walk_prefix, lemma_walk_suffix};
use crate::model::{lemma_after_is_walks, lemma_walk_pop, DfaModel, NfaModel};
use vstd::prelude::*;

verus! {

impl<V> DfaModel<V> {
    /// The automaton accepts `w` from the state `q`: the walk from `q` that
    /// reads `w` exists and ends in a final state.
    pub open spec fn accepts_from(self, q: int, w: Seq<V>) -> bool {
        exists|f: int| self.finals.contains(f) && #[trigger] self.to_nfa().links(q, w, f)
    }

    /// Some word is accepted from one of the states `p` and `q` and not from
    /// the other.
    pub open spec fn told_apart(self, p: int, q: int) -> bool {
        exists|w: Seq<V>| #[trigger] self.accepts_from(p, w) != self.accepts_from(q, w)
    }

    /// No two states accept the same words.
    pub open spec fn distinguished(self) -> bool {
        forall|p: int, q: int| 0 <= p < q < self.size ==> #[trigger] self.told_apart(p, q)
    }

    /// Some word is accepted from the state `q`.
    pub open spec fn is_live(self, q: int) -> bool {
        exists|w: Seq<V>| #[trigger] self.accepts_from(q, w)
    }

    /// Some word is accepted from every state.
    pub open spec fn live(self) -> bool {
        forall|q: int| 0 <= q < self.size ==> #[trigger] self.is_live(q)
    }

    /// The automaton is minimal: every state is reached from the initial
    /// state, no two states accept the same words, and some word is accepted
    /// from every state, unless there is one state only.
    pub open spec fn is_minimal(self) -> bool {
        self.to_nfa().is_reachable() && self.distinguished() && (self.size == 1 || self.live())
    }

    /// `self` and `e` accept the same words.
    pub open spec fn same_words(self, e: Self) -> bool {
        forall|w: Seq<V>| self.accepts(w) <==> e.accepts(w)
    }

    /// No deterministic automaton for the same words has fewer states.
    pub open spec fn is_smallest(self) -> bool {
        forall|e: Self| e.wf() && #[trigger] self.same_words(e) ==> self.size <= e.size
    }

    /// A word that leads from the initial state to the state `q`.
    pub open spec fn way_to(self, q: int) -> Seq<V> {
        choose|u: Seq<V>| self.to_nfa().links(self.initial, u, q)
    }

    /// The state of `e` that the word leading to the state `q` of `self`
    /// leads to.
    pub open spec fn twin(self, e: Self, q: int) -> int {
        choose|t: int| e.to_nfa().links(e.initial, self.way_to(q), t)
    }
}

/// Two walks of a deterministic automaton from one state that read one word
/// end in one state.
pub proof fn lemma_deterministic_walks<V>(
    d: DfaModel<V>,
    p1: Seq<int>,
    p2: Seq<int>,
    w: Seq<V>,
)
    requires
        d.deterministic(),
        d.to_nfa().is_walk(p1, w),
        d.to_nfa().is_walk(p2, w),
        p1[0] == p2[0],
    ensures
        p1.last() == p2.last(),
    decreases w.len(),
{
    if w.len() > 0 {
        lemma_walk_pop(d.to_nfa(), p1, w);
        lemma_walk_pop(d.to_nfa(), p2, w);
        lemma_deterministic_walks(d, p1.drop_last(), p2.drop_last(), w.drop_last());
        assert(d.edges.contains((p1.drop_last().last(), w.last(), p1.last())));
        assert(d.edges.contains((p2.drop_last().last(), w.last(), p2.last())));
    }
}

/// The sets of a subset automaton hold states only.
pub proof fn lemma_subsets_in_bounds<V>(
    n: NfaModel<V>,
    d: DfaModel<V>,
    subs: Seq<Set<int>>,
    t: int,
    x: int,
)
    requires
        n.wf(),
        is_subset_automaton(n, d, subs),
        0 <= t < subs.len(),
        subs[t].contains(x),
    ensures
        0 <= x < n.size,
{
    if t > 0 {
        assert(crate::determinism::found_earlier(n, subs, t));
        let (j, a) = choose|j: int, a: V|
            0 <= j < t && n.alphabet.contains(a) && subs[t] =~= #[trigger] n.step(subs[j], a);
        assert(n.step(subs[j], a).contains(x));
        let q = choose|q: int| subs[j].contains(q) && #[trigger] n.edges.contains((q, a, x));
    }
}

/// Where a subset automaton is after reading `w` from the state `from`: in
/// the state that stands for the set of states reached from the set of
/// `from`, or nowhere where that set is empty and `w` is not.
pub proof fn lemma_subset_run_from<V>(
    n: NfaModel<V>,
    d: DfaModel<V>,
    subs: Seq<Set<int>>,
    from: int,
    w: Seq<V>,
) -> (j: int)
    requires
        is_subset_automaton(n, d, subs),
        0 <= from < subs.len(),
    ensures
        (w.len() == 0 || inhabited(n.after(subs[from], w))) ==> (0 <= j < subs.len() && subs[j]
            =~= n.after(subs[from], w) && d.to_nfa().after(set![from], w) =~= set![j]),
        (w.len() > 0 && !inhabited(n.after(subs[from], w))) ==> d.to_nfa().after(set![from], w)
            =~= Set::<int>::empty(),
    decreases w.len(),
{
    let dn = d.to_nfa();
    if w.len() == 0 {
        from
    } else {
        let w0 = w.drop_last();
        let a = w.last();
        let j0 = lemma_subset_run_from(n, d, subs, from, w0);
        let s0 = n.after(subs[from], w0);
        let s = n.after(subs[from], w);
        let d0 = dn.after(set![from], w0);
        let d1 = dn.after(set![from], w);
        if inhabited(s) {
            let q = choose|q: int| s.contains(q);
            let p = choose|p: int| s0.contains(p) && #[trigger] n.edges.contains((p, a, q));
            assert(inhabited(s0));
            assert(inhabited(n.step(subs[j0], a)));
            assert(dn.has_successor(j0, a));
            let t = choose|t: int| #[trigger] dn.edges.contains((j0, a, t));
            assert(d.edges.contains((j0, a, t)));
            lemma_subset_automaton_wf(n, d, subs);
            assert forall|x: int| d1.contains(x) <==> x == t by {
                if d1.contains(x) {
                    let y = choose|y: int| d0.contains(y) && #[trigger] dn.edges.contains((y, a, x));
                    assert(d.edges.contains((j0, a, x)));
                }
                if x == t {
                    assert(d0.contains(j0) && dn.edges.contains((j0, a, t)));
                }
            }
            t
        } else {
            assert forall|x: int| !d1.contains(x) by {
                if d1.contains(x) {
                    let y = choose|y: int| d0.contains(y) && #[trigger] dn.edges.contains((y, a, x));
                    if w0.len() == 0 || inhabited(s0) {
                        assert(y == j0);
                        assert(d.edges.contains((j0, a, x)));
                        assert(inhabited(subs[x]));
                        let q = choose|q: int| subs[x].contains(q);
                        assert(s.contains(q));
                    }
                }
            }
            0
        }
    }
}

/// A subset automaton accepts a word from a state exactly when a state of
/// the set of that state leads, by the word, to a final state.
pub proof fn lemma_subset_accepts_from<V>(
    n: NfaModel<V>,
    d: DfaModel<V>,
    subs: Seq<Set<int>>,
    from: int,
    w: Seq<V>,
)
    requires
        is_subset_automaton(n, d, subs),
        0 <= from < subs.len(),
    ensures
        d.accepts_from(from, w) <==> meets(n.after(subs[from], w), n.finals),
{
    let dn = d.to_nfa();
    let j = lemma_subset_run_from(n, d, subs, from, w);
    let s = n.after(subs[from], w);
    let d1 = dn.after(set![from], w);
    if d.accepts_from(from, w) {
        let f = choose|f: int| d.finals.contains(f) && #[trigger] dn.links(from, w, f);
        lemma_after_is_walks(dn, set![from], w, f);
        assert(set![from].contains(from) && dn.links(from, w, f));
        assert(d1.contains(f));
        if w.len() > 0 && !inhabited(s) {
            assert(false);
        }
        assert(f == j);
        assert(meets(subs[j], n.finals));
        let q = choose|q: int| subs[j].contains(q) && n.finals.contains(q);
        assert(s.contains(q) && n.finals.contains(q));
    }
    if meets(s, n.finals) {
        let q = choose|q: int| s.contains(q) && n.finals.contains(q);
        assert(inhabited(s));
        assert(subs[j].contains(q));
        assert(meets(subs[j], n.finals));
        assert(d.finals.contains(j));
        assert(d1.contains(j));
        lemma_after_is_walks(dn, set![from], w, j);
        let q0 = choose|q0: int| set![from].contains(q0) && #[trigger] dn.links(q0, w, j);
        assert(q0 == from);
        assert(d.finals.contains(j) && dn.links(from, w, j));
    }
}

/// A word that tells two sets of states of a reversed deterministic
/// automaton apart, one of which holds the reached state `x` and the other
/// does not: read from the first, it leads to a final state; read from the
/// second, it does not.
pub proof fn lemma_telling_word<V>(d: DfaModel<V>, s: Set<int>, t: Set<int>, x: int) -> (v: Seq<V>)
    requires
        d.wf(),
        d.to_nfa().reachable().contains(x),
        s.contains(x),
        !t.contains(x),
    ensures
        meets(d.to_nfa().reverse().after(s, v), d.to_nfa().reverse().finals),
        !meets(d.to_nfa().reverse().after(t, v), d.to_nfa().reverse().finals),
{
    let dn = d.to_nfa();
    let r = dn.reverse();
    let (q0, u) = choose|q0: int, u: Seq<V>| dn.initials.contains(q0) && #[trigger] dn.links(q0, u, x);
    let p = choose|p: Seq<int>| #[trigger] dn.is_walk(p, u) && p[0] == q0 && p.last() == x;
    let v = u.reverse();
    lemma_reverse_walk(dn, p, u);
    assert(r.links(x, v, q0));
    lemma_after_is_walks(r, s, v, q0);
    assert(r.after(s, v).contains(q0) && r.finals.contains(q0));
    if meets(r.after(t, v), r.finals) {
        let f = choose|f: int| r.after(t, v).contains(f) && r.finals.contains(f);
        assert(f == d.initial);
        lemma_after_is_walks(r, t, v, f);
        let y = choose|y: int| t.contains(y) && #[trigger] r.links(y, v, f);
        let p2 = choose|p2: Seq<int>| #[trigger] r.is_walk(p2, v) && p2[0] == y && p2.last() == f;
        lemma_reverse_walk(r, p2, v);
        lemma_reverse_twice(dn);
        assert(v.reverse() =~= u);
        assert(dn.is_walk(p2.reverse(), u));
        lemma_deterministic_walks(d, p, p2.reverse(), u);
        assert(y == x);
    }
    v
}

/// The subset automaton of the reverse of a deterministic automaton of which
/// every state is reached is minimal.
pub proof fn lemma_reverse_determinized_minimal<V>(
    d: DfaModel<V>,
    r: DfaModel<V>,
    subs: Seq<Set<int>>,
)
    requires
        d.wf(),
        d.to_nfa().is_reachable(),
        is_subset_automaton(d.to_nfa().reverse(), r, subs),
    ensures
        r.distinguished(),
        inhabited(subs[0]) ==> r.live(),
{
    let n = d.to_nfa().reverse();
    lemma_reverse_wf(d.to_nfa());
    if inhabited(subs[0]) {
        assert forall|t: int| 0 <= t < r.size implies #[trigger] r.is_live(t) by {
            if t > 0 {
                assert(crate::determinism::found_earlier(n, subs, t));
            }
            let x = choose|x: int| subs[t].contains(x);
            lemma_subsets_in_bounds(n, r, subs, t, x);
            assert(d.to_nfa().reachable().contains(x));
            let v = lemma_telling_word(d, subs[t], Set::<int>::empty(), x);
            lemma_subset_accepts_from(n, r, subs, t, v);
            assert(r.accepts_from(t, v));
        }
    }
    assert forall|p: int, q: int| 0 <= p < q < r.size implies #[trigger] r.told_apart(p, q) by {
        assert(!(subs[p] =~= subs[q]));
        let x = choose|x: int| subs[p].contains(x) != subs[q].contains(x);
        if subs[p].contains(x) {
            lemma_subsets_in_bounds(n, r, subs, p, x);
            assert(d.to_nfa().reachable().contains(x));
            let v = lemma_telling_word(d, subs[p], subs[q], x);
            lemma_subset_accepts_from(n, r, subs, p, v);
            lemma_subset_accepts_from(n, r, subs, q, v);
            assert(r.accepts_from(p, v) != r.accepts_from(q, v));
        } else {
            lemma_subsets_in_bounds(n, r, subs, q, x);
            assert(d.to_nfa().reachable().contains(x));
            let v = lemma_telling_word(d, subs[q], subs[p], x);
            lemma_subset_accepts_from(n, r, subs, p, v);
            lemma_subset_accepts_from(n, r, subs, q, v);
            assert(r.accepts_from(p, v) != r.accepts_from(q, v));
        }
    }
}

/// The automaton of one state is minimal where that state is reached.
pub proof fn lemma_one_state_minimal<V>(alphabet: Set<V>)
    ensures
        DfaModel::empty(alphabet).is_minimal(),
{
    let d = DfaModel::empty(alphabet).to_nfa();
    crate::model::lemma_links_self(d, 0);
    assert(d.initials.contains(0));
    assert(d.reachable().contains(0));
}

/// In a deterministic automaton, a word that goes on from a word leading to
/// the state `q` is accepted exactly when what it adds is accepted from `q`.
pub proof fn lemma_accepts_by_state<V>(d: DfaModel<V>, u: Seq<V>, q: int, v: Seq<V>)
    requires
        d.deterministic(),
        d.to_nfa().links(d.initial, u, q),
    ensures
        d.accepts(u + v) <==> d.accepts_from(q, v),
{
    let n = d.to_nfa();
    let p1 = choose|p: Seq<int>| #[trigger] n.is_walk(p, u) && p[0] == d.initial && p.last() == q;
    let w = u + v;
    if d.accepts(w) {
        let p = choose|p: Seq<int>| #[trigger]
            n.is_walk(p, w) && n.initials.contains(p[0]) && n.finals.contains(p.last());
        let k = u.len() as int;
        lemma_walk_prefix(n, p, w, k);
        lemma_walk_suffix(n, p, w, k);
        assert(w.take(k) =~= u);
        assert(w.skip(k) =~= v);
        lemma_deterministic_walks(d, p1, p.take(k + 1), u);
        assert(p.take(k + 1).last() == p[k]);
        assert(d.finals.contains(p.last()) && n.links(q, v, p.last()));
    }
    if d.accepts_from(q, v) {
        let f = choose|f: int| d.finals.contains(f) && #[trigger] n.links(q, v, f);
        let p2 = choose|p: Seq<int>| #[trigger] n.is_walk(p, v) && p[0] == q && p.last() == f;
        lemma_walk_join(n, p1, u, p2, v);
        let p = p1 + p2.skip(1);
        assert(n.is_walk(p, w) && n.initials.contains(p[0]) && n.finals.contains(p.last()));
    }
}

/// No function sends the numbers below `n` to numbers below `m`, each to
/// another, unless `n` is at most `m`.
pub proof fn lemma_one_to_one_bound(f: spec_fn(int) -> int, n: nat, m: nat)
    requires
        forall|i: int| 0 <= i < n ==> 0 <= #[trigger] f(i) < m,
        forall|i: int, j: int| 0 <= i < j < n ==> #[trigger] f(i) != #[trigger] f(j),
    ensures
        n <= m,
    decreases n,
{
    if n > 0 {
        let y = f(n - 1);
        let g = |i: int|
            if f(i) > y {
                f(i) - 1
            } else {
                f(i)
            };
        assert forall|i: int| 0 <= i < n - 1 implies 0 <= #[trigger] g(i) < m - 1 by {
            assert(f(i) != f(n - 1));
        }
        assert forall|i: int, j: int| 0 <= i < j < n - 1 implies #[trigger] g(i) != #[trigger] g(
            j,
        ) by {
            assert(f(i) != f(j));
            assert(f(i) != f(n - 1));
            assert(f(j) != f(n - 1));
        }
        lemma_one_to_one_bound(g, (n - 1) as nat, (m - 1) as nat);
    }
}

/// The state of `e` that stands for a state of a minimal automaton `d` for
/// the same words: it is a state of `e`, the word leading to the state of `d`
/// leads to it, and the same words are accepted from the two.
pub proof fn lemma_twin<V>(d: DfaModel<V>, e: DfaModel<V>, q: int, w: Seq<V>)
    requires
        d.wf(),
        e.wf(),
        d.to_nfa().is_reachable(),
        d.live(),
        forall|w: Seq<V>| d.accepts(w) <==> e.accepts(w),
        0 <= q < d.size,
    ensures
        0 <= d.twin(e, q) < e.size,
        d.accepts_from(q, w) <==> e.accepts_from(d.twin(e, q), w),
{
    let dn = d.to_nfa();
    let en = e.to_nfa();
    assert(dn.reachable().contains(q));
    let (q0, u0) = choose|q0: int, u: Seq<V>| dn.initials.contains(q0) && #[trigger] dn.links(q0, u, q);
    assert(dn.links(d.initial, u0, q));
    let u = d.way_to(q);
    assert(d.is_live(q));
    let v = choose|v: Seq<V>| #[trigger] d.accepts_from(q, v);
    lemma_accepts_by_state(d, u, q, v);
    assert(e.accepts(u + v));
    let p = choose|p: Seq<int>| #[trigger]
        en.is_walk(p, u + v) && en.initials.contains(p[0]) && en.finals.contains(p.last());
    let k = u.len() as int;
    lemma_walk_prefix(en, p, u + v, k);
    assert((u + v).take(k) =~= u);
    assert(en.links(e.initial, u, p[k]));
    let t = d.twin(e, q);
    assert(en.links(e.initial, u, t));
    let pt = choose|pt: Seq<int>| #[trigger] en.is_walk(pt, u) && pt[0] == e.initial && pt.last() == t;
    assert(en.initials.contains(e.initial));
    lemma_walk_in_bounds(en, pt, u);
    lemma_accepts_by_state(d, u, q, w);
    lemma_accepts_by_state(e, u, t, w);
}

/// No deterministic automaton for the words of a minimal automaton has fewer
/// states than it.
pub proof fn lemma_minimal_is_smallest<V>(d: DfaModel<V>, e: DfaModel<V>)
    requires
        d.wf(),
        e.wf(),
        d.is_minimal(),
        d.same_words(e),
    ensures
        d.size <= e.size,
{
    assert(e.to_nfa().initials.contains(e.initial));
    if d.size != 1 {
        let f = |q: int| d.twin(e, q);
        assert forall|q: int| 0 <= q < d.size implies 0 <= #[trigger] f(q) < e.size by {
            lemma_twin(d, e, q, Seq::<V>::empty());
        }
        assert forall|p: int, q: int| 0 <= p < q < d.size implies #[trigger] f(p) != #[trigger] f(
            q,
        ) by {
            assert(d.told_apart(p, q));
            let w = choose|w: Seq<V>| #[trigger] d.accepts_from(p, w) != d.accepts_from(q, w);
            lemma_twin(d, e, p, w);
            lemma_twin(d, e, q, w);
        }
        lemma_one_to_one_bound(f, d.size, e.size);
    }
}

/// A minimal automaton is a smallest one for its words.
pub proof fn lemma_minimal_smallest<V>(d: DfaModel<V>)
    requires
        d.wf(),
        d.is_minimal(),
    ensures
        d.is_smallest(),
{
    assert forall|e: DfaModel<V>| e.wf() && #[trigger] d.same_words(e) implies d.size
        <= e.size by {
        lemma_minimal_is_smallest(d, e);
    }
}

} // verus!
