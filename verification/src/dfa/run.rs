//! Reading a word with a deterministic automaton, and completing and
//! complementing one.
use crate::dfa::DFA;
use crate::model::{lemma_accepts_by_after, DfaModel};
use crate::nfa::closure::{leaves, push_edges};
use crate::nfa::run::lemma_after_dies;
use crate::nfa::search::leaves_on;
use crate::sets::lemma_push_contains;
use crate::symbol::Symbol;
use vstd::prelude::*;

verus! {

/// The target of the first edge of `row` that is labelled `a`.
pub fn target_on<V: Symbol>(row: &Vec<(V, usize)>, a: V) -> (r: Option<usize>)
    ensures
        match r {
            Some(t) => row@.contains((a, t)),
            None => !leaves(row@, a),
        },
{
    let mut k: usize = 0;
    while k < row.len()
        invariant
            k <= row.len(),
            forall|j: int| 0 <= j < k ==> (#[trigger] row[j]).0 != a,
        decreases row.len() - k,
    {
        if row[k].0.same(&a) {
            proof {
                assert(row@[k as int] == (a, row[k as int].1));
            }
            return Some(row[k].1);
        }
        k += 1;
    }
    None
}

/// In a deterministic automaton, one edge from `q` on `a` to `t` makes `t`
/// the only successor.
pub proof fn lemma_step_single<V>(d: DfaModel<V>, q: int, a: V, t: int)
    requires
        d.deterministic(),
        d.edges.contains((q, a, t)),
    ensures
        d.to_nfa().step(set![q], a) =~= set![t],
{
    let m = d.to_nfa();
    assert forall|x: int| m.step(set![q], a).contains(x) <==> x == t by {
        if m.step(set![q], a).contains(x) {
            let s = choose|s: int| set![q].contains(s) && #[trigger] m.edges.contains((s, a, x));
            assert(d.edges.contains((q, a, x)));
        }
        if x == t {
            assert(set![q].contains(q) && m.edges.contains((q, a, t)));
        }
    }
}

/// Without an edge from `q` on `a`, nothing follows.
pub proof fn lemma_step_none<V>(d: DfaModel<V>, q: int, a: V)
    requires
        !d.to_nfa().has_successor(q, a),
    ensures
        d.to_nfa().step(set![q], a) =~= Set::<int>::empty(),
{
    let m = d.to_nfa();
    assert forall|x: int| !m.step(set![q], a).contains(x) by {
        if m.step(set![q], a).contains(x) {
            let s = choose|s: int| set![q].contains(s) && #[trigger] m.edges.contains((s, a, x));
            assert(m.edges.contains((q, a, x)));
        }
    }
}

impl<V: Symbol> DFA<V> {
    /// An edge labelled `a` leaves `q` exactly when the row of `q` holds one.
    pub(crate) proof fn lemma_leaves(&self, q: int, a: V)
        requires
            0 <= q < self.transitions.len(),
        ensures
            leaves(self.transitions[q]@, a) <==> self@.to_nfa().has_successor(q, a),
    {
        let row = self.transitions[q]@;
        if leaves(row, a) {
            let k = choose|k: int| 0 <= k < row.len() && (#[trigger] row[k]).0 == a;
            assert(row.contains((a, row[k].1)));
            assert(self@.edges.contains((q, a, row[k].1 as int)));
        }
        if self@.to_nfa().has_successor(q, a) {
            let t = choose|t: int| #[trigger] self@.to_nfa().edges.contains((q, a, t));
            let k = choose|k: int| 0 <= k < row.len() && row[k] == (a, t as usize);
            assert(row[k].0 == a);
        }
    }

    /// Whether the automaton accepts `word`: whether the walk from the
    /// initial state that reads it exists and ends in a final state.
    pub fn run(&self, word: &[V]) -> (r: bool)
        requires
            self.wf(),
        ensures
            r == self@.accepts(word@),
    {
        let mut cur = self.initial;
        let mut i: usize = 0;
        let ghost m = self@.to_nfa();
        proof {
            self.lemma_model_wf();
            assert(word@.take(0) =~= Seq::<V>::empty());
        }
        while i < word.len()
            invariant
                self.wf(),
                self@.wf(),
                m == self@.to_nfa(),
                i <= word.len(),
                cur < self.transitions.len(),
                m.after(m.initials, word@.take(i as int)) =~= set![cur as int],
            decreases word.len() - i,
        {
            let a = word[i];
            proof {
                let w1 = word@.take(i as int + 1);
                assert(w1.drop_last() =~= word@.take(i as int));
                assert(w1.last() == a);
            }
            match target_on(&self.transitions[cur], a) {
                Some(t) => {
                    proof {
                        assert(self@.edges.contains((cur as int, a, t as int)));
                        lemma_step_single(self@, cur as int, a, t as int);
                    }
                    cur = t;
                },
                None => {
                    proof {
                        self.lemma_leaves(cur as int, a);
                        lemma_step_none(self@, cur as int, a);
                        lemma_after_dies(m, word@, i as int + 1);
                        lemma_accepts_by_after(m, word@);
                    }
                    return false;
                },
            }
            i += 1;
        }
        proof {
            assert(word@.take(word.len() as int) =~= word@);
            lemma_accepts_by_after(m, word@);
            if self.finals[cur as int] {
                assert(m.after(m.initials, word@).contains(cur as int) && m.finals.contains(
                    cur as int,
                ));
            }
        }
        self.finals[cur]
    }

    /// Whether every state has a successor on every symbol of the alphabet.
    pub fn is_complete(&self) -> (r: bool)
        requires
            self.wf(),
        ensures
            r == self@.is_complete(),
    {
        let n = self.transitions.len();
        let mut q: usize = 0;
        while q < n
            invariant
                self.wf(),
                n == self.transitions.len(),
                q <= n,
                forall|s: int, a: V|
                    0 <= s < q && self@.alphabet.contains(a) ==> #[trigger] self@.to_nfa().has_successor(
                        s,
                        a,
                    ),
            decreases n - q,
        {
            let mut i: usize = 0;
            while i < self.alphabet.len()
                invariant
                    self.wf(),
                    n == self.transitions.len(),
                    q < n,
                    i <= self.alphabet.len(),
                    forall|j: int|
                        0 <= j < i ==> self@.to_nfa().has_successor(
                            q as int,
                            #[trigger] self.alphabet[j],
                        ),
                decreases self.alphabet.len() - i,
            {
                let a = self.alphabet[i];
                proof {
                    self.lemma_leaves(q as int, a);
                }
                if !leaves_on(&self.transitions[q], a) {
                    proof {
                        assert(self@.alphabet.contains(a));
                    }
                    return false;
                }
                i += 1;
            }
            proof {
                assert forall|a: V| self@.alphabet.contains(a) implies self@.to_nfa().has_successor(
                    q as int,
                    a,
                ) by {
                    let j = choose|j: int| 0 <= j < self.alphabet.len() && self.alphabet[j] == a;
                    assert(self@.to_nfa().has_successor(q as int, self.alphabet[j]));
                }
            }
            q += 1;
        }
        true
    }

    /// The automaton made complete. A complete automaton is returned as it
    /// is. Otherwise a sink is added, to which every state, the sink too,
    /// leads on each symbol on which it had no successor.
    pub fn complete(self) -> (r: DFA<V>)
        requires
            self.wf(),
        ensures
            r.wf(),
            r@ == self@.complete(),
            r@.is_complete(),
            forall|w: Seq<V>| r@.accepts(w) <==> self@.accepts(w),
    {
        proof {
            self.lemma_model_wf();
            crate::laws::complement::lemma_dfa_complete_as_nfa(self@);
            assert forall|w: Seq<V>| self@.complete().accepts(w) <==> self@.accepts(w) by {
                crate::laws::complete::lemma_complete_language(self@.to_nfa(), w);
            }
        }
        if self.is_complete() {
            return self;
        }
        let ghost a = self;
        let DFA { alphabet, initial, finals, transitions: a_transitions } = self;
        let mut finals = finals;
        let mut a_transitions = a_transitions;
        let n = a_transitions.len();
        finals.push(false);
        a_transitions.push(Vec::new());
        let total = finals.len();
        let mut transitions: Vec<Vec<(V, usize)>> = Vec::new();
        let mut q: usize = 0;
        while q <= n
            invariant
                q <= n + 1,
                n < usize::MAX,
                n == a.transitions.len(),
                a_transitions.len() == n + 1,
                forall|s: int| 0 <= s < n ==> a_transitions[s] == a.transitions[s],
                a_transitions[n as int]@ == Seq::<(V, usize)>::empty(),
                a.wf(),
                alphabet == a.alphabet,
                transitions.len() == q,
                forall|s: int, x: V, t: usize|
                    0 <= s < q ==> ((#[trigger] transitions[s]@.contains((x, t))) <==> (
                    a_transitions[s]@.contains((x, t)) || (t == n && alphabet@.contains(x)
                        && !leaves(a_transitions[s]@, x)))),
            decreases n + 1 - q,
        {
            let old_row = &a_transitions[q];
            let mut row: Vec<(V, usize)> = Vec::new();
            push_edges(&mut row, old_row, 0);
            let mut i: usize = 0;
            while i < alphabet.len()
                invariant
                    i <= alphabet.len(),
                    q <= n,
                    old_row == a_transitions[q as int],
                    forall|x: V, t: usize|
                        row@.contains((x, t)) <==> (old_row@.contains((x, t)) || (t == n
                            && alphabet@.take(i as int).contains(x) && !leaves(old_row@, x))),
                decreases alphabet.len() - i,
            {
                let x = alphabet[i];
                let ghost before = row@;
                let missing = !leaves_on(old_row, x);
                if missing {
                    row.push((x, n));
                }
                proof {
                    assert(alphabet@.take(i as int + 1) =~= alphabet@.take(i as int).push(x));
                    assert forall|y: V, t: usize|
                        row@.contains((y, t)) <==> (old_row@.contains((y, t)) || (t == n
                            && alphabet@.take(i as int + 1).contains(y) && !leaves(
                            old_row@,
                            y,
                        ))) by {
                        lemma_push_contains(before, (x, n), (y, t));
                        lemma_push_contains(alphabet@.take(i as int), x, y);
                    }
                }
                i += 1;
            }
            proof {
                assert(alphabet@.take(alphabet.len() as int) =~= alphabet@);
            }
            transitions.push(row);
            q += 1;
        }
        let r = DFA { alphabet, initial, finals, transitions };
        proof {
            let goal = a@.complete();
            assert(!a@.is_complete());
            assert(r@.finals =~= goal.finals);
            assert forall|s: int, x: V| 0 <= s <= n implies (leaves(a_transitions[s]@, x)
                <==> a@.to_nfa().has_successor(s, x)) by {
                if s < n {
                    a.lemma_leaves(s, x);
                } else {
                    if a@.to_nfa().has_successor(s, x) {
                        let t = choose|t: int| #[trigger] a@.to_nfa().edges.contains((s, x, t));
                    }
                    if leaves(a_transitions[s]@, x) {
                        let k = choose|k: int|
                            0 <= k < a_transitions[s]@.len() && (
                            #[trigger] a_transitions[s]@[k]).0 == x;
                    }
                }
            }
            assert forall|e: (int, V, int)| r@.edges.contains(e) <==> goal.edges.contains(e) by {
                if 0 <= e.0 <= n && 0 <= e.2 <= usize::MAX {
                    let t = e.2 as usize;
                    assert(r.transitions[e.0]@.contains((e.1, t)) <==> (
                    a_transitions[e.0]@.contains((e.1, t)) || (t == n && r.alphabet@.contains(e.1)
                        && !leaves(a_transitions[e.0]@, e.1))));
                    assert(leaves(a_transitions[e.0]@, e.1) <==> a@.to_nfa().has_successor(
                        e.0,
                        e.1,
                    ));
                    if e.0 == n {
                        assert(!a_transitions[e.0]@.contains((e.1, t)));
                    }
                }
            }
            assert(r@.edges =~= goal.edges);
            assert forall|s: int, k: int|
                0 <= s < r.transitions.len() && 0 <= k < r.transitions[s].len() implies (
            #[trigger] r.transitions[s][k]).1 < r.transitions.len() && r.alphabet@.contains(
                r.transitions[s][k].0,
            ) by {
                let e = r.transitions[s][k];
                assert(r.transitions[s]@.contains((e.0, e.1)));
                if a_transitions[s]@.contains((e.0, e.1)) {
                    let j = choose|j: int|
                        0 <= j < a_transitions[s]@.len() && a_transitions[s]@[j] == (e.0, e.1);
                    assert(a.transitions[s][j].1 < n);
                }
            }
            assert forall|s: int, j: int, k: int|
                0 <= s < r.transitions.len() && 0 <= j < r.transitions[s].len() && 0 <= k
                    < r.transitions[s].len() && (#[trigger] r.transitions[s][j]).0 == (
                #[trigger] r.transitions[s][k]).0 implies r.transitions[s][j].1
                == r.transitions[s][k].1 by {
                let e1 = r.transitions[s][j];
                let e2 = r.transitions[s][k];
                assert(r.transitions[s]@.contains((e1.0, e1.1)));
                assert(r.transitions[s]@.contains((e2.0, e2.1)));
                if a_transitions[s]@.contains((e1.0, e1.1)) {
                    let j1 = choose|i: int|
                        0 <= i < a_transitions[s]@.len() && a_transitions[s]@[i] == (e1.0, e1.1);
                    assert(a_transitions[s]@[j1].0 == e1.0);
                    assert(leaves(a_transitions[s]@, e1.0));
                }
                if a_transitions[s]@.contains((e2.0, e2.1)) {
                    let j2 = choose|i: int|
                        0 <= i < a_transitions[s]@.len() && a_transitions[s]@[i] == (e2.0, e2.1);
                    assert(a_transitions[s]@[j2].0 == e2.0);
                    assert(leaves(a_transitions[s]@, e2.0));
                }
                if a_transitions[s]@.contains((e1.0, e1.1)) && a_transitions[s]@.contains(
                    (e2.0, e2.1),
                ) {
                    let j1 = choose|i: int|
                        0 <= i < a_transitions[s]@.len() && a_transitions[s]@[i] == (e1.0, e1.1);
                    let j2 = choose|i: int|
                        0 <= i < a_transitions[s]@.len() && a_transitions[s]@[i] == (e2.0, e2.1);
                    assert(a.transitions[s][j1].0 == a.transitions[s][j2].0);
                }
            }
        }
        r
    }

    /// The automaton that accepts the words over the alphabet that `self`
    /// does not accept: `self` made complete, with the final states exchanged
    /// for the others.
    pub fn negate(self) -> (r: DFA<V>)
        requires
            self.wf(),
        ensures
            r.wf(),
            r@ == self@.negate(),
            r@.alphabet == self@.alphabet,
            forall|w: Seq<V>|
                r@.accepts(w) <==> (crate::language::word_over(self@.alphabet, w)
                    && !self@.accepts(w)),
    {
        let ghost a = self;
        proof {
            a.lemma_model_wf();
            assert forall|w: Seq<V>|
                a@.negate().accepts(w) <==> (crate::language::word_over(a@.alphabet, w)
                    && !a@.accepts(w)) by {
                crate::laws::complement::lemma_dfa_negate_language(a@, w);
            }
        }
        let c = self.complete();
        let DFA { alphabet, initial, finals: c_finals, transitions } = c;
        let n = c_finals.len();
        let mut finals: Vec<bool> = Vec::new();
        let mut q: usize = 0;
        while q < n
            invariant
                q <= n,
                n == c_finals.len(),
                finals.len() == q,
                forall|s: int| 0 <= s < q ==> finals[s] == !c_finals[s],
            decreases n - q,
        {
            finals.push(!c_finals[q]);
            q += 1;
        }
        let r = DFA { alphabet, initial, finals, transitions };
        proof {
            assert(r@.finals =~= a@.negate().finals);
        }
        r
    }
}

} // verus!
