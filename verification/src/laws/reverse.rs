//! Reversal: the language read backwards, and reversing twice.
use crate::model::NfaModel;
use vstd::prelude::*;

verus! {

/// The reversed automaton is well formed.
pub proof fn lemma_reverse_wf<V>(m: NfaModel<V>)
    requires
        m.wf(),
    ensures
        m.reverse().wf(),
{
    let r = m.reverse();
    assert forall|q: int, a: V, t: int| #[trigger] r.edges.contains((q, a, t)) implies 0 <= q
        < r.size && 0 <= t < r.size && r.alphabet.contains(a) by {
        assert(m.edges.contains((t, a, q)));
    }
}

/// Reversing twice gives the automaton back.
pub proof fn lemma_reverse_twice<V>(m: NfaModel<V>)
    ensures
        m.reverse().reverse() == m,
{
    let r = m.reverse().reverse();
    assert forall|e: (int, V, int)| r.edges.contains(e) <==> m.edges.contains(e) by {
        assert(m.reverse().edges.contains((e.2, e.1, e.0)) <==> m.edges.contains((e.0, e.1, e.2)));
    }
    assert(r.edges =~= m.edges);
}

/// A walk read backwards is a walk of the reversed automaton.
pub proof fn lemma_reverse_walk<V>(m: NfaModel<V>, p: Seq<int>, w: Seq<V>)
    requires
        m.is_walk(p, w),
    ensures
        m.reverse().is_walk(p.reverse(), w.reverse()),
        p.reverse()[0] == p.last(),
        p.reverse().last() == p[0],
{
    let r = m.reverse();
    let p2 = p.reverse();
    let w2 = w.reverse();
    let len = w.len() as int;
    assert forall|k: int| 0 <= k < w2.len() implies r.edges.contains(
        (p2[k], #[trigger] w2[k], p2[k + 1]),
    ) by {
        assert(p2[k] == p[len - k]);
        assert(p2[k + 1] == p[len - k - 1]);
        assert(w2[k] == w[len - 1 - k]);
        assert(m.edges.contains((p[len - 1 - k], w[len - 1 - k], p[len - 1 - k + 1])));
    }
}

/// The reversed automaton accepts a word exactly when the automaton accepts
/// the word read backwards.
pub proof fn lemma_reverse_language<V>(m: NfaModel<V>, w: Seq<V>)
    ensures
        m.reverse().accepts(w) <==> m.accepts(w.reverse()),
{
    let r = m.reverse();
    if r.accepts(w) {
        let p = choose|p: Seq<int>| #[trigger]
            r.is_walk(p, w) && r.initials.contains(p[0]) && r.finals.contains(p.last());
        lemma_reverse_walk(r, p, w);
        lemma_reverse_twice(m);
        assert(m.is_walk(p.reverse(), w.reverse()));
    }
    if m.accepts(w.reverse()) {
        let p = choose|p: Seq<int>| #[trigger]
            m.is_walk(p, w.reverse()) && m.initials.contains(p[0]) && m.finals.contains(p.last());
        lemma_reverse_walk(m, p, w.reverse());
        assert(w.reverse().reverse() =~= w);
        assert(r.is_walk(p.reverse(), w));
    }
}

} // verus!
