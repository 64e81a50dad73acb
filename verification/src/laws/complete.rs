//! Completion keeps the language.
use crate::laws::walks::{lemma_walk_in_larger, lemma_walk_stays};
use crate::model::NfaModel;
use vstd::prelude::*;

verus! {

/// The completed automaton is well formed and complete.
pub proof fn lemma_complete_wf<V>(m: NfaModel<V>)
    requires
        m.wf(),
    ensures
        m.complete().wf(),
        m.complete().is_complete(),
        m.complete().alphabet == m.alphabet,
{
    let c = m.complete();
    let n = m.size as int;
    if !m.is_complete() {
        if m.initials =~= Set::<int>::empty() {
            assert(c.initials.contains(n));
        } else {
            let q = choose|q: int| m.initials.contains(q);
            assert(c.initials.contains(q));
        }
        assert forall|q: int, a: V|
            0 <= q < c.size && c.alphabet.contains(a) implies #[trigger] c.has_successor(q, a) by {
            if m.has_successor(q, a) {
                let t = choose|t: int| #[trigger] m.edges.contains((q, a, t));
                assert(c.edges.contains((q, a, t)));
            } else {
                assert(c.edges.contains((q, a, n)));
            }
        }
    }
}

/// The completed automaton accepts exactly the words of the automaton.
pub proof fn lemma_complete_language<V>(m: NfaModel<V>, w: Seq<V>)
    requires
        m.wf(),
    ensures
        m.complete().accepts(w) <==> m.accepts(w),
{
    let c = m.complete();
    let n = m.size as int;
    if !m.is_complete() {
        if m.accepts(w) {
            let p = choose|p: Seq<int>| #[trigger]
                m.is_walk(p, w) && m.initials.contains(p[0]) && m.finals.contains(p.last());
            lemma_walk_in_larger(m, c, p, w);
            assert(!(m.initials =~= Set::<int>::empty()));
        }
        if c.accepts(w) {
            let p = choose|p: Seq<int>| #[trigger]
                c.is_walk(p, w) && c.initials.contains(p[0]) && c.finals.contains(p.last());
            let sink = set![n];
            assert forall|q: int, a: V, t: int|
                sink.contains(q) && #[trigger] c.edges.contains((q, a, t)) implies sink.contains(
                t,
            ) by {}
            assert forall|k: int| 0 <= k <= w.len() implies p[k] != n by {
                if p[k] == n {
                    lemma_walk_stays(c, sink, p, w, k, w.len() as int);
                }
            }
            assert forall|k: int| 0 <= k < w.len() implies m.edges.contains(
                (p[k], #[trigger] w[k], p[k + 1]),
            ) by {
                assert(c.edges.contains((p[k], w[k], p[k + 1])));
                assert(p[k + 1] != n);
            }
            assert(p[0] != n);
            assert(m.is_walk(p, w));
            if m.initials =~= Set::<int>::empty() {
                assert(c.initials.contains(p[0]));
                assert(false);
            }
        }
    }
}

/// Completing twice is completing once.
pub proof fn lemma_complete_twice<V>(m: NfaModel<V>)
    requires
        m.wf(),
    ensures
        m.complete().complete() == m.complete(),
{
    lemma_complete_wf(m);
}

/// A complete automaton is somewhere after every word over its alphabet.
pub proof fn lemma_complete_goes_on<V>(m: NfaModel<V>, w: Seq<V>) -> (t: int)
    requires
        m.wf(),
        m.is_complete(),
        crate::language::word_over(m.alphabet, w),
    ensures
        m.after(m.initials, w).contains(t),
        m.reachable().contains(t),
    decreases w.len(),
{
    if w.len() == 0 {
        let q = choose|q: int| m.initials.contains(q);
        crate::model::lemma_links_self(m, q);
        q
    } else {
        let w0 = w.drop_last();
        assert(crate::language::word_over(m.alphabet, w0)) by {
            assert forall|i: int| 0 <= i < w0.len() implies m.alphabet.contains(
                #[trigger] w0[i],
            ) by {
                assert(w0[i] == w[i]);
            }
        }
        let t0 = lemma_complete_goes_on(m, w0);
        crate::model::lemma_after_is_walks(m, m.initials, w0, t0);
        let q = choose|q: int| m.initials.contains(q) && #[trigger] m.links(q, w0, t0);
        let p = choose|p: Seq<int>| #[trigger] m.is_walk(p, w0) && p[0] == q && p.last() == t0;
        crate::laws::walks::lemma_walk_in_bounds(m, p, w0);
        assert(m.alphabet.contains(w[w.len() - 1]));
        assert(m.has_successor(t0, w.last()));
        let t = choose|t: int| #[trigger] m.edges.contains((t0, w.last(), t));
        crate::model::lemma_links_push(m, q, w0, t0, w.last(), t);
        assert(w0.push(w.last()) =~= w);
        t
    }
}

/// A complete automaton of which every reached state is final accepts every
/// word over its alphabet.
pub proof fn lemma_full_accepts_all<V>(m: NfaModel<V>, w: Seq<V>)
    requires
        m.wf(),
        m.is_complete(),
        m.is_full(),
        crate::language::word_over(m.alphabet, w),
    ensures
        m.accepts(w),
{
    let t = lemma_complete_goes_on(m, w);
    crate::model::lemma_accepts_by_after(m, w);
    assert(m.after(m.initials, w).contains(t) && m.finals.contains(t));
}

} // verus!
