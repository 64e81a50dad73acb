//! Removing states that are not reached, or from which no final state is
//! reached, keeps the language.
use crate::laws::reverse::{lemma_reverse_language, lemma_reverse_wf};
use crate::laws::walks::{lemma_walk_in_bounds, lemma_walk_prefix};
use crate::model::{lemma_rank_one_to_one, lemma_rank_rises, rank, NfaModel};
use vstd::prelude::*;

verus! {

/// The automaton without its unreached states is well formed.
pub proof fn lemma_make_reachable_wf<V>(m: NfaModel<V>)
    requires
        m.wf(),
    ensures
        m.make_reachable().wf(),
        m.make_reachable().alphabet == m.alphabet,
{
    let keep = m.reachable();
    let r = m.make_reachable();
    let n = m.size as int;
    assert forall|x: int| #[trigger] r.initials.contains(x) implies 0 <= x < r.size by {
        let q = choose|q: int|
            0 <= q && keep.contains(q) && m.initials.contains(q) && #[trigger] rank(keep, q) == x;
        lemma_rank_rises(keep, q, n);
    }
    assert forall|x: int| #[trigger] r.finals.contains(x) implies 0 <= x < r.size by {
        let q = choose|q: int|
            0 <= q && keep.contains(q) && m.finals.contains(q) && #[trigger] rank(keep, q) == x;
        lemma_rank_rises(keep, q, n);
    }
    assert forall|x: int, a: V, y: int| #[trigger] r.edges.contains((x, a, y)) implies 0 <= x
        < r.size && 0 <= y < r.size && r.alphabet.contains(a) by {
        let (q, t) = choose|q: int, t: int|
            0 <= q && 0 <= t && keep.contains(q) && keep.contains(t) && m.edges.contains(
                (q, a, t),
            ) && #[trigger] rank(keep, q) == x && #[trigger] rank(keep, t) == y;
        lemma_rank_rises(keep, q, n);
        lemma_rank_rises(keep, t, n);
    }
}

/// The kept state whose rank is `x`.
pub open spec fn unrank(keep: Set<int>, x: int) -> int {
    choose|q: int| 0 <= q && keep.contains(q) && rank(keep, q) == x
}

/// The automaton without its unreached states accepts exactly the words of
/// the automaton.
pub proof fn lemma_make_reachable_language<V>(m: NfaModel<V>, w: Seq<V>)
    requires
        m.wf(),
    ensures
        m.make_reachable().accepts(w) <==> m.accepts(w),
{
    let keep = m.reachable();
    let r = m.make_reachable();
    let n = m.size as int;
    if m.accepts(w) {
        let p = choose|p: Seq<int>| #[trigger]
            m.is_walk(p, w) && m.initials.contains(p[0]) && m.finals.contains(p.last());
        lemma_walk_in_bounds(m, p, w);
        assert forall|i: int| 0 <= i < p.len() implies keep.contains(#[trigger] p[i]) by {
            lemma_walk_prefix(m, p, w, i);
        }
        let p2 = p.map_values(|q: int| rank(keep, q));
        assert forall|k: int| 0 <= k < w.len() implies r.edges.contains(
            (p2[k], #[trigger] w[k], p2[k + 1]),
        ) by {
            assert(m.edges.contains((p[k], w[k], p[k + 1])));
            assert(keep.contains(p[k]) && keep.contains(p[k + 1]));
            assert(rank(keep, p[k]) == p2[k] && rank(keep, p[k + 1]) == p2[k + 1]);
        }
        assert(r.is_walk(p2, w));
        assert(keep.contains(p[0]) && rank(keep, p[0]) == p2[0]);
        assert(r.initials.contains(p2[0]));
        assert(keep.contains(p.last()) && rank(keep, p.last()) == p2.last());
        assert(r.finals.contains(p2.last()));
    }
    if r.accepts(w) {
        let p2 = choose|p: Seq<int>| #[trigger]
            r.is_walk(p, w) && r.initials.contains(p[0]) && r.finals.contains(p.last());
        let p = p2.map_values(|x: int| unrank(keep, x));
        assert forall|k: int| 0 <= k < w.len() implies m.edges.contains(
            (p[k], #[trigger] w[k], p[k + 1]),
        ) by {
            assert(r.edges.contains((p2[k], w[k], p2[k + 1])));
            let (q, t) = choose|q: int, t: int|
                0 <= q && 0 <= t && keep.contains(q) && keep.contains(t) && m.edges.contains(
                    (q, w[k], t),
                ) && #[trigger] rank(keep, q) == p2[k] && #[trigger] rank(keep, t) == p2[k + 1];
            lemma_rank_one_to_one(keep, q, unrank(keep, p2[k]));
            lemma_rank_one_to_one(keep, t, unrank(keep, p2[k + 1]));
        }
        assert(m.is_walk(p, w));
        let q0 = choose|q: int|
            0 <= q && keep.contains(q) && m.initials.contains(q) && #[trigger] rank(keep, q)
                == p2[0];
        lemma_rank_one_to_one(keep, q0, unrank(keep, p2[0]));
        let qf = choose|q: int|
            0 <= q && keep.contains(q) && m.finals.contains(q) && #[trigger] rank(keep, q)
                == p2.last();
        lemma_rank_one_to_one(keep, qf, unrank(keep, p2.last()));
        assert(p[0] == q0 && p.last() == qf);
    }
}

/// The automaton without the states that lead nowhere is well formed.
pub proof fn lemma_make_coreachable_wf<V>(m: NfaModel<V>)
    requires
        m.wf(),
    ensures
        m.make_coreachable().wf(),
        m.make_coreachable().alphabet == m.alphabet,
{
    lemma_reverse_wf(m);
    lemma_make_reachable_wf(m.reverse());
    lemma_reverse_wf(m.reverse().make_reachable());
}

/// The automaton without the states that lead nowhere accepts exactly the
/// words of the automaton.
pub proof fn lemma_make_coreachable_language<V>(m: NfaModel<V>, w: Seq<V>)
    requires
        m.wf(),
    ensures
        m.make_coreachable().accepts(w) <==> m.accepts(w),
{
    lemma_reverse_wf(m);
    lemma_reverse_language(m.reverse().make_reachable(), w);
    lemma_make_reachable_language(m.reverse(), w.reverse());
    lemma_reverse_language(m, w.reverse());
    assert(w.reverse().reverse() =~= w);
}

/// The trimmed automaton is well formed.
pub proof fn lemma_trim_wf<V>(m: NfaModel<V>)
    requires
        m.wf(),
    ensures
        m.trim().wf(),
        m.trim().alphabet == m.alphabet,
{
    lemma_make_reachable_wf(m);
    lemma_make_coreachable_wf(m.make_reachable());
}

/// The trimmed automaton accepts exactly the words of the automaton.
pub proof fn lemma_trim_language<V>(m: NfaModel<V>, w: Seq<V>)
    requires
        m.wf(),
    ensures
        m.trim().accepts(w) <==> m.accepts(w),
{
    lemma_make_reachable_wf(m);
    lemma_make_coreachable_language(m.make_reachable(), w);
    lemma_make_reachable_language(m, w);
}

/// Completing, trimming or removing the unreached states a second time
/// leaves the language as it is after the first.
pub proof fn lemma_twice_keeps_language<V>(m: NfaModel<V>, w: Seq<V>)
    requires
        m.wf(),
    ensures
        m.complete().complete().accepts(w) <==> m.complete().accepts(w),
        m.trim().trim().accepts(w) <==> m.trim().accepts(w),
        m.make_reachable().make_reachable().accepts(w) <==> m.make_reachable().accepts(w),
        m.complete().accepts(w) <==> m.accepts(w),
        m.trim().accepts(w) <==> m.accepts(w),
        m.make_reachable().accepts(w) <==> m.accepts(w),
{
    crate::laws::complete::lemma_complete_twice(m);
    crate::laws::complete::lemma_complete_language(m, w);
    lemma_trim_wf(m);
    lemma_trim_language(m, w);
    lemma_trim_language(m.trim(), w);
    lemma_make_reachable_wf(m);
    lemma_make_reachable_language(m, w);
    lemma_make_reachable_language(m.make_reachable(), w);
}

} // verus!
