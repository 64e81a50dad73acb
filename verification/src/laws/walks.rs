//! Facts about walks that the laws share.
use crate::model::NfaModel;
use vstd::prelude::*;

verus! {

/// A walk that enters a set closed under the edges stays in it.
pub proof fn lemma_walk_stays<V>(
    m: NfaModel<V>,
    closed: Set<int>,
    p: Seq<int>,
    w: Seq<V>,
    i: int,
    j: int,
)
    requires
        m.is_walk(p, w),
        0 <= i <= j <= w.len(),
        closed.contains(p[i]),
        forall|q: int, a: V, t: int|
            closed.contains(q) && #[trigger] m.edges.contains((q, a, t)) ==> closed.contains(t),
    ensures
        closed.contains(p[j]),
    decreases j - i,
{
    if i < j {
        lemma_walk_stays(m, closed, p, w, i, j - 1);
        assert(m.edges.contains((p[j - 1], w[j - 1], p[j - 1 + 1])));
    }
}

/// The start of a walk is a walk.
pub proof fn lemma_walk_prefix<V>(m: NfaModel<V>, p: Seq<int>, w: Seq<V>, i: int)
    requires
        m.is_walk(p, w),
        0 <= i <= w.len(),
    ensures
        m.is_walk(p.take(i + 1), w.take(i)),
        m.links(p[0], w.take(i), p[i]),
{
    let p2 = p.take(i + 1);
    let w2 = w.take(i);
    assert forall|k: int| 0 <= k < w2.len() implies m.edges.contains(
        (p2[k], #[trigger] w2[k], p2[k + 1]),
    ) by {
        assert(m.edges.contains((p[k], w[k], p[k + 1])));
    }
    assert(p2[0] == p[0] && p2.last() == p[i]);
}

/// The end of a walk is a walk.
pub proof fn lemma_walk_suffix<V>(m: NfaModel<V>, p: Seq<int>, w: Seq<V>, i: int)
    requires
        m.is_walk(p, w),
        0 <= i <= w.len(),
    ensures
        m.is_walk(p.skip(i), w.skip(i)),
        m.links(p[i], w.skip(i), p.last()),
{
    let p2 = p.skip(i);
    let w2 = w.skip(i);
    assert forall|k: int| 0 <= k < w2.len() implies m.edges.contains(
        (p2[k], #[trigger] w2[k], p2[k + 1]),
    ) by {
        assert(m.edges.contains((p[i + k], w[i + k], p[i + k + 1])));
    }
    assert(p2[0] == p[i] && p2.last() == p.last());
    assert(m.is_walk(p2, w2));
}

/// Two walks, the second starting where the first ends, make one walk.
pub proof fn lemma_walk_join<V>(
    m: NfaModel<V>,
    p1: Seq<int>,
    w1: Seq<V>,
    p2: Seq<int>,
    w2: Seq<V>,
)
    requires
        m.is_walk(p1, w1),
        m.is_walk(p2, w2),
        p1.last() == p2[0],
    ensures
        m.is_walk(p1 + p2.skip(1), w1 + w2),
        (p1 + p2.skip(1))[0] == p1[0],
        (p1 + p2.skip(1)).last() == p2.last(),
{
    let p = p1 + p2.skip(1);
    let w = w1 + w2;
    assert forall|k: int| 0 <= k < w.len() implies m.edges.contains(
        (p[k], #[trigger] w[k], p[k + 1]),
    ) by {
        if k < w1.len() {
            assert(m.edges.contains((p1[k], w1[k], p1[k + 1])));
        } else {
            let k2 = k - w1.len();
            assert(m.edges.contains((p2[k2], w2[k2], p2[k2 + 1])));
        }
    }
}

/// A walk in one automaton is a walk in another that has its edges.
pub proof fn lemma_walk_in_larger<V>(m: NfaModel<V>, big: NfaModel<V>, p: Seq<int>, w: Seq<V>)
    requires
        m.is_walk(p, w),
        m.edges.subset_of(big.edges),
    ensures
        big.is_walk(p, w),
{
    assert forall|k: int| 0 <= k < w.len() implies big.edges.contains(
        (p[k], #[trigger] w[k], p[k + 1]),
    ) by {
        assert(m.edges.contains((p[k], w[k], p[k + 1])));
    }
}

/// A word that a well-formed automaton reads along a walk is over its
/// alphabet, and the walk passes states only.
pub proof fn lemma_walk_in_bounds<V>(m: NfaModel<V>, p: Seq<int>, w: Seq<V>)
    requires
        m.wf(),
        m.is_walk(p, w),
        0 <= p[0] < m.size,
    ensures
        crate::language::word_over(m.alphabet, w),
        forall|i: int| 0 <= i < p.len() ==> 0 <= #[trigger] p[i] < m.size,
{
    assert forall|i: int| 0 <= i < w.len() implies m.alphabet.contains(#[trigger] w[i]) by {
        assert(m.edges.contains((p[i], w[i], p[i + 1])));
    }
    assert forall|i: int| 0 <= i < p.len() implies 0 <= #[trigger] p[i] < m.size by {
        if i > 0 {
            assert(m.edges.contains((p[i - 1], w[i - 1], p[i - 1 + 1])));
        }
    }
}

/// A well-formed automaton accepts only words over its alphabet.
pub proof fn lemma_accepted_over_alphabet<V>(m: NfaModel<V>, w: Seq<V>)
    requires
        m.wf(),
        m.accepts(w),
    ensures
        crate::language::word_over(m.alphabet, w),
{
    let p = choose|p: Seq<int>| #[trigger]
        m.is_walk(p, w) && m.initials.contains(p[0]) && m.finals.contains(p.last());
    lemma_walk_in_bounds(m, p, w);
}

} // verus!
