//! The language of a union.
use crate::laws::walks::{lemma_walk_in_larger, lemma_walk_stays};
use crate::model::NfaModel;
use vstd::prelude::*;

verus! {

/// The union of two well-formed automata is well formed.
pub proof fn lemma_unite_wf<V>(a: NfaModel<V>, b: NfaModel<V>)
    requires
        a.wf(),
        b.wf(),
    ensures
        a.unite(b).wf(),
{
    let c = a.unite(b);
    assert forall|q: int, x: V, t: int| #[trigger] c.edges.contains((q, x, t)) implies 0 <= q
        < c.size && 0 <= t < c.size && c.alphabet.contains(x) by {
        if a.edges.contains((q, x, t)) {
        } else {
            assert(b.edges.contains((q - a.size, x, t - a.size)));
        }
    }
}

/// A walk of `b`, moved up, is a walk of the union.
pub proof fn lemma_unite_right_walk<V>(a: NfaModel<V>, b: NfaModel<V>, p: Seq<int>, w: Seq<V>)
    requires
        b.is_walk(p, w),
    ensures
        a.unite(b).is_walk(p.map_values(|q: int| q + a.size), w),
{
    let c = a.unite(b);
    let p2 = p.map_values(|q: int| q + a.size);
    assert forall|k: int| 0 <= k < w.len() implies c.edges.contains(
        (p2[k], #[trigger] w[k], p2[k + 1]),
    ) by {
        assert(b.edges.contains((p[k], w[k], p[k + 1])));
        assert(b.edges.contains((p2[k] - a.size, w[k], p2[k + 1] - a.size)));
    }
}

/// The union accepts exactly the words that one of the two accepts.
pub proof fn lemma_unite_language<V>(a: NfaModel<V>, b: NfaModel<V>, w: Seq<V>)
    requires
        a.wf(),
        b.wf(),
    ensures
        a.unite(b).accepts(w) <==> (a.accepts(w) || b.accepts(w)),
{
    let c = a.unite(b);
    let n = a.size as int;
    if a.accepts(w) {
        let p = choose|p: Seq<int>| #[trigger]
            a.is_walk(p, w) && a.initials.contains(p[0]) && a.finals.contains(p.last());
        lemma_walk_in_larger(a, c, p, w);
    }
    if b.accepts(w) {
        let p = choose|p: Seq<int>| #[trigger]
            b.is_walk(p, w) && b.initials.contains(p[0]) && b.finals.contains(p.last());
        lemma_unite_right_walk(a, b, p, w);
        let p2 = p.map_values(|q: int| q + a.size);
        assert(b.initials.contains(p2[0] - n));
        assert(b.finals.contains(p2.last() - n));
        assert(c.is_walk(p2, w) && c.initials.contains(p2[0]) && c.finals.contains(p2.last()));
    }
    if c.accepts(w) {
        let p = choose|p: Seq<int>| #[trigger]
            c.is_walk(p, w) && c.initials.contains(p[0]) && c.finals.contains(p.last());
        let low = Set::new(|q: int| 0 <= q < n);
        let high = Set::new(|q: int| n <= q);
        assert forall|q: int, x: V, t: int|
            low.contains(q) && #[trigger] c.edges.contains((q, x, t)) implies low.contains(t) by {
            if !a.edges.contains((q, x, t)) {
                assert(b.edges.contains((q - n, x, t - n)));
            }
        }
        assert forall|q: int, x: V, t: int|
            high.contains(q) && #[trigger] c.edges.contains((q, x, t)) implies high.contains(
            t,
        ) by {
            if !a.edges.contains((q, x, t)) {
                assert(b.edges.contains((q - n, x, t - n)));
            }
        }
        if p[0] < n {
            assert(a.initials.contains(p[0])) by {
                if !a.initials.contains(p[0]) {
                    assert(b.initials.contains(p[0] - n));
                }
            }
            assert forall|k: int| 0 <= k < w.len() implies a.edges.contains(
                (p[k], #[trigger] w[k], p[k + 1]),
            ) by {
                lemma_walk_stays(c, low, p, w, 0, k);
                assert(c.edges.contains((p[k], w[k], p[k + 1])));
                if !a.edges.contains((p[k], w[k], p[k + 1])) {
                    assert(b.edges.contains((p[k] - n, w[k], p[k + 1] - n)));
                }
            }
            lemma_walk_stays(c, low, p, w, 0, w.len() as int);
            if !a.finals.contains(p.last()) {
                assert(b.finals.contains(p.last() - n));
            }
            assert(a.is_walk(p, w));
        } else {
            let p2 = p.map_values(|q: int| q - n);
            assert(b.initials.contains(p2[0]));
            assert forall|k: int| 0 <= k < w.len() implies b.edges.contains(
                (p2[k], #[trigger] w[k], p2[k + 1]),
            ) by {
                lemma_walk_stays(c, high, p, w, 0, k);
                assert(c.edges.contains((p[k], w[k], p[k + 1])));
            }
            lemma_walk_stays(c, high, p, w, 0, w.len() as int);
            assert(b.finals.contains(p2.last()));
            assert(b.is_walk(p2, w));
        }
    }
}

} // verus!
