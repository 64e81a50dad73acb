//! The language of a concatenation.
use crate::language::in_concat;
use crate::laws::walks::{
    lemma_walk_in_larger, lemma_walk_join, lemma_walk_prefix, lemma_walk_stays,
    lemma_walk_suffix,
};
use crate::model::NfaModel;
use vstd::prelude::*;

verus! {

/// The concatenation of two well-formed automata is well formed.
pub proof fn lemma_concatenate_wf<V>(a: NfaModel<V>, b: NfaModel<V>)
    requires
        a.wf(),
        b.wf(),
    ensures
        a.concatenate(b).wf(),
{
    let c = a.concatenate(b);
    let n = a.size as int;
    assert forall|q: int, x: V, t: int| #[trigger] c.edges.contains((q, x, t)) implies 0 <= q
        < c.size && 0 <= t < c.size && c.alphabet.contains(x) by {
        if a.edges.contains((q, x, t)) {
        } else if b.edges.contains((q - n, x, t - n)) {
        } else {
            assert(a.finals.contains(q) && b.starts_on(x, t - n));
            let i = choose|i: int| b.initials.contains(i) && #[trigger] b.edges.contains((i, x, t - n));
        }
    }
}

/// An automaton of which an initial state is final accepts the empty word,
/// and the other way round.
pub proof fn lemma_accepts_empty<V>(m: NfaModel<V>)
    ensures
        m.accepts_empty() <==> m.accepts(Seq::<V>::empty()),
{
    let e = Seq::<V>::empty();
    if m.accepts_empty() {
        let q = choose|q: int| m.initials.contains(q) && m.finals.contains(q);
        let p = seq![q];
        assert(m.is_walk(p, e));
    }
    if m.accepts(e) {
        let p = choose|p: Seq<int>| #[trigger]
            m.is_walk(p, e) && m.initials.contains(p[0]) && m.finals.contains(p.last());
        assert(p[0] == p.last());
    }
}

/// The first place from `i` on at which the walk is at or beyond `n`, where
/// it is so at `h`.
pub proof fn lemma_first_beyond(p: Seq<int>, n: int, i: int, h: int) -> (j: int)
    requires
        0 <= i <= h < p.len(),
        p[h] >= n,
        forall|x: int| 0 <= x < i ==> p[x] < n,
    ensures
        i <= j <= h,
        p[j] >= n,
        forall|x: int| 0 <= x < j ==> p[x] < n,
    decreases h - i,
{
    if p[i] >= n {
        i
    } else {
        lemma_first_beyond(p, n, i + 1, h)
    }
}

/// A walk of `b`, moved up, is a walk of the concatenation.
pub proof fn lemma_concatenate_right_walk<V>(
    a: NfaModel<V>,
    b: NfaModel<V>,
    p: Seq<int>,
    w: Seq<V>,
)
    requires
        b.is_walk(p, w),
    ensures
        a.concatenate(b).is_walk(p.map_values(|q: int| q + a.size), w),
{
    let c = a.concatenate(b);
    let p2 = p.map_values(|q: int| q + a.size);
    assert forall|k: int| 0 <= k < w.len() implies c.edges.contains(
        (p2[k], #[trigger] w[k], p2[k + 1]),
    ) by {
        assert(b.edges.contains((p[k], w[k], p[k + 1])));
        assert(b.edges.contains((p2[k] - a.size, w[k], p2[k + 1] - a.size)));
    }
}

/// The concatenation accepts a word of the first followed by a word of the
/// second.
pub proof fn lemma_concatenate_accepts<V>(a: NfaModel<V>, b: NfaModel<V>, u: Seq<V>, v: Seq<V>)
    requires
        a.wf(),
        b.wf(),
        a.accepts(u),
        b.accepts(v),
    ensures
        a.concatenate(b).accepts(u + v),
{
    let c = a.concatenate(b);
    let n = a.size as int;
    let pa = choose|p: Seq<int>| #[trigger]
        a.is_walk(p, u) && a.initials.contains(p[0]) && a.finals.contains(p.last());
    let pb = choose|p: Seq<int>| #[trigger]
        b.is_walk(p, v) && b.initials.contains(p[0]) && b.finals.contains(p.last());
    lemma_walk_in_larger(a, c, pa, u);
    if v.len() == 0 {
        assert(pb[0] == pb.last());
        assert(b.accepts_empty());
        assert(u + v =~= u);
        assert(c.finals.contains(pa.last()));
    } else {
        let hi = pb.map_values(|q: int| q + n);
        lemma_concatenate_right_walk(a, b, pb, v);
        lemma_walk_suffix(c, hi, v, 1);
        let tail = hi.skip(1);
        let v0 = seq![v[0]];
        let bridge = seq![pa.last(), tail[0]];
        assert(b.edges.contains((pb[0], v[0], pb[1])));
        assert(b.starts_on(v[0], tail[0] - n));
        assert(c.edges.contains((pa.last(), v[0], tail[0])));
        assert(c.is_walk(bridge, v0));
        lemma_walk_join(c, pa, u, bridge, v0);
        let p1 = pa + bridge.skip(1);
        lemma_walk_join(c, p1, u + v0, tail, v.skip(1));
        let p = p1 + tail.skip(1);
        assert(v0 + v.skip(1) =~= v);
        assert((u + v0) + v.skip(1) =~= u + v);
        assert(b.finals.contains(p.last() - n));
        assert(c.finals.contains(p.last()));
        assert(c.is_walk(p, u + v) && c.initials.contains(p[0]));
    }
}

/// A word that the concatenation accepts is a word of the first followed by
/// a word of the second.
pub proof fn lemma_concatenate_splits<V>(a: NfaModel<V>, b: NfaModel<V>, w: Seq<V>) -> (k: int)
    requires
        a.wf(),
        b.wf(),
        a.concatenate(b).accepts(w),
    ensures
        0 <= k <= w.len(),
        a.accepts(w.take(k)),
        b.accepts(w.skip(k)),
{
    let c = a.concatenate(b);
    let n = a.size as int;
    let p = choose|p: Seq<int>| #[trigger]
        c.is_walk(p, w) && c.initials.contains(p[0]) && c.finals.contains(p.last());
    let high = Set::new(|q: int| n <= q);
    assert forall|q: int, x: V, t: int|
        high.contains(q) && #[trigger] c.edges.contains((q, x, t)) implies high.contains(t) by {
        if a.edges.contains((q, x, t)) {
        } else if b.edges.contains((q - n, x, t - n)) {
        } else {
            assert(a.finals.contains(q));
        }
    }
    assert forall|q: int, x: V, t: int|
        q < n && t < n && #[trigger] c.edges.contains((q, x, t)) implies a.edges.contains(
        (q, x, t),
    ) by {
        if a.edges.contains((q, x, t)) {
        } else if b.edges.contains((q - n, x, t - n)) {
        } else {
            assert(b.starts_on(x, t - n));
            let i = choose|i: int| b.initials.contains(i) && #[trigger] b.edges.contains((i, x, t - n));
        }
    }
    if p.last() < n {
        assert forall|i: int| 0 <= i <= w.len() implies p[i] < n by {
            if p[i] >= n {
                lemma_walk_stays(c, high, p, w, i, w.len() as int);
            }
        }
        assert forall|i: int| 0 <= i < w.len() implies a.edges.contains(
            (p[i], #[trigger] w[i], p[i + 1]),
        ) by {
            assert(c.edges.contains((p[i], w[i], p[i + 1])));
        }
        assert(a.is_walk(p, w));
        if !a.finals.contains(p.last()) || !b.accepts_empty() {
            if b.accepts_empty() {
                assert(b.finals.contains(p.last() - n));
            } else {
                assert(b.finals.contains(p.last() - n));
            }
        }
        lemma_accepts_empty(b);
        assert(w.take(w.len() as int) =~= w);
        assert(w.skip(w.len() as int) =~= Seq::<V>::empty());
        w.len() as int
    } else {
        let j = lemma_first_beyond(p, n, 0, w.len() as int);
        assert(j > 0);
        let k = j - 1;
        assert(c.edges.contains((p[k], w[k], p[k + 1])));
        assert(!a.edges.contains((p[k], w[k], p[j])));
        assert(!b.edges.contains((p[k] - n, w[k], p[j] - n)));
        assert(a.finals.contains(p[k]) && b.starts_on(w[k], p[j] - n));
        let ib = choose|i: int| b.initials.contains(i) && #[trigger] b.edges.contains((i, w[k], p[j] - n));
        // the part in `a`
        lemma_walk_prefix(c, p, w, k);
        let pa = p.take(k + 1);
        let u = w.take(k);
        assert forall|i: int| 0 <= i < u.len() implies a.edges.contains(
            (pa[i], #[trigger] u[i], pa[i + 1]),
        ) by {
            assert(c.edges.contains((pa[i], u[i], pa[i + 1])));
        }
        assert(a.is_walk(pa, u));
        assert(a.accepts(u));
        // the part in `b`
        let v = w.skip(k);
        let pb = seq![ib] + p.skip(j).map_values(|q: int| q - n);
        assert(pb.len() == v.len() + 1);
        assert forall|i: int| 0 <= i < v.len() implies b.edges.contains(
            (pb[i], #[trigger] v[i], pb[i + 1]),
        ) by {
            if i == 0 {
                assert(pb[1] == p[j] - n);
            } else {
                assert(pb[i] == p[k + i] - n);
                assert(pb[i + 1] == p[k + i + 1] - n);
                lemma_walk_stays(c, high, p, w, j, k + i);
                lemma_walk_stays(c, high, p, w, j, k + i + 1);
                assert(c.edges.contains((p[k + i], w[k + i], p[k + i + 1])));
                if a.edges.contains((p[k + i], w[k + i], p[k + i + 1])) {
                } else if b.edges.contains((p[k + i] - n, w[k + i], p[k + i + 1] - n)) {
                } else {
                    assert(a.finals.contains(p[k + i]));
                }
            }
        }
        assert(b.is_walk(pb, v));
        assert(pb.last() == p.last() - n);
        assert(b.finals.contains(pb.last()));
        assert(b.accepts(v));
        k
    }
}

/// The concatenation accepts exactly the words that are a word of the first
/// followed by a word of the second.
pub proof fn lemma_concatenate_language<V>(a: NfaModel<V>, b: NfaModel<V>, w: Seq<V>)
    requires
        a.wf(),
        b.wf(),
    ensures
        a.concatenate(b).accepts(w) <==> in_concat(a.language(), b.language(), w),
{
    let c = a.concatenate(b);
    if c.accepts(w) {
        let k = lemma_concatenate_splits(a, b, w);
        assert(a.language()(w.take(k)) && b.language()(w.skip(k)));
    }
    if in_concat(a.language(), b.language(), w) {
        let k = choose|k: int|
            0 <= k <= w.len() && a.language()(#[trigger] w.take(k)) && b.language()(w.skip(k));
        lemma_concatenate_accepts(a, b, w.take(k), w.skip(k));
        assert(w.take(k) + w.skip(k) =~= w);
    }
}

} // verus!
