//! The language of a star.
use crate::language::{in_power, in_star};
use crate::laws::walks::{lemma_walk_in_larger, lemma_walk_join, lemma_walk_suffix};
use crate::model::{lemma_walk_push, NfaModel};
use vstd::prelude::*;

verus! {

/// The star of a well-formed automaton is well formed.
pub proof fn lemma_kleene_wf<V>(a: NfaModel<V>)
    requires
        a.wf(),
    ensures
        a.kleene().wf(),
{
    let c = a.kleene();
    assert forall|q: int, x: V, t: int| #[trigger] c.edges.contains((q, x, t)) implies 0 <= q
        < c.size && 0 <= t < c.size && c.alphabet.contains(x) by {
        if !a.edges.contains((q, x, t)) {
            let i = choose|i: int| a.initials.contains(i) && #[trigger] a.edges.contains((i, x, t));
        }
    }
}

/// From the new state and from every final state, the star reads a word of
/// the automaton and ends in a final state.
pub proof fn lemma_kleene_restart<V>(a: NfaModel<V>, f: int, y: Seq<V>) -> (p: Seq<int>)
    requires
        a.wf(),
        f == a.size || a.finals.contains(f),
        a.accepts(y),
        y.len() > 0,
    ensures
        a.kleene().is_walk(p, y),
        p[0] == f,
        a.finals.contains(p.last()),
{
    let c = a.kleene();
    let pa = choose|p: Seq<int>| #[trigger]
        a.is_walk(p, y) && a.initials.contains(p[0]) && a.finals.contains(p.last());
    lemma_walk_in_larger(a, c, pa, y);
    lemma_walk_suffix(c, pa, y, 1);
    let tail = pa.skip(1);
    let y0 = seq![y[0]];
    let first = seq![f, tail[0]];
    assert(a.edges.contains((pa[0], y[0], pa[1])));
    assert(a.starts_on(y[0], tail[0]));
    assert(c.edges.contains((f, y[0], tail[0])));
    assert(c.is_walk(first, y0));
    lemma_walk_join(c, first, y0, tail, y.skip(1));
    assert(y0 + y.skip(1) =~= y);
    first + tail.skip(1)
}

/// The star accepts every concatenation of words of the automaton.
pub proof fn lemma_kleene_accepts<V>(a: NfaModel<V>, m: nat, w: Seq<V>) -> (p: Seq<int>)
    requires
        a.wf(),
        in_power(a.language(), m, w),
    ensures
        a.kleene().is_walk(p, w),
        p[0] == a.size,
        a.kleene().finals.contains(p.last()),
    decreases m,
{
    let c = a.kleene();
    if m == 0 {
        let p = seq![a.size as int];
        assert(c.is_walk(p, w));
        p
    } else {
        let k = choose|k: int|
            0 <= k <= w.len() && in_power(a.language(), (m - 1) as nat, #[trigger] w.take(k))
                && a.language()(w.skip(k));
        let x = w.take(k);
        let y = w.skip(k);
        let px = lemma_kleene_accepts(a, (m - 1) as nat, x);
        if y.len() == 0 {
            assert(x =~= w);
            px
        } else {
            let py = lemma_kleene_restart(a, px.last(), y);
            lemma_walk_join(c, px, x, py, y);
            assert(x + y =~= w);
            px + py.skip(1)
        }
    }
}

/// How far a walk of the star from the new state has got: the word read so
/// far is some words of the automaton followed by what a walk of the
/// automaton from an initial state to the present state reads.
pub open spec fn star_progress<V>(a: NfaModel<V>, p: Seq<int>, w: Seq<V>, i: int, j: int) -> bool {
    &&& 0 <= j < i
    &&& in_star(a.language(), w.take(j))
    &&& exists|ia: int| a.initials.contains(ia) && #[trigger] a.links(ia, w.subrange(j, i), p[i])
}

/// One more word of the automaton at the end of a concatenation of such
/// words.
pub proof fn lemma_star_snoc<V>(l: spec_fn(Seq<V>) -> bool, x: Seq<V>, y: Seq<V>)
    requires
        in_star(l, x),
        l(y),
    ensures
        in_star(l, x + y),
{
    let m = choose|m: nat| #[trigger] in_power(l, m, x);
    let w = x + y;
    assert(w.take(x.len() as int) =~= x);
    assert(w.skip(x.len() as int) =~= y);
    assert(in_power(l, m + 1, w));
}

/// Every state that a walk of the star passes after the first is a state of
/// the automaton, and the walk has got somewhere.
pub proof fn lemma_kleene_progress<V>(a: NfaModel<V>, p: Seq<int>, w: Seq<V>, i: int) -> (j: int)
    requires
        a.wf(),
        a.kleene().is_walk(p, w),
        p[0] == a.size,
        1 <= i <= w.len(),
    ensures
        0 <= p[i] < a.size,
        star_progress(a, p, w, i, j),
    decreases i,
{
    let c = a.kleene();
    let n = a.size as int;
    let e = (p[i - 1], w[i - 1], p[i]);
    assert(c.edges.contains((p[i - 1], w[i - 1], p[i - 1 + 1])));
    if i == 1 {
        assert(!a.edges.contains(e));
        assert(a.starts_on(e.1, e.2));
        let ia = choose|ia: int| a.initials.contains(ia) && #[trigger] a.edges.contains((ia, e.1, e.2));
        let pa = seq![ia, p[1]];
        assert(w.subrange(0, 1) =~= seq![w[0]]);
        assert(a.is_walk(pa, w.subrange(0, 1)));
        assert(a.links(ia, w.subrange(0, 1), p[1]));
        assert(w.take(0) =~= Seq::<V>::empty());
        assert(in_power(a.language(), 0, w.take(0)));
        0
    } else {
        let j0 = lemma_kleene_progress(a, p, w, i - 1);
        let ia0 = choose|ia: int|
            a.initials.contains(ia) && #[trigger] a.links(ia, w.subrange(j0, i - 1), p[i - 1]);
        if a.edges.contains(e) {
            let pa = choose|pa: Seq<int>| #[trigger]
                a.is_walk(pa, w.subrange(j0, i - 1)) && pa[0] == ia0 && pa.last() == p[i - 1];
            lemma_walk_push(a, pa, w.subrange(j0, i - 1), w[i - 1], p[i]);
            assert(w.subrange(j0, i - 1).push(w[i - 1]) =~= w.subrange(j0, i));
            assert(a.links(ia0, w.subrange(j0, i), p[i]));
            j0
        } else {
            assert(a.finals.contains(p[i - 1]) && a.starts_on(e.1, e.2));
            let pa = choose|pa: Seq<int>| #[trigger]
                a.is_walk(pa, w.subrange(j0, i - 1)) && pa[0] == ia0 && pa.last() == p[i - 1];
            assert(a.accepts(w.subrange(j0, i - 1)));
            lemma_star_snoc(a.language(), w.take(j0), w.subrange(j0, i - 1));
            assert(w.take(j0) + w.subrange(j0, i - 1) =~= w.take(i - 1));
            let ia = choose|ia: int| a.initials.contains(ia) && #[trigger] a.edges.contains((ia, e.1, e.2));
            let pb = seq![ia, p[i]];
            assert(w.subrange(i - 1, i) =~= seq![w[i - 1]]);
            assert(a.is_walk(pb, w.subrange(i - 1, i)));
            assert(a.links(ia, w.subrange(i - 1, i), p[i]));
            i - 1
        }
    }
}

/// The star accepts exactly the concatenations of words of the automaton.
pub proof fn lemma_kleene_language<V>(a: NfaModel<V>, w: Seq<V>)
    requires
        a.wf(),
    ensures
        a.kleene().accepts(w) <==> in_star(a.language(), w),
{
    let c = a.kleene();
    if in_star(a.language(), w) {
        let m = choose|m: nat| #[trigger] in_power(a.language(), m, w);
        let p = lemma_kleene_accepts(a, m, w);
        assert(c.is_walk(p, w) && c.initials.contains(p[0]) && c.finals.contains(p.last()));
    }
    if c.accepts(w) {
        let p = choose|p: Seq<int>| #[trigger]
            c.is_walk(p, w) && c.initials.contains(p[0]) && c.finals.contains(p.last());
        if w.len() == 0 {
            assert(in_power(a.language(), 0, w));
        } else {
            let i = w.len() as int;
            let j = lemma_kleene_progress(a, p, w, i);
            let ia = choose|ia: int|
                a.initials.contains(ia) && #[trigger] a.links(ia, w.subrange(j, i), p[i]);
            let pa = choose|pa: Seq<int>| #[trigger]
                a.is_walk(pa, w.subrange(j, i)) && pa[0] == ia && pa.last() == p[i];
            assert(a.finals.contains(p[i]));
            assert(a.accepts(w.subrange(j, i)));
            lemma_star_snoc(a.language(), w.take(j), w.subrange(j, i));
            assert(w.take(j) + w.subrange(j, i) =~= w);
        }
    }
}

} // verus!
