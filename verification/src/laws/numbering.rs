//! Subset construction has one result: the subset automaton whose states are
//! numbered in the order of discovery is determined by the automaton and the
//! order of the symbols.
use crate::determinism::{
    found_before, found_earlier, gives, in_discovery_order, inhabited, is_subset_automaton,
    numbered_by, pair_before,
};
use crate::model::{DfaModel, NfaModel};
use vstd::prelude::*;

verus! {

/// The set of the successors of a set of a subset automaton has a number
/// where it is not empty, and the edge to it is there.
pub proof fn lemma_successors_numbered<V>(
    n: NfaModel<V>,
    d: DfaModel<V>,
    subs: Seq<Set<int>>,
    j: int,
    a: V,
) -> (t: int)
    requires
        is_subset_automaton(n, d, subs),
        0 <= j < subs.len(),
        inhabited(n.step(subs[j], a)),
    ensures
        0 <= t < subs.len(),
        subs[t] == n.step(subs[j], a),
        d.edges.contains((j, a, t)),
{
    assert(d.to_nfa().has_successor(j, a));
    let t = choose|t: int| #[trigger] d.to_nfa().edges.contains((j, a, t));
    assert(d.edges.contains((j, a, t)));
    t
}

/// A pair of a set with a lower number and a place among the symbols that
/// gives the set numbered `t`.
pub proof fn lemma_giving_pair<V>(n: NfaModel<V>, letters: Seq<V>, subs: Seq<Set<int>>, t: int) -> (p:
    (int, int))
    requires
        letters.to_set() == n.alphabet,
        0 < t < subs.len(),
        found_earlier(n, subs, t),
    ensures
        0 <= p.0 < t,
        gives(n, letters, subs, p.0, p.1, t),
{
    let (j, a) = choose|j: int, a: V|
        0 <= j < t && n.alphabet.contains(a) && subs[t] =~= #[trigger] n.step(subs[j], a);
    assert(letters.to_set().contains(a));
    assert(letters.contains(a));
    let i = choose|i: int| 0 <= i < letters.len() && letters[i] == a;
    (j, i)
}

/// Two numberings of the sets in the order of discovery that agree below `t`
/// agree at `t`.
pub proof fn lemma_numbering_step<V>(
    n: NfaModel<V>,
    letters: Seq<V>,
    d1: DfaModel<V>,
    s1: Seq<Set<int>>,
    d2: DfaModel<V>,
    s2: Seq<Set<int>>,
    t: int,
)
    requires
        letters.to_set() == n.alphabet,
        is_subset_automaton(n, d1, s1),
        is_subset_automaton(n, d2, s2),
        in_discovery_order(n, letters, s1),
        in_discovery_order(n, letters, s2),
        0 <= t < s1.len(),
        t < s2.len(),
        forall|k: int| 0 <= k < t ==> s1[k] == s2[k],
    ensures
        s1[t] == s2[t],
{
    if t > 0 {
        assert(found_earlier(n, s1, t));
        assert(found_earlier(n, s2, t));
        let x = s1[t];
        let y = s2[t];
        // a pair below `t` that gives `x`, and one that gives `y`
        let px = lemma_giving_pair(n, letters, s1, t);
        let py = lemma_giving_pair(n, letters, s2, t);
        assert(s1[px.0] == s2[px.0]);
        assert(s1[py.0] == s2[py.0]);
        // `x` has a number in the second numbering, `y` in the first
        let t2 = lemma_successors_numbered(n, d2, s2, px.0, letters[px.1]);
        let t1 = lemma_successors_numbered(n, d1, s1, py.0, letters[py.1]);
        assert(s2[t2] == x);
        assert(s1[t1] == y);
        if t2 < t {
            assert(s1[t2] == s2[t2]);
            assert(s1[t2] =~= s1[t]);
            assert(false);
        }
        if t1 < t {
            assert(s1[t1] == s2[t1]);
            assert(s2[t1] =~= s2[t]);
            assert(false);
        }
        if t2 > t {
            assert(!(s2[t] =~= s2[t2]));
            if t1 == t {
                assert(false);
            }
            assert(t1 > t);
            assert(found_before(n, letters, s1, t, t1));
            assert(found_before(n, letters, s2, t, t2));
            let (j1, i1) = choose|j: int, i: int|
                #![trigger gives(n, letters, s1, j, i, t)]
                gives(n, letters, s1, j, i, t) && forall|j2: int, i2: int| #[trigger]
                    gives(n, letters, s1, j2, i2, t1) ==> pair_before(j, i, j2, i2);
            let (j2, i2) = choose|j: int, i: int|
                #![trigger gives(n, letters, s2, j, i, t)]
                gives(n, letters, s2, j, i, t) && forall|j3: int, i3: int| #[trigger]
                    gives(n, letters, s2, j3, i3, t2) ==> pair_before(j, i, j3, i3);
            // the pair that gives `y` below `t` gives it in the first numbering
            assert(gives(n, letters, s1, py.0, py.1, t1));
            assert(pair_before(j1, i1, py.0, py.1));
            assert(j1 < t);
            assert(s1[j1] == s2[j1]);
            assert(gives(n, letters, s2, j1, i1, t2));
            assert(pair_before(j2, i2, j1, i1));
            assert(j2 < t);
            assert(s1[j2] == s2[j2]);
            assert(gives(n, letters, s1, j2, i2, t1));
            assert(pair_before(j1, i1, j2, i2));
            assert(false);
        }
    }
}

/// Two numberings of the sets in the order of discovery agree as far as both
/// go.
pub proof fn lemma_numbering_agrees<V>(
    n: NfaModel<V>,
    letters: Seq<V>,
    d1: DfaModel<V>,
    s1: Seq<Set<int>>,
    d2: DfaModel<V>,
    s2: Seq<Set<int>>,
    upto: int,
)
    requires
        letters.to_set() == n.alphabet,
        is_subset_automaton(n, d1, s1),
        is_subset_automaton(n, d2, s2),
        in_discovery_order(n, letters, s1),
        in_discovery_order(n, letters, s2),
        0 <= upto <= s1.len(),
        upto <= s2.len(),
    ensures
        forall|k: int| 0 <= k < upto ==> s1[k] == s2[k],
    decreases upto,
{
    if upto > 0 {
        lemma_numbering_agrees(n, letters, d1, s1, d2, s2, upto - 1);
        lemma_numbering_step(n, letters, d1, s1, d2, s2, upto - 1);
    }
}

/// Of two numberings of the sets in the order of discovery, the second is
/// not longer than the first.
pub proof fn lemma_numbering_length<V>(
    n: NfaModel<V>,
    letters: Seq<V>,
    d1: DfaModel<V>,
    s1: Seq<Set<int>>,
    d2: DfaModel<V>,
    s2: Seq<Set<int>>,
)
    requires
        letters.to_set() == n.alphabet,
        is_subset_automaton(n, d1, s1),
        is_subset_automaton(n, d2, s2),
        in_discovery_order(n, letters, s1),
        in_discovery_order(n, letters, s2),
    ensures
        s2.len() <= s1.len(),
{
    if s1.len() < s2.len() {
        let t = s1.len() as int;
        lemma_numbering_agrees(n, letters, d1, s1, d2, s2, t);
        assert(found_earlier(n, s2, t));
        let py = lemma_giving_pair(n, letters, s2, t);
        assert(s1[py.0] == s2[py.0]);
        let t1 = lemma_successors_numbered(n, d1, s1, py.0, letters[py.1]);
        assert(s1[t1] == s2[t1]);
        assert(s2[t1] =~= s2[t]);
        assert(false);
    }
}

/// Subset construction has one result: two subset automata of `n` whose
/// states are numbered in the order of discovery, by the same order of the
/// symbols, are the same automaton, with the same sets.
pub proof fn lemma_subset_automaton_unique<V>(
    n: NfaModel<V>,
    letters: Seq<V>,
    d1: DfaModel<V>,
    s1: Seq<Set<int>>,
    d2: DfaModel<V>,
    s2: Seq<Set<int>>,
)
    requires
        numbered_by(n, d1, letters, s1),
        numbered_by(n, d2, letters, s2),
    ensures
        s1 == s2,
        d1 == d2,
{
    lemma_numbering_length(n, letters, d1, s1, d2, s2);
    lemma_numbering_length(n, letters, d2, s2, d1, s1);
    lemma_numbering_agrees(n, letters, d1, s1, d2, s2, s1.len() as int);
    assert(s1 =~= s2);
    assert(d1.finals =~= d2.finals);
    assert forall|e: (int, V, int)| d1.edges.contains(e) <==> d2.edges.contains(e) by {
        let (j, a, t) = e;
        if d1.edges.contains((j, a, t)) {
            let t2 = lemma_successors_numbered(n, d2, s2, j, a);
            if t2 != t {
                assert(s2[t2] =~= s2[t]);
            }
        }
        if d2.edges.contains((j, a, t)) {
            let t1 = lemma_successors_numbered(n, d1, s1, j, a);
            if t1 != t {
                assert(s1[t1] =~= s1[t]);
            }
        }
    }
    assert(d1.edges =~= d2.edges);
}

} // verus!
