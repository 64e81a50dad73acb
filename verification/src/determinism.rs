//! What it means for a deterministic automaton to be the subset automaton of
//! a nondeterministic one, with its states numbered in the order of
//! discovery, and why the two then accept the same words.
use crate::model::{lemma_accepts_by_after, DfaModel, NfaModel};
use vstd::prelude::*;

verus! {

/// Some state is in `s`.
pub open spec fn inhabited(s: Set<int>) -> bool {
    exists|q: int| s.contains(q)
}

/// Some state is in both `s` and `f`.
pub open spec fn meets(s: Set<int>, f: Set<int>) -> bool {
    exists|q: int| s.contains(q) && f.contains(q)
}

/// The set numbered `t` is not empty, and is the set of the successors, on
/// some symbol, of a set with a lower number.
pub open spec fn found_earlier<V>(n: NfaModel<V>, subs: Seq<Set<int>>, t: int) -> bool {
    &&& inhabited(subs[t])
    &&& exists|j: int, a: V|
        0 <= j < t && n.alphabet.contains(a) && subs[t] =~= #[trigger] n.step(subs[j], a)
}

/// `d` is the subset automaton of `n`, its state `j` standing for the set
/// `subs[j]` of states of `n`.
///
/// State 0 stands for the initial states; different states stand for
/// different sets; a state is final where its set holds a final state; the
/// successor of a state on a symbol stands for the set of the successors of
/// its set, and is there exactly when that set is not empty; and every state
/// but the first is the successor of a state with a lower number.
pub open spec fn is_subset_automaton<V>(
    n: NfaModel<V>,
    d: DfaModel<V>,
    subs: Seq<Set<int>>,
) -> bool {
    &&& d.alphabet == n.alphabet
    &&& d.size == subs.len()
    &&& subs.len() > 0
    &&& d.initial == 0
    &&& subs[0] =~= n.initials
    &&& forall|i: int, j: int|
        0 <= i < j < subs.len() ==> !(#[trigger] subs[i] =~= #[trigger] subs[j])
    &&& forall|j: int| #[trigger]
        d.finals.contains(j) <==> 0 <= j < subs.len() && meets(subs[j], n.finals)
    &&& forall|j: int, a: V, t: int| #[trigger]
        d.edges.contains((j, a, t)) ==> 0 <= j < subs.len() && 0 <= t < subs.len()
            && n.alphabet.contains(a) && subs[t] =~= n.step(subs[j], a) && inhabited(subs[t])
    &&& forall|j: int, a: V|
        0 <= j < subs.len() && inhabited(#[trigger] n.step(subs[j], a))
            ==> d.to_nfa().has_successor(j, a)
    &&& forall|t: int| 0 < t < subs.len() ==> #[trigger] found_earlier(n, subs, t)
}

/// The set numbered `t` is the set of the successors of the set numbered `j`
/// on the symbol at place `i`.
pub open spec fn gives<V>(
    n: NfaModel<V>,
    letters: Seq<V>,
    subs: Seq<Set<int>>,
    j: int,
    i: int,
    t: int,
) -> bool {
    0 <= j < subs.len() && 0 <= i < letters.len() && subs[t] =~= n.step(subs[j], letters[i])
}

/// The pair of the set `j1` and the place `i1` comes before the pair of `j2`
/// and `i2`, when the sets are taken in the order of their numbers and, for
/// each set, the symbols in their order.
pub open spec fn pair_before(j1: int, i1: int, j2: int, i2: int) -> bool {
    j1 < j2 || (j1 == j2 && i1 < i2)
}

/// Some pair that gives the set numbered `s` comes before every pair that
/// gives the set numbered `t`.
pub open spec fn found_before<V>(
    n: NfaModel<V>,
    letters: Seq<V>,
    subs: Seq<Set<int>>,
    s: int,
    t: int,
) -> bool {
    exists|j: int, i: int|
        #![trigger gives(n, letters, subs, j, i, s)]
        gives(n, letters, subs, j, i, s) && forall|j2: int, i2: int| #[trigger]
            gives(n, letters, subs, j2, i2, t) ==> pair_before(j, i, j2, i2)
}

/// The sets are numbered in the order in which they are found: the sets are
/// taken in the order of their numbers and, for each, the symbols in the
/// order `letters`; the set of the successors gets the next number where it
/// is not empty and has none yet.
pub open spec fn in_discovery_order<V>(n: NfaModel<V>, letters: Seq<V>, subs: Seq<Set<int>>) -> bool {
    forall|s: int, t: int| 0 < s < t < subs.len() ==> #[trigger] found_before(n, letters, subs, s, t)
}

/// `d` is the subset automaton of `n` with its states numbered in the order
/// of discovery, by the symbols in the order `letters`, and `subs` are the
/// sets that its states stand for.
pub open spec fn numbered_by<V>(
    n: NfaModel<V>,
    d: DfaModel<V>,
    letters: Seq<V>,
    subs: Seq<Set<int>>,
) -> bool {
    &&& letters.to_set() == n.alphabet
    &&& is_subset_automaton(n, d, subs)
    &&& in_discovery_order(n, letters, subs)
}

/// `d` is what making `n` deterministic gives: the subset automaton of `n`,
/// its states numbered in the order of discovery by some order of the
/// symbols; and, where `n` accepts no word, the automaton of one state that
/// is not final and has no edge.
pub open spec fn is_determinized<V>(n: NfaModel<V>, d: DfaModel<V>) -> bool {
    if n.is_empty() {
        d == DfaModel::empty(n.alphabet)
    } else {
        exists|letters: Seq<V>, subs: Seq<Set<int>>| numbered_by(n, d, letters, subs)
    }
}

/// `r` is the complement that is built from `n`: `n` made deterministic and
/// complete, with the final states exchanged for the others.
pub open spec fn is_negated<V>(n: NfaModel<V>, r: NfaModel<V>) -> bool {
    exists|d: DfaModel<V>| d.wf() && #[trigger] is_determinized(n, d) && r == d.negate().to_nfa()
}

/// `r` is the intersection that is built from `a` and `b`: the complement of
/// the union of their complements.
pub open spec fn is_intersected<V>(a: NfaModel<V>, b: NfaModel<V>, r: NfaModel<V>) -> bool {
    exists|na: NfaModel<V>, nb: NfaModel<V>|
        na.wf() && nb.wf() && #[trigger] is_negated(a, na) && #[trigger] is_negated(b, nb)
            && is_negated(na.unite(nb), r)
}

/// A subset automaton is deterministic and well formed.
pub proof fn lemma_subset_automaton_wf<V>(n: NfaModel<V>, d: DfaModel<V>, subs: Seq<Set<int>>)
    requires
        is_subset_automaton(n, d, subs),
    ensures
        d.wf(),
{
    assert forall|q: int, a: V, t1: int, t2: int|
        #[trigger] d.edges.contains((q, a, t1)) && #[trigger] d.edges.contains(
            (q, a, t2),
        ) implies t1 == t2 by {
        assert(subs[t1] =~= subs[t2]);
        if t1 < t2 {
            assert(!(subs[t1] =~= subs[t2]));
        }
        if t2 < t1 {
            assert(!(subs[t2] =~= subs[t1]));
        }
    }
}

/// Every state of a subset automaton is reached from its initial state.
pub proof fn lemma_subset_reachable<V>(
    n: NfaModel<V>,
    d: DfaModel<V>,
    subs: Seq<Set<int>>,
    t: int,
)
    requires
        is_subset_automaton(n, d, subs),
        0 <= t < subs.len(),
    ensures
        d.to_nfa().reachable().contains(t),
    decreases t,
{
    let dn = d.to_nfa();
    if t == 0 {
        crate::model::lemma_links_self(dn, 0);
        assert(dn.initials.contains(0));
    } else {
        assert(found_earlier(n, subs, t));
        let (j, a) = choose|j: int, a: V|
            0 <= j < t && n.alphabet.contains(a) && subs[t] =~= #[trigger] n.step(subs[j], a);
        lemma_subset_reachable(n, d, subs, j);
        assert(inhabited(subs[t]));
        let q0 = choose|q0: int| subs[t].contains(q0);
        assert(n.step(subs[j], a).contains(q0));
        assert(inhabited(n.step(subs[j], a)));
        assert(dn.has_successor(j, a));
        let x = choose|x: int| #[trigger] dn.edges.contains((j, a, x));
        assert(d.edges.contains((j, a, x)));
        assert(subs[x] =~= subs[t]);
        if x < t {
            assert(!(subs[x] =~= subs[t]));
        }
        if t < x {
            assert(!(subs[t] =~= subs[x]));
        }
        let (q, w) = choose|q: int, w: Seq<V>|
            dn.initials.contains(q) && #[trigger] dn.links(q, w, j);
        crate::model::lemma_links_push(dn, q, w, j, a, t);
    }
}

/// Where a subset automaton is after reading `w`: in the state that stands
/// for the set of states that the nondeterministic automaton may be in, or
/// nowhere where that set is empty and `w` is not.
pub proof fn lemma_subset_run<V>(
    n: NfaModel<V>,
    d: DfaModel<V>,
    subs: Seq<Set<int>>,
    w: Seq<V>,
) -> (j: int)
    requires
        is_subset_automaton(n, d, subs),
    ensures
        (w.len() == 0 || inhabited(n.after(n.initials, w))) ==> (0 <= j < subs.len() && subs[j]
            =~= n.after(n.initials, w) && d.to_nfa().after(set![0int], w) =~= set![j]),
        (w.len() > 0 && !inhabited(n.after(n.initials, w))) ==> d.to_nfa().after(set![0int], w)
            =~= Set::<int>::empty(),
    decreases w.len(),
{
    let dn = d.to_nfa();
    if w.len() == 0 {
        0
    } else {
        let w0 = w.drop_last();
        let a = w.last();
        let j0 = lemma_subset_run(n, d, subs, w0);
        let s0 = n.after(n.initials, w0);
        let s = n.after(n.initials, w);
        let d0 = dn.after(set![0int], w0);
        let d1 = dn.after(set![0int], w);
        if inhabited(s) {
            let q = choose|q: int| s.contains(q);
            let p = choose|p: int| s0.contains(p) && #[trigger] n.edges.contains((p, a, q));
            assert(inhabited(s0));
            assert(inhabited(n.step(subs[j0], a)));
            assert(dn.has_successor(j0, a));
            let t = choose|t: int| #[trigger] dn.edges.contains((j0, a, t));
            assert(d.edges.contains((j0, a, t)));
            lemma_subset_automaton_wf(n, d, subs);
            assert forall|x: int| d1.contains(x) <==> x == t by {
                if d1.contains(x) {
                    let y = choose|y: int| d0.contains(y) && #[trigger] dn.edges.contains((y, a, x));
                    assert(d.edges.contains((j0, a, x)));
                }
                if x == t {
                    assert(d0.contains(j0) && dn.edges.contains((j0, a, t)));
                }
            }
            t
        } else {
            assert forall|x: int| !d1.contains(x) by {
                if d1.contains(x) {
                    let y = choose|y: int| d0.contains(y) && #[trigger] dn.edges.contains((y, a, x));
                    if w0.len() == 0 || inhabited(s0) {
                        assert(y == j0);
                        assert(d.edges.contains((j0, a, x)));
                        assert(inhabited(subs[x]));
                        let q = choose|q: int| subs[x].contains(q);
                        assert(s.contains(q));
                    }
                }
            }
            0
        }
    }
}

/// A subset automaton accepts the words of the automaton it was made from.
pub proof fn lemma_subset_language<V>(
    n: NfaModel<V>,
    d: DfaModel<V>,
    subs: Seq<Set<int>>,
    w: Seq<V>,
)
    requires
        is_subset_automaton(n, d, subs),
    ensures
        d.accepts(w) <==> n.accepts(w),
{
    let dn = d.to_nfa();
    let j = lemma_subset_run(n, d, subs, w);
    lemma_accepts_by_after(n, w);
    lemma_accepts_by_after(dn, w);
    assert(dn.initials =~= set![0int]);
    let s = n.after(n.initials, w);
    let d1 = dn.after(dn.initials, w);
    if n.accepts(w) {
        let q = choose|q: int| #[trigger] s.contains(q) && n.finals.contains(q);
        assert(inhabited(s));
        assert(subs[j].contains(q));
        assert(meets(subs[j], n.finals));
        assert(d.finals.contains(j));
        assert(d1.contains(j) && dn.finals.contains(j));
    }
    if d.accepts(w) {
        let t = choose|t: int| #[trigger] d1.contains(t) && dn.finals.contains(t);
        if w.len() > 0 && !inhabited(s) {
            assert(false);
        }
        assert(t == j);
        assert(d.finals.contains(j));
        let q = choose|q: int| subs[j].contains(q) && n.finals.contains(q);
        assert(s.contains(q) && n.finals.contains(q));
    }
}

/// The one-state automaton without final states accepts no word.
pub proof fn lemma_empty_dfa_language<V>(alphabet: Set<V>, w: Seq<V>)
    ensures
        !DfaModel::empty(alphabet).accepts(w),
{
    let d = DfaModel::empty(alphabet).to_nfa();
    if d.accepts(w) {
        let p = choose|p: Seq<int>| #[trigger]
            d.is_walk(p, w) && d.initials.contains(p[0]) && d.finals.contains(p.last());
        assert(false);
    }
}

} // verus!
