//! The language of a complement, and what follows for intersection,
//! containment and equivalence.
use crate::language::word_over;
use crate::laws::complete::{lemma_complete_language, lemma_complete_wf};
use crate::laws::walks::lemma_accepted_over_alphabet;
use crate::model::{lemma_accepts_by_after, DfaModel, NfaModel};
use vstd::prelude::*;

verus! {

/// Completing a deterministic automaton is completing it as a
/// nondeterministic one.
pub proof fn lemma_dfa_complete_as_nfa<V>(d: DfaModel<V>)
    requires
        d.wf(),
    ensures
        d.complete().to_nfa() == d.to_nfa().complete(),
        d.complete().wf(),
        d.complete().is_complete(),
{
    let m = d.to_nfa();
    assert(m.initials.contains(d.initial));
    assert(!(m.initials =~= Set::<int>::empty()));
    assert(d.is_complete() == m.is_complete());
    let c = d.complete();
    let n = d.size as int;
    assert(c.to_nfa().initials =~= m.complete().initials);
    assert(c.to_nfa().edges =~= m.complete().edges);
    lemma_complete_wf(m);
    assert forall|q: int, a: V, t1: int, t2: int|
        #[trigger] c.edges.contains((q, a, t1)) && #[trigger] c.edges.contains(
            (q, a, t2),
        ) implies t1 == t2 by {
        if !d.is_complete() {
            if d.edges.contains((q, a, t1)) {
                assert(m.has_successor(q, a));
                assert(d.edges.contains((q, a, t2)));
            } else {
                if d.edges.contains((q, a, t2)) {
                    assert(m.has_successor(q, a));
                }
            }
        }
    }
    assert forall|q: int, a: V| 0 <= q < c.size && c.alphabet.contains(a) implies #[trigger] c.to_nfa().has_successor(
        q,
        a,
    ) by {
        assert(m.complete().has_successor(q, a));
    }
}

/// The state in which a complete deterministic automaton is after reading a
/// word over its alphabet.
pub proof fn lemma_complete_run<V>(d: DfaModel<V>, w: Seq<V>) -> (t: int)
    requires
        d.wf(),
        d.is_complete(),
        word_over(d.alphabet, w),
    ensures
        0 <= t < d.size,
        d.to_nfa().after(set![d.initial], w) =~= set![t],
    decreases w.len(),
{
    let m = d.to_nfa();
    assert(m.initials.contains(d.initial));
    if w.len() == 0 {
        d.initial
    } else {
        let w0 = w.drop_last();
        let a = w.last();
        assert(word_over(d.alphabet, w0)) by {
            assert forall|i: int| 0 <= i < w0.len() implies d.alphabet.contains(
                #[trigger] w0[i],
            ) by {
                assert(w0[i] == w[i]);
            }
        }
        let t0 = lemma_complete_run(d, w0);
        assert(d.alphabet.contains(w[w.len() - 1]));
        assert(m.has_successor(t0, a));
        let t = choose|t: int| #[trigger] m.edges.contains((t0, a, t));
        crate::dfa::run::lemma_step_single(d, t0, a, t);
        t
    }
}

/// The complement accepts exactly the words over the alphabet that the
/// automaton does not accept.
pub proof fn lemma_dfa_negate_language<V>(d: DfaModel<V>, w: Seq<V>)
    requires
        d.wf(),
    ensures
        d.negate().wf(),
        d.negate().alphabet == d.alphabet,
        d.negate().accepts(w) <==> (word_over(d.alphabet, w) && !d.accepts(w)),
{
    let c = d.complete();
    let g = d.negate();
    lemma_dfa_complete_as_nfa(d);
    lemma_complete_language(d.to_nfa(), w);
    assert(c.accepts(w) <==> d.accepts(w));
    assert(g.to_nfa().edges == c.to_nfa().edges);
    assert(g.wf());
    assert(g.is_complete()) by {
        assert forall|q: int, a: V|
            0 <= q < g.size && g.alphabet.contains(a) implies #[trigger] g.to_nfa().has_successor(
            q,
            a,
        ) by {
            assert(c.to_nfa().has_successor(q, a));
            let t = choose|t: int| #[trigger] c.to_nfa().edges.contains((q, a, t));
            assert(g.to_nfa().edges.contains((q, a, t)));
        }
    }
    lemma_accepts_by_after(c.to_nfa(), w);
    lemma_accepts_by_after(g.to_nfa(), w);
    assert(c.to_nfa().initials =~= set![c.initial]);
    assert(g.to_nfa().initials =~= set![c.initial]);
    if word_over(d.alphabet, w) {
        let t = lemma_complete_run(c, w);
        let t2 = lemma_complete_run(g, w);
        lemma_same_edges_same_after(c.to_nfa(), g.to_nfa(), set![c.initial], w);
        assert(set![t].contains(t2));
        if c.accepts(w) {
            let x = choose|x: int| #[trigger]
                c.to_nfa().after(c.to_nfa().initials, w).contains(x) && c.to_nfa().finals.contains(
                    x,
                );
            assert(set![t].contains(x));
        } else {
            assert(g.to_nfa().after(g.to_nfa().initials, w).contains(t) && g.to_nfa().finals.contains(
                t,
            ));
        }
        if g.accepts(w) {
            let x = choose|x: int| #[trigger]
                g.to_nfa().after(g.to_nfa().initials, w).contains(x) && g.to_nfa().finals.contains(
                    x,
                );
            assert(set![t].contains(x));
        }
    } else {
        if g.accepts(w) {
            lemma_accepted_over_alphabet(g.to_nfa(), w);
        }
    }
}

/// Two automata with the same edges reach the same states.
pub proof fn lemma_same_edges_same_after<V>(
    a: NfaModel<V>,
    b: NfaModel<V>,
    s: Set<int>,
    w: Seq<V>,
)
    requires
        a.edges == b.edges,
    ensures
        a.after(s, w) =~= b.after(s, w),
    decreases w.len(),
{
    if w.len() > 0 {
        lemma_same_edges_same_after(a, b, s, w.drop_last());
    }
}

/// Of two automata with one alphabet, a word is in both exactly when both
/// accept it.
pub proof fn lemma_intersect_same_alphabet<V>(a: NfaModel<V>, b: NfaModel<V>, w: Seq<V>)
    requires
        a.wf(),
        b.wf(),
        a.alphabet == b.alphabet,
    ensures
        a.in_both(b, w) <==> (a.accepts(w) && b.accepts(w)),
{
    assert(a.alphabet.union(b.alphabet) =~= a.alphabet);
    if a.accepts(w) {
        lemma_accepted_over_alphabet(a, w);
    }
}

/// Of two automata with one alphabet, the first contains the second exactly
/// when it accepts every word that the second accepts.
pub proof fn lemma_contains_is_inclusion<V>(a: NfaModel<V>, b: NfaModel<V>)
    requires
        a.wf(),
        b.wf(),
        a.alphabet == b.alphabet,
    ensures
        a.contains(b) <==> forall|w: Seq<V>| b.accepts(w) ==> a.accepts(w),
{
    assert(a.alphabet.union(b.alphabet) =~= a.alphabet);
    if a.contains(b) {
        assert forall|w: Seq<V>| b.accepts(w) implies a.accepts(w) by {
            lemma_accepted_over_alphabet(b, w);
            assert(!a.escapes(b, w));
        }
    }
    if forall|w: Seq<V>| b.accepts(w) ==> a.accepts(w) {
        assert forall|w: Seq<V>| !a.escapes(b, w) by {
            if a.escapes(b, w) {
                assert(b.accepts(w));
            }
        }
    }
}

} // verus!
