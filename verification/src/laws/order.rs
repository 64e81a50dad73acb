//! Containment as an order, and the laws of the algebra of languages that
//! the operations obey.
use crate::language::word_over;
use crate::laws::complement::lemma_contains_is_inclusion;
use crate::laws::concat::{lemma_concatenate_language, lemma_concatenate_wf};
use crate::laws::unite::{lemma_unite_language, lemma_unite_wf};
use crate::laws::walks::lemma_accepted_over_alphabet;
use crate::model::{DfaModel, NfaModel};
use vstd::prelude::*;

verus! {

/// `c` accepts the words over the alphabet of `a` that `a` does not accept.
pub open spec fn is_complement<V>(a: NfaModel<V>, c: NfaModel<V>) -> bool {
    &&& c.alphabet == a.alphabet
    &&& forall|w: Seq<V>| #[trigger] c.accepts(w) <==> (word_over(a.alphabet, w) && !a.accepts(w))
}

/// Two automata with one alphabet contain each other exactly when they
/// accept the same words.
pub proof fn lemma_equivalent_same_language<V>(a: NfaModel<V>, b: NfaModel<V>)
    requires
        a.wf(),
        b.wf(),
        a.alphabet == b.alphabet,
    ensures
        a.equivalent(b) <==> forall|w: Seq<V>| a.accepts(w) <==> b.accepts(w),
{
    lemma_contains_is_inclusion(a, b);
    lemma_contains_is_inclusion(b, a);
    if a.equivalent(b) {
        assert forall|w: Seq<V>| a.accepts(w) <==> b.accepts(w) by {
            assert(b.accepts(w) ==> a.accepts(w));
            assert(a.accepts(w) ==> b.accepts(w));
        }
    }
}

/// The complement of the complement of an automaton accepts the words of
/// the automaton, and the two contain each other.
pub proof fn lemma_double_complement<V>(a: NfaModel<V>, b: NfaModel<V>, c: NfaModel<V>)
    requires
        a.wf(),
        c.wf(),
        is_complement(a, b),
        is_complement(b, c),
    ensures
        forall|w: Seq<V>| c.accepts(w) <==> a.accepts(w),
        a.equivalent(c),
{
    assert forall|w: Seq<V>| c.accepts(w) <==> a.accepts(w) by {
        assert(b.accepts(w) <==> (word_over(a.alphabet, w) && !a.accepts(w)));
        if a.accepts(w) {
            lemma_accepted_over_alphabet(a, w);
        }
    }
    lemma_equivalent_same_language(a, c);
}

/// Union is commutative and associative, as far as the languages go.
pub proof fn lemma_unite_laws<V>(a: NfaModel<V>, b: NfaModel<V>, c: NfaModel<V>, w: Seq<V>)
    requires
        a.wf(),
        b.wf(),
        c.wf(),
    ensures
        a.unite(b).accepts(w) <==> b.unite(a).accepts(w),
        a.unite(b).unite(c).accepts(w) <==> a.unite(b.unite(c)).accepts(w),
        a.unite(a).accepts(w) <==> a.accepts(w),
{
    lemma_unite_language(a, b, w);
    lemma_unite_language(b, a, w);
    lemma_unite_wf(a, b);
    lemma_unite_wf(b, c);
    lemma_unite_language(a.unite(b), c, w);
    lemma_unite_language(b, c, w);
    lemma_unite_language(a, b.unite(c), w);
    lemma_unite_language(a, a, w);
}

/// The union of two automata with one alphabet, taken in either order or
/// grouped either way, is equivalent; and the union of an automaton with
/// itself is equivalent to the automaton.
pub proof fn lemma_unite_equivalences<V>(a: NfaModel<V>, b: NfaModel<V>, c: NfaModel<V>)
    requires
        a.wf(),
        b.wf(),
        c.wf(),
    ensures
        a.unite(b).equivalent(b.unite(a)),
        a.unite(b).unite(c).equivalent(a.unite(b.unite(c))),
        a.unite(a).equivalent(a),
{
    lemma_unite_wf(a, b);
    lemma_unite_wf(b, a);
    lemma_unite_wf(b, c);
    lemma_unite_wf(a.unite(b), c);
    lemma_unite_wf(a, b.unite(c));
    lemma_unite_wf(a, a);
    assert(a.alphabet.union(b.alphabet) =~= b.alphabet.union(a.alphabet));
    assert(a.alphabet.union(b.alphabet).union(c.alphabet) =~= a.alphabet.union(
        b.alphabet.union(c.alphabet),
    ));
    assert(a.alphabet.union(a.alphabet) =~= a.alphabet);
    assert forall|w: Seq<V>| a.unite(b).accepts(w) <==> b.unite(a).accepts(w) by {
        lemma_unite_laws(a, b, c, w);
    }
    lemma_equivalent_same_language(a.unite(b), b.unite(a));
    assert forall|w: Seq<V>|
        a.unite(b).unite(c).accepts(w) <==> a.unite(b.unite(c)).accepts(w) by {
        lemma_unite_laws(a, b, c, w);
    }
    lemma_equivalent_same_language(a.unite(b).unite(c), a.unite(b.unite(c)));
    assert forall|w: Seq<V>| a.unite(a).accepts(w) <==> a.accepts(w) by {
        lemma_unite_laws(a, b, c, w);
    }
    lemma_equivalent_same_language(a.unite(a), a);
}

/// Concatenation is associative, as far as the languages go.
pub proof fn lemma_concatenate_associative<V>(
    a: NfaModel<V>,
    b: NfaModel<V>,
    c: NfaModel<V>,
    w: Seq<V>,
)
    requires
        a.wf(),
        b.wf(),
        c.wf(),
    ensures
        a.concatenate(b).concatenate(c).accepts(w) <==> a.concatenate(b.concatenate(c)).accepts(w),
{
    let ab = a.concatenate(b);
    let bc = b.concatenate(c);
    lemma_concatenate_wf(a, b);
    lemma_concatenate_wf(b, c);
    lemma_concatenate_language(ab, c, w);
    lemma_concatenate_language(a, bc, w);
    if ab.concatenate(c).accepts(w) {
        let k = choose|k: int|
            0 <= k <= w.len() && ab.language()(#[trigger] w.take(k)) && c.language()(w.skip(k));
        let x = w.take(k);
        lemma_concatenate_language(a, b, x);
        let j = choose|j: int|
            0 <= j <= x.len() && a.language()(#[trigger] x.take(j)) && b.language()(x.skip(j));
        let rest = w.skip(j);
        assert(x.take(j) =~= w.take(j));
        assert(rest.take(k - j) =~= x.skip(j));
        assert(rest.skip(k - j) =~= w.skip(k));
        lemma_concatenate_language(b, c, rest);
        assert(b.language()(rest.take(k - j)) && c.language()(rest.skip(k - j)));
        assert(bc.language()(rest));
        assert(a.language()(w.take(j)) && bc.language()(w.skip(j)));
    }
    if a.concatenate(bc).accepts(w) {
        let j = choose|j: int|
            0 <= j <= w.len() && a.language()(#[trigger] w.take(j)) && bc.language()(w.skip(j));
        let rest = w.skip(j);
        lemma_concatenate_language(b, c, rest);
        let i = choose|i: int|
            0 <= i <= rest.len() && b.language()(#[trigger] rest.take(i)) && c.language()(
                rest.skip(i),
            );
        let k = j + i;
        let x = w.take(k);
        assert(x.take(j) =~= w.take(j));
        assert(x.skip(j) =~= rest.take(i));
        assert(w.skip(k) =~= rest.skip(i));
        lemma_concatenate_language(a, b, x);
        assert(a.language()(x.take(j)) && b.language()(x.skip(j)));
        assert(ab.language()(x));
        assert(ab.language()(w.take(k)) && c.language()(w.skip(k)));
    }
}

/// A word is in an automaton and in itself exactly when the automaton
/// accepts it.
pub proof fn lemma_intersect_self<V>(a: NfaModel<V>, w: Seq<V>)
    requires
        a.wf(),
    ensures
        a.in_both(a, w) <==> a.accepts(w),
{
    assert(a.alphabet.union(a.alphabet) =~= a.alphabet);
    if a.accepts(w) {
        lemma_accepted_over_alphabet(a, w);
    }
}

/// Every automaton contains itself.
pub proof fn lemma_contains_reflexive<V>(a: NfaModel<V>)
    ensures
        a.contains(a),
        a.equivalent(a),
{
}

/// Of automata with one alphabet, one that contains a second, which
/// contains a third, contains the third.
pub proof fn lemma_contains_transitive<V>(a: NfaModel<V>, b: NfaModel<V>, c: NfaModel<V>)
    requires
        a.wf(),
        b.wf(),
        c.wf(),
        a.alphabet == b.alphabet,
        b.alphabet == c.alphabet,
        a.contains(b),
        b.contains(c),
    ensures
        a.contains(c),
{
    lemma_contains_is_inclusion(a, b);
    lemma_contains_is_inclusion(b, c);
    lemma_contains_is_inclusion(a, c);
    assert forall|w: Seq<V>| c.accepts(w) implies a.accepts(w) by {
        assert(c.accepts(w) ==> b.accepts(w));
        assert(b.accepts(w) ==> a.accepts(w));
    }
}

/// Two automata with one alphabet that contain each other accept the same
/// words.
pub proof fn lemma_contains_antisymmetric<V>(a: NfaModel<V>, b: NfaModel<V>, w: Seq<V>)
    requires
        a.wf(),
        b.wf(),
        a.alphabet == b.alphabet,
        a.contains(b),
        b.contains(a),
    ensures
        a.accepts(w) <==> b.accepts(w),
{
    lemma_equivalent_same_language(a, b);
}

/// A deterministic automaton that accepts the words of a second, which
/// accepts the words of an automaton, accepts the words of that automaton:
/// what making deterministic and then minimal does to the language.
pub proof fn lemma_minimal_same_language<V>(a: NfaModel<V>, d: DfaModel<V>, m: DfaModel<V>)
    requires
        a.wf(),
        m.wf(),
        d.alphabet == a.alphabet,
        m.alphabet == d.alphabet,
        forall|w: Seq<V>| d.accepts(w) <==> a.accepts(w),
        forall|w: Seq<V>| m.accepts(w) <==> d.accepts(w),
    ensures
        forall|w: Seq<V>| m.accepts(w) <==> a.accepts(w),
        a.equivalent(m.to_nfa()),
{
    assert forall|w: Seq<V>| m.accepts(w) <==> a.accepts(w) by {
        assert(m.accepts(w) <==> d.accepts(w));
    }
    lemma_equivalent_same_language(a, m.to_nfa());
}

} // verus!
