//! The languages of the repetitions.
use crate::language::{
    in_power, in_repeat, in_star, lemma_power_add, lemma_power_or_empty, lemma_power_split, or_empty,
};
use crate::laws::concat::{lemma_concatenate_language, lemma_concatenate_wf};
use crate::laws::star::{lemma_kleene_language, lemma_kleene_wf};
use crate::laws::walks::lemma_walk_in_larger;
use crate::model::{lemma_empty_language, lemma_empty_word_language, NfaModel};
use vstd::prelude::*;

verus! {

/// The automaton with the empty word added is well formed, and accepts the
/// words of the automaton and the empty word.
pub proof fn lemma_or_empty_word_language<V>(a: NfaModel<V>, w: Seq<V>)
    requires
        a.wf(),
    ensures
        a.or_empty_word().wf(),
        a.or_empty_word().alphabet == a.alphabet,
        a.or_empty_word().accepts(w) <==> (a.accepts(w) || w.len() == 0),
{
    let c = a.or_empty_word();
    let n = a.size as int;
    if a.accepts_empty() {
        crate::laws::concat::lemma_accepts_empty(a);
        if w.len() == 0 {
            assert(w =~= Seq::<V>::empty());
        }
    } else {
        if a.accepts(w) {
            let p = choose|p: Seq<int>| #[trigger]
                a.is_walk(p, w) && a.initials.contains(p[0]) && a.finals.contains(p.last());
            lemma_walk_in_larger(a, c, p, w);
        }
        if w.len() == 0 {
            let p = seq![n];
            assert(c.is_walk(p, w));
        }
        if c.accepts(w) && w.len() > 0 {
            let p = choose|p: Seq<int>| #[trigger]
                c.is_walk(p, w) && c.initials.contains(p[0]) && c.finals.contains(p.last());
            assert(c.edges.contains((p[0], w[0], p[0int + 1])));
            assert(a.initials.contains(p[0]));
            crate::laws::walks::lemma_walk_in_bounds(a, p, w);
            assert(a.is_walk(p, w));
        }
    }
}

/// A chain of copies of a well-formed automaton is well formed, and accepts
/// the concatenations of as many words of the automaton.
pub proof fn lemma_chain_language<V>(a: NfaModel<V>, k: nat, w: Seq<V>)
    requires
        a.wf(),
    ensures
        a.chain(k).wf(),
        a.chain(k).accepts(w) <==> in_power(a.language(), k, w),
    decreases k,
{
    lemma_chain_wf(a, k);
    if k == 0 {
        lemma_empty_word_language(a.alphabet, w);
    } else {
        let before = a.chain((k - 1) as nat);
        lemma_chain_wf(a, (k - 1) as nat);
        lemma_concatenate_language(before, a, w);
        if a.chain(k).accepts(w) {
            let i = choose|i: int|
                0 <= i <= w.len() && before.language()(#[trigger] w.take(i)) && a.language()(
                    w.skip(i),
                );
            lemma_chain_language(a, (k - 1) as nat, w.take(i));
        }
        if in_power(a.language(), k, w) {
            let i = choose|i: int|
                0 <= i <= w.len() && in_power(a.language(), (k - 1) as nat, #[trigger] w.take(i))
                    && a.language()(w.skip(i));
            lemma_chain_language(a, (k - 1) as nat, w.take(i));
            assert(before.language()(w.take(i)) && a.language()(w.skip(i)));
        }
    }
}

/// A chain of copies of a well-formed automaton is well formed.
pub proof fn lemma_chain_wf<V>(a: NfaModel<V>, k: nat)
    requires
        a.wf(),
    ensures
        a.chain(k).wf(),
        a.chain(k).alphabet == a.alphabet,
    decreases k,
{
    if k > 0 {
        lemma_chain_wf(a, (k - 1) as nat);
        lemma_concatenate_wf(a.chain((k - 1) as nat), a);
        assert(a.alphabet.union(a.alphabet) =~= a.alphabet);
    }
}

/// The automaton of at most `k` words accepts the concatenations of at most
/// `k` words of the automaton.
pub proof fn lemma_at_most_language<V>(a: NfaModel<V>, k: nat, w: Seq<V>)
    requires
        a.wf(),
    ensures
        a.at_most(k).wf(),
        a.at_most(k).alphabet == a.alphabet,
        a.at_most(k).accepts(w) <==> in_repeat(a.language(), 0, Some(k), w),
{
    let b = a.or_empty_word();
    lemma_or_empty_word_language(a, w);
    lemma_chain_wf(b, k);
    lemma_chain_language(b, k, w);
    assert forall|x: Seq<V>| #[trigger] b.language()(x) == or_empty(a.language())(x) by {
        lemma_or_empty_word_language(a, x);
    }
    assert(b.language() =~= or_empty(a.language()));
    lemma_power_or_empty(a.language(), k, w);
}

/// The automaton of at least `k` words accepts the concatenations of `k` or
/// more words of the automaton.
pub proof fn lemma_at_least_language<V>(a: NfaModel<V>, k: nat, w: Seq<V>)
    requires
        a.wf(),
    ensures
        a.at_least(k).wf(),
        a.at_least(k).alphabet == a.alphabet,
        a.at_least(k).accepts(w) <==> in_repeat(a.language(), k, None, w),
{
    let front = a.chain(k);
    let star = a.kleene();
    let l = a.language();
    lemma_chain_wf(a, k);
    lemma_kleene_wf(a);
    lemma_concatenate_wf(front, star);
    assert(a.alphabet.union(a.alphabet) =~= a.alphabet);
    lemma_concatenate_language(front, star, w);
    if a.at_least(k).accepts(w) {
        let i = choose|i: int|
            0 <= i <= w.len() && front.language()(#[trigger] w.take(i)) && star.language()(
                w.skip(i),
            );
        lemma_chain_language(a, k, w.take(i));
        lemma_kleene_language(a, w.skip(i));
        let m = choose|m: nat| #[trigger] in_power(l, m, w.skip(i));
        lemma_power_add(l, k, w.take(i), m, w.skip(i));
        assert(w.take(i) + w.skip(i) =~= w);
        assert(in_power(l, k + m, w));
    }
    if in_repeat(l, k, None, w) {
        let m = choose|m: nat| k <= m && (None::<nat> is Some ==> m <= None::<nat>->0) && #[trigger] in_power(l, m, w);
        let j = lemma_power_split(l, m, k, w);
        lemma_chain_language(a, k, w.take(j));
        lemma_kleene_language(a, w.skip(j));
        assert(in_star(l, w.skip(j)));
        assert(front.language()(w.take(j)) && star.language()(w.skip(j)));
    }
}

/// The automaton of between `lo` and `hi` words accepts the concatenations of
/// as many words of the automaton.
pub proof fn lemma_repeat_language<V>(a: NfaModel<V>, lo: nat, hi: Option<nat>, w: Seq<V>)
    requires
        a.wf(),
    ensures
        a.repeat(lo, hi).wf(),
        a.repeat(lo, hi).alphabet == a.alphabet,
        a.repeat(lo, hi).accepts(w) <==> in_repeat(a.language(), lo, hi, w),
{
    let l = a.language();
    match hi {
        None => {
            lemma_at_least_language(a, lo, w);
        },
        Some(h) => {
            if h < lo {
                lemma_empty_language(a.alphabet, w);
                if in_repeat(l, lo, hi, w) {
                    let m = choose|m: nat|
                        lo <= m && (hi is Some ==> m <= hi->0) && #[trigger] in_power(l, m, w);
                }
            } else {
                let d = (h - lo) as nat;
                let front = a.chain(lo);
                let back = a.at_most(d);
                lemma_chain_wf(a, lo);
                lemma_at_most_language(a, d, w);
                lemma_concatenate_wf(front, back);
                assert(a.alphabet.union(a.alphabet) =~= a.alphabet);
                lemma_concatenate_language(front, back, w);
                if a.repeat(lo, hi).accepts(w) {
                    let i = choose|i: int|
                        0 <= i <= w.len() && front.language()(#[trigger] w.take(i))
                            && back.language()(w.skip(i));
                    lemma_chain_language(a, lo, w.take(i));
                    lemma_at_most_language(a, d, w.skip(i));
                    let m = choose|m: nat|
                        0 <= m && (Some(d) is Some ==> m <= Some(d)->0) && #[trigger] in_power(
                            l,
                            m,
                            w.skip(i),
                        );
                    lemma_power_add(l, lo, w.take(i), m, w.skip(i));
                    assert(w.take(i) + w.skip(i) =~= w);
                    assert(in_power(l, lo + m, w));
                }
                if in_repeat(l, lo, hi, w) {
                    let m = choose|m: nat|
                        lo <= m && (hi is Some ==> m <= hi->0) && #[trigger] in_power(l, m, w);
                    let j = lemma_power_split(l, m, lo, w);
                    lemma_chain_language(a, lo, w.take(j));
                    lemma_at_most_language(a, d, w.skip(j));
                    assert(in_power(l, (m - lo) as nat, w.skip(j)));
                    assert(in_repeat(l, 0, Some(d), w.skip(j)));
                    assert(front.language()(w.take(j)) && back.language()(w.skip(j)));
                }
            }
        },
    }
}

} // verus!
