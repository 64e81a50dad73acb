//! Languages as predicates on words, and the operations of Kleene algebra on
//! them. The contracts of the automata are stated with these.
use vstd::prelude::*;

verus! {

/// A language over `V`: the set of words it holds, as a predicate.
pub type Language<V> = spec_fn(Seq<V>) -> bool;

/// Whether every symbol of `w` lies in `alphabet`.
pub open spec fn word_over<V>(alphabet: Set<V>, w: Seq<V>) -> bool {
    forall|i: int| 0 <= i < w.len() ==> alphabet.contains(#[trigger] w[i])
}

/// Whether `w` splits into a word of `l1` followed by a word of `l2`.
pub open spec fn in_concat<V>(l1: Language<V>, l2: Language<V>, w: Seq<V>) -> bool {
    exists|k: int| 0 <= k <= w.len() && l1(#[trigger] w.take(k)) && l2(w.skip(k))
}

/// Whether `w` is the concatenation of exactly `n` words of `l`.
pub open spec fn in_power<V>(l: Language<V>, n: nat, w: Seq<V>) -> bool
    decreases n,
{
    if n == 0 {
        w.len() == 0
    } else {
        exists|k: int|
            0 <= k <= w.len() && in_power(l, (n - 1) as nat, #[trigger] w.take(k)) && l(w.skip(k))
    }
}

/// Whether `w` is the concatenation of `n` words of `l` for some `n` with
/// `lo <= n`, and `n <= hi` where `hi` is given.
pub open spec fn in_repeat<V>(l: Language<V>, lo: nat, hi: Option<nat>, w: Seq<V>) -> bool {
    exists|n: nat|
        lo <= n && (hi is Some ==> n <= hi->0) && #[trigger] in_power(l, n, w)
}

/// Whether `w` is the concatenation of finitely many words of `l`.
pub open spec fn in_star<V>(l: Language<V>, w: Seq<V>) -> bool {
    exists|n: nat| #[trigger] in_power(l, n, w)
}

/// The language `l` with the empty word added.
pub open spec fn or_empty<V>(l: Language<V>) -> Language<V> {
    |w: Seq<V>| l(w) || w.len() == 0
}

/// A concatenation of `m1` words followed by one of `m2` words is one of
/// `m1 + m2` words.
pub proof fn lemma_power_add<V>(l: Language<V>, m1: nat, x: Seq<V>, m2: nat, y: Seq<V>)
    requires
        in_power(l, m1, x),
        in_power(l, m2, y),
    ensures
        in_power(l, m1 + m2, x + y),
    decreases m2,
{
    if m2 == 0 {
        assert(x + y =~= x);
    } else {
        let k = choose|k: int|
            0 <= k <= y.len() && in_power(l, (m2 - 1) as nat, #[trigger] y.take(k)) && l(y.skip(k));
        lemma_power_add(l, m1, x, (m2 - 1) as nat, y.take(k));
        let w = x + y;
        assert(w.take(x.len() + k) =~= x + y.take(k));
        assert(w.skip(x.len() + k) =~= y.skip(k));
    }
}

/// A concatenation of `m` words is one of `k` words followed by one of
/// `m - k` words.
pub proof fn lemma_power_split<V>(l: Language<V>, m: nat, k: nat, w: Seq<V>) -> (j: int)
    requires
        k <= m,
        in_power(l, m, w),
    ensures
        0 <= j <= w.len(),
        in_power(l, k, w.take(j)),
        in_power(l, (m - k) as nat, w.skip(j)),
    decreases m,
{
    if m == k {
        assert(w.take(w.len() as int) =~= w);
        assert(w.skip(w.len() as int).len() == 0);
        w.len() as int
    } else {
        let i = choose|i: int|
            0 <= i <= w.len() && in_power(l, (m - 1) as nat, #[trigger] w.take(i)) && l(w.skip(i));
        let j = lemma_power_split(l, (m - 1) as nat, k, w.take(i));
        assert(w.take(i).take(j) =~= w.take(j));
        let rest = w.skip(j);
        assert(rest.take(i - j) =~= w.take(i).skip(j));
        assert(rest.skip(i - j) =~= w.skip(i));
        j
    }
}

/// A concatenation of `k` words of a language or empty words is one of at
/// most `k` words of the language, and the other way round.
pub proof fn lemma_power_or_empty<V>(l: Language<V>, k: nat, w: Seq<V>)
    ensures
        in_power(or_empty(l), k, w) <==> in_repeat(l, 0, Some(k), w),
    decreases k,
{
    let l2 = or_empty(l);
    if k == 0 {
        if w.len() == 0 {
            assert(in_power(l, 0, w));
        }
        if in_repeat(l, 0, Some(k), w) {
            let m = choose|m: nat| 0 <= m && m <= k && #[trigger] in_power(l, m, w);
        }
    } else {
        if in_power(l2, k, w) {
            let i = choose|i: int|
                0 <= i <= w.len() && in_power(l2, (k - 1) as nat, #[trigger] w.take(i)) && l2(
                    w.skip(i),
                );
            lemma_power_or_empty(l, (k - 1) as nat, w.take(i));
            let m = choose|m: nat| 0 <= m && m <= k - 1 && #[trigger] in_power(l, m, w.take(i));
            if l(w.skip(i)) {
                assert(in_power(l, m + 1, w));
            } else {
                assert(w.take(i) =~= w);
                assert(in_power(l, m, w));
            }
        }
        if in_repeat(l, 0, Some(k), w) {
            let m = choose|m: nat| 0 <= m && m <= k && #[trigger] in_power(l, m, w);
            if m < k {
                assert(in_repeat(l, 0, Some((k - 1) as nat), w));
                lemma_power_or_empty(l, (k - 1) as nat, w);
                assert(w.take(w.len() as int) =~= w);
                assert(l2(w.skip(w.len() as int)));
            } else {
                let i = choose|i: int|
                    0 <= i <= w.len() && in_power(l, (k - 1) as nat, #[trigger] w.take(i)) && l(
                        w.skip(i),
                    );
                assert(in_repeat(l, 0, Some((k - 1) as nat), w.take(i)));
                lemma_power_or_empty(l, (k - 1) as nat, w.take(i));
                assert(l2(w.skip(i)));
            }
        }
    }
}

/// The language of the empty word.
pub open spec fn only_empty<V>() -> Language<V> {
    |w: Seq<V>| w.len() == 0
}

/// The concatenations of words of `l`.
pub open spec fn star<V>(l: Language<V>) -> Language<V> {
    |w: Seq<V>| in_star(l, w)
}

/// One word of a language is a concatenation of one word.
pub proof fn lemma_power_one<V>(l: Language<V>, w: Seq<V>)
    ensures
        in_power(l, 1, w) <==> l(w),
{
    if in_power(l, 1, w) {
        let k = choose|k: int|
            0 <= k <= w.len() && in_power(l, 0, #[trigger] w.take(k)) && l(w.skip(k));
        assert(w.skip(k) =~= w);
    }
    if l(w) {
        assert(w.skip(0) =~= w);
        assert(in_power(l, 0, w.take(0)));
    }
}

/// A concatenation of words of a language is one of words of a larger
/// language.
pub proof fn lemma_power_grows<V>(small: Language<V>, large: Language<V>, n: nat, w: Seq<V>)
    requires
        forall|x: Seq<V>| #[trigger] small(x) ==> large(x),
        in_power(small, n, w),
    ensures
        in_power(large, n, w),
    decreases n,
{
    if n > 0 {
        let k = choose|k: int|
            0 <= k <= w.len() && in_power(small, (n - 1) as nat, #[trigger] w.take(k)) && small(
                w.skip(k),
            );
        lemma_power_grows(small, large, (n - 1) as nat, w.take(k));
        assert(large(w.skip(k)));
    }
}

/// A concatenation of words of a language that holds the empty word is also
/// one of one word more.
pub proof fn lemma_power_pad<V>(l: Language<V>, n: nat, more: nat, w: Seq<V>)
    requires
        l(Seq::<V>::empty()),
        in_power(l, n, w),
    ensures
        in_power(l, n + more, w),
    decreases more,
{
    if more > 0 {
        lemma_power_pad(l, n, (more - 1) as nat, w);
        assert(w.take(w.len() as int) =~= w);
        assert(w.skip(w.len() as int) =~= Seq::<V>::empty());
    }
}

/// A concatenation of concatenations of words of a language is a
/// concatenation of words of the language.
pub proof fn lemma_power_of_star<V>(l: Language<V>, n: nat, w: Seq<V>)
    requires
        in_power(star(l), n, w),
    ensures
        in_star(l, w),
    decreases n,
{
    if n == 0 {
        assert(in_power(l, 0, w));
    } else {
        let k = choose|k: int|
            0 <= k <= w.len() && in_power(star(l), (n - 1) as nat, #[trigger] w.take(k)) && star(
                l,
            )(w.skip(k));
        lemma_power_of_star(l, (n - 1) as nat, w.take(k));
        let a = choose|a: nat| #[trigger] in_power(l, a, w.take(k));
        let b = choose|b: nat| #[trigger] in_power(l, b, w.skip(k));
        lemma_power_add(l, a, w.take(k), b, w.skip(k));
        assert(w.take(k) + w.skip(k) =~= w);
    }
}

/// A number of concatenations of words of a language, between bounds of
/// which the second is not 0, is a concatenation of words of the language.
pub proof fn lemma_repeat_of_star<V>(l: Language<V>, lo: nat, hi: Option<nat>, w: Seq<V>)
    requires
        hi is Some ==> lo <= hi->0 && hi->0 >= 1,
    ensures
        in_repeat(star(l), lo, hi, w) <==> in_star(l, w),
{
    if in_repeat(star(l), lo, hi, w) {
        let n = choose|n: nat|
            lo <= n && (hi is Some ==> n <= hi->0) && #[trigger] in_power(star(l), n, w);
        lemma_power_of_star(l, n, w);
    }
    if in_star(l, w) {
        lemma_power_one(star(l), w);
        assert(in_power(l, 0, Seq::<V>::empty()));
        assert(star(l)(Seq::<V>::empty()));
        let n: nat = if lo >= 1 {
            lo
        } else {
            1
        };
        lemma_power_pad(star(l), 1, (n - 1) as nat, w);
        assert(in_power(star(l), n, w));
    }
}

/// A number of empty words in a row is the empty word.
pub proof fn lemma_power_of_empty<V>(n: nat, w: Seq<V>)
    ensures
        in_power(only_empty::<V>(), n, w) <==> w.len() == 0,
    decreases n,
{
    let l = only_empty::<V>();
    if n > 0 {
        if in_power(l, n, w) {
            let k = choose|k: int|
                0 <= k <= w.len() && in_power(l, (n - 1) as nat, #[trigger] w.take(k)) && l(
                    w.skip(k),
                );
            lemma_power_of_empty::<V>((n - 1) as nat, w.take(k));
        }
        if w.len() == 0 {
            lemma_power_of_empty::<V>((n - 1) as nat, w.take(0));
            assert(l(w.skip(0)));
        }
    }
}

/// At most `hi` words of a language or empty words in a row are at most
/// `hi` words of the language in a row.
pub proof fn lemma_repeat_or_empty<V>(l: Language<V>, hi: Option<nat>, w: Seq<V>)
    ensures
        in_repeat(or_empty(l), 0, hi, w) <==> in_repeat(l, 0, hi, w),
{
    if in_repeat(or_empty(l), 0, hi, w) {
        let n = choose|n: nat|
            0 <= n && (hi is Some ==> n <= hi->0) && #[trigger] in_power(or_empty(l), n, w);
        lemma_power_or_empty(l, n, w);
        let m = choose|m: nat| 0 <= m && m <= n && #[trigger] in_power(l, m, w);
        assert(in_power(l, m, w));
    }
    if in_repeat(l, 0, hi, w) {
        let n = choose|n: nat| 0 <= n && (hi is Some ==> n <= hi->0) && #[trigger] in_power(l, n, w);
        assert forall|x: Seq<V>| #[trigger] l(x) implies or_empty(l)(x) by {}
        lemma_power_grows(l, or_empty(l), n, w);
    }
}

/// At most one word of a language is the empty word or a word of the
/// language.
pub proof fn lemma_repeat_once<V>(l: Language<V>, w: Seq<V>)
    ensures
        in_repeat(l, 0, Some(1nat), w) <==> (w.len() == 0 || l(w)),
        in_repeat(l, 1, Some(1nat), w) <==> l(w),
{
    lemma_power_one(l, w);
    if in_repeat(l, 0, Some(1nat), w) {
        let n = choose|n: nat|
            0 <= n && (Some(1nat) is Some ==> n <= Some(1nat)->0) && #[trigger] in_power(l, n, w);
        assert(n == 0 || n == 1);
    }
    if in_repeat(l, 1, Some(1nat), w) {
        let n = choose|n: nat|
            1 <= n && (Some(1nat) is Some ==> n <= Some(1nat)->0) && #[trigger] in_power(l, n, w);
        assert(n == 1);
    }
    if w.len() == 0 {
        assert(in_power(l, 0, w));
    }
    if l(w) {
        assert(in_power(l, 1, w));
    }
}

} // verus!
