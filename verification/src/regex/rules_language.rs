//! The rewriting rules keep what an expression matches, for the expressions
//! in which nothing matches nothing by its shape.
use crate::language::{
    in_concat, in_power, in_repeat, in_star, lemma_power_grows, lemma_power_of_empty, lemma_power_of_star, lemma_power_one, lemma_repeat_of_star, lemma_repeat_once, lemma_repeat_or_empty, only_empty, or_empty, star,
};
use crate::regex::algebra::{
    inserted, inserted_all, lemma_concat_append, lemma_concat_one, lemma_union_inserted,
    lemma_union_inserted_all, lemma_union_push,
};
use crate::regex::rules::{
    all_begin_with, all_empty, any_zero_repeat, concat_rule, factors, gathered, head,
    is_low_repeat, is_star, is_zero_repeat, lemma_tails_smaller, other_than_epsilon, repeat_rule,
    repeated, settled, spliced, tail, tails, total, union_rule, without_epsilon,
};
use crate::regex::tree::{children, lemma_concat_unfold, lemma_union_unfold, Tree};
use vstd::prelude::*;

verus! {

/// Nothing in the expression matches nothing by its shape: there is no leaf
/// that matches nothing, no union without options, and no repetition with a
/// second bound of 0 or below the first.
pub open spec fn plain<V>(t: Tree<V>) -> bool
    decreases t,
{
    match t {
        Tree::Empty => false,
        Tree::Union(ts) => ts.len() >= 1 && forall|i: int|
            0 <= i < ts.len() ==> plain(#[trigger] ts[i]),
        Tree::Concat(ts) => forall|i: int| 0 <= i < ts.len() ==> plain(#[trigger] ts[i]),
        Tree::Repeat(c, lo, hi) => plain(*c) && (hi is Some ==> lo <= hi->0 && hi->0 >= 1),
        _ => true,
    }
}

/// Every expression of `ts` is plain.
pub open spec fn all_plain<V>(ts: Seq<Tree<V>>) -> bool {
    forall|i: int| 0 <= i < ts.len() ==> plain(#[trigger] ts[i])
}

/// The two expressions match the same words.
pub open spec fn alike<V>(a: Tree<V>, b: Tree<V>, alphabet: Set<V>) -> bool {
    forall|w: Seq<V>| #[trigger] a.matches(alphabet, w) <==> b.matches(alphabet, w)
}

/// The two lists match the same words, place by place.
pub open spec fn all_alike<V>(xs: Seq<Tree<V>>, ys: Seq<Tree<V>>, alphabet: Set<V>) -> bool {
    &&& xs.len() == ys.len()
    &&& forall|i: int| 0 <= i < xs.len() ==> alike(#[trigger] xs[i], ys[i], alphabet)
}

/// A union or a concatenation is plain exactly when its children are, and
/// the union has one.
pub proof fn lemma_group_plain<V>(ts: Seq<Tree<V>>)
    ensures
        plain(Tree::Union(ts)) <==> (ts.len() >= 1 && all_plain(ts)),
        plain(Tree::Concat(ts)) <==> all_plain(ts),
{
    let u = Tree::Union(ts);
    let c = Tree::Concat(ts);
    assert(children(u) == ts);
    assert(children(c) == ts);
    match u {
        Tree::Union(cs) => {
            assert(cs == ts);
            if plain(u) {
                assert forall|i: int| 0 <= i < ts.len() implies plain(#[trigger] ts[i]) by {
                    assert(plain(cs[i]));
                }
            }
            if ts.len() >= 1 && all_plain(ts) {
                assert forall|i: int| 0 <= i < cs.len() implies plain(#[trigger] cs[i]) by {
                    assert(plain(ts[i]));
                }
            }
        },
        _ => {},
    }
    match c {
        Tree::Concat(cs) => {
            assert(cs == ts);
            if plain(c) {
                assert forall|i: int| 0 <= i < ts.len() implies plain(#[trigger] ts[i]) by {
                    assert(plain(cs[i]));
                }
            }
            if all_plain(ts) {
                assert forall|i: int| 0 <= i < cs.len() implies plain(#[trigger] cs[i]) by {
                    assert(plain(ts[i]));
                }
            }
        },
        _ => {},
    }
}

/// Expressions that match the same words have the same language.
pub proof fn lemma_alike_matched<V>(a: Tree<V>, b: Tree<V>, alphabet: Set<V>)
    requires
        alike(a, b, alphabet),
    ensures
        a.matched(alphabet) == b.matched(alphabet),
{
    assert forall|w: Seq<V>| #[trigger] a.matched(alphabet)(w) == b.matched(alphabet)(w) by {
        assert(a.matches(alphabet, w) <==> b.matches(alphabet, w));
    }
    assert(a.matched(alphabet) =~= b.matched(alphabet));
}

/// Unions of options that match the same words match the same words.
pub proof fn lemma_union_alike<V>(xs: Seq<Tree<V>>, ys: Seq<Tree<V>>, alphabet: Set<V>)
    requires
        all_alike(xs, ys, alphabet),
    ensures
        alike(Tree::Union(xs), Tree::Union(ys), alphabet),
{
    assert forall|w: Seq<V>| #[trigger]
        Tree::Union(xs).matches(alphabet, w) <==> Tree::Union(ys).matches(alphabet, w) by {
        lemma_union_unfold(xs, alphabet, w);
        lemma_union_unfold(ys, alphabet, w);
        if Tree::Union(xs).matches(alphabet, w) {
            let i = choose|i: int| 0 <= i < xs.len() && (#[trigger] xs[i]).matches(alphabet, w);
            assert(alike(xs[i], ys[i], alphabet));
            assert(ys[i].matches(alphabet, w));
        }
        if Tree::Union(ys).matches(alphabet, w) {
            let i = choose|i: int| 0 <= i < ys.len() && (#[trigger] ys[i]).matches(alphabet, w);
            assert(alike(xs[i], ys[i], alphabet));
            assert(xs[i].matches(alphabet, w));
        }
    }
}

/// Lists of parts that match the same words match the same words one after
/// the other.
pub proof fn lemma_concat_alike<V>(
    xs: Seq<Tree<V>>,
    ys: Seq<Tree<V>>,
    alphabet: Set<V>,
    w: Seq<V>,
)
    requires
        all_alike(xs, ys, alphabet),
    ensures
        Tree::matches_all(xs, alphabet, w) <==> Tree::matches_all(ys, alphabet, w),
    decreases xs.len(),
{
    if xs.len() > 0 {
        let xf = xs.drop_last();
        let yf = ys.drop_last();
        assert forall|i: int| 0 <= i < xf.len() implies alike(#[trigger] xf[i], yf[i], alphabet) by {
            assert(alike(xs[i], ys[i], alphabet));
        }
        assert(alike(xs[xs.len() - 1], ys[xs.len() - 1], alphabet));
        if Tree::matches_all(xs, alphabet, w) {
            let k = choose|k: int|
                0 <= k <= w.len() && Tree::matches_all(xf, alphabet, #[trigger] w.take(k))
                    && xs.last().matches(alphabet, w.skip(k));
            lemma_concat_alike(xf, yf, alphabet, w.take(k));
            assert(ys.last().matches(alphabet, w.skip(k)));
        }
        if Tree::matches_all(ys, alphabet, w) {
            let k = choose|k: int|
                0 <= k <= w.len() && Tree::matches_all(yf, alphabet, #[trigger] w.take(k))
                    && ys.last().matches(alphabet, w.skip(k));
            lemma_concat_alike(xf, yf, alphabet, w.take(k));
            assert(xs.last().matches(alphabet, w.skip(k)));
        }
    }
}

/// What a repetition matches, by the language of its operand.
pub proof fn lemma_repeat_unfold<V>(
    x: Tree<V>,
    lo: nat,
    hi: Option<nat>,
    alphabet: Set<V>,
    w: Seq<V>,
)
    ensures
        Tree::Repeat(Box::new(x), lo, hi).matches(alphabet, w) <==> in_repeat(
            x.matched(alphabet),
            lo,
            hi,
            w,
        ),
{
}

/// A repetition that may be taken no times matches the empty word.
pub proof fn lemma_zero_repeat_empty<V>(t: Tree<V>, alphabet: Set<V>)
    requires
        is_zero_repeat(t),
        plain(t),
    ensures
        t.matches(alphabet, Seq::<V>::empty()),
{
    match t {
        Tree::Repeat(c, lo, hi) => {
            let l = c.matched(alphabet);
            assert(in_power(l, 0, Seq::<V>::empty()));
            assert(lo <= 0 && (hi is Some ==> 0 <= hi->0));
            assert(in_repeat(l, lo, hi, Seq::<V>::empty()));
        },
        _ => {},
    }
}

/// Plain expressions after one more, pushed or inserted.
pub proof fn lemma_plain_push<V>(ts: Seq<Tree<V>>, x: Tree<V>)
    requires
        all_plain(ts),
        plain(x),
    ensures
        all_plain(ts.push(x)),
        all_plain(inserted(ts, x)),
        inserted(ts, x).len() >= 1,
{
    let ts2 = ts.push(x);
    assert forall|i: int| 0 <= i < ts2.len() implies plain(#[trigger] ts2[i]) by {
        if i < ts.len() {
            assert(plain(ts[i]));
        }
    }
    if ts.contains(x) {
        let i = choose|i: int| 0 <= i < ts.len() && ts[i] == x;
    }
}

/// Plain expressions after more of them, appended or inserted.
pub proof fn lemma_plain_add<V>(a: Seq<Tree<V>>, b: Seq<Tree<V>>)
    requires
        all_plain(a),
        all_plain(b),
    ensures
        all_plain(a + b),
        all_plain(inserted_all(a, b)),
        b.len() >= 1 ==> inserted_all(a, b).len() >= 1,
    decreases b.len(),
{
    let ab = a + b;
    assert forall|i: int| 0 <= i < ab.len() implies plain(#[trigger] ab[i]) by {
        if i < a.len() {
            assert(plain(a[i]));
        } else {
            assert(plain(b[i - a.len()]));
        }
    }
    if b.len() > 0 {
        let front = b.drop_last();
        assert forall|i: int| 0 <= i < front.len() implies plain(#[trigger] front[i]) by {
            assert(plain(b[i]));
        }
        lemma_plain_add(a, front);
        assert(plain(b[b.len() - 1]));
        lemma_plain_push(inserted_all(a, front), b.last());
    }
}

/// The front and the last of plain expressions are plain.
pub proof fn lemma_plain_front<V>(ts: Seq<Tree<V>>)
    requires
        all_plain(ts),
        ts.len() > 0,
    ensures
        all_plain(ts.drop_last()),
        all_plain(ts.drop_first()),
        plain(ts.last()),
        plain(ts[0]),
{
    let front = ts.drop_last();
    assert forall|i: int| 0 <= i < front.len() implies plain(#[trigger] front[i]) by {
        assert(plain(ts[i]));
    }
    let back = ts.drop_first();
    assert forall|i: int| 0 <= i < back.len() implies plain(#[trigger] back[i]) by {
        assert(plain(ts[i + 1]));
    }
    assert(plain(ts[ts.len() - 1]));
}

/// The gathered children of plain children are plain, there is one where
/// there was one, and their union matches what the union of the children
/// matches.
pub proof fn lemma_gathered_language<V>(cs: Seq<Tree<V>>, alphabet: Set<V>, w: Seq<V>)
    requires
        all_plain(cs),
    ensures
        all_plain(gathered(cs)),
        cs.len() >= 1 ==> gathered(cs).len() >= 1,
        Tree::Union(gathered(cs)).matches(alphabet, w) <==> Tree::Union(cs).matches(alphabet, w),
    decreases cs.len(),
{
    if cs.len() == 0 {
        assert(gathered(cs) =~= cs);
    } else {
        let front = cs.drop_last();
        let last = cs.last();
        let before = gathered(front);
        lemma_plain_front(cs);
        lemma_gathered_language(front, alphabet, w);
        assert(front.push(last) =~= cs);
        lemma_union_push(front, last, alphabet, w);
        match last {
            Tree::Empty => {},
            Tree::Union(inner) => {
                lemma_group_plain(inner);
                lemma_plain_add(before, inner);
                lemma_union_inserted_all(before, inner, alphabet, w);
            },
            _ => {
                lemma_plain_push(before, last);
                lemma_union_inserted(before, last, alphabet, w);
            },
        }
    }
}

/// What is left without the empty word is plain and holds no empty word;
/// with the empty word, where there was one, it matches what the list
/// matched; and it is empty only where the list held empty words alone.
pub proof fn lemma_without_epsilon_language<V>(ts: Seq<Tree<V>>, alphabet: Set<V>, w: Seq<V>)
    requires
        all_plain(ts),
    ensures
        all_plain(without_epsilon(ts)),
        forall|i: int|
            0 <= i < without_epsilon(ts).len() ==> !((#[trigger] without_epsilon(ts)[i]) is Epsilon),
        Tree::Union(ts).matches(alphabet, w) <==> (Tree::Union(without_epsilon(ts)).matches(
            alphabet,
            w,
        ) || (ts.contains(Tree::Epsilon) && w.len() == 0)),
        any_zero_repeat(ts) <==> any_zero_repeat(without_epsilon(ts)),
        without_epsilon(ts).len() == 0 ==> forall|i: int|
            0 <= i < ts.len() ==> (#[trigger] ts[i]) is Epsilon,
    decreases ts.len(),
{
    let we = without_epsilon(ts);
    if ts.len() == 0 {
        lemma_union_unfold(ts, alphabet, w);
        if ts.contains(Tree::Epsilon) {
            let i = choose|i: int| 0 <= i < ts.len() && ts[i] == Tree::<V>::Epsilon;
        }
    } else {
        let front = ts.drop_last();
        let last = ts.last();
        let before = without_epsilon(front);
        lemma_plain_front(ts);
        lemma_without_epsilon_language(front, alphabet, w);
        assert(front.push(last) =~= ts);
        lemma_union_push(front, last, alphabet, w);
        crate::sets::lemma_push_contains(front, last, Tree::Epsilon);
        if last is Epsilon {
            assert(last == Tree::<V>::Epsilon);
            assert(last.matches(alphabet, w) <==> w.len() == 0);
        } else {
            lemma_plain_push(before, last);
            lemma_union_push(before, last, alphabet, w);
            assert forall|i: int| 0 <= i < we.len() implies !((#[trigger] we[i]) is Epsilon) by {
                if i < before.len() {
                    assert(!(before[i] is Epsilon));
                }
            }
        }
        if any_zero_repeat(ts) {
            let i = choose|i: int| 0 <= i < ts.len() && is_zero_repeat(#[trigger] ts[i]);
            if i < front.len() {
                assert(is_zero_repeat(front[i]));
                let j = choose|j: int| 0 <= j < before.len() && is_zero_repeat(#[trigger] before[j]);
                assert(is_zero_repeat(we[j]));
            } else {
                assert(is_zero_repeat(we[we.len() - 1]));
            }
        }
        if any_zero_repeat(we) {
            let j = choose|j: int| 0 <= j < we.len() && is_zero_repeat(#[trigger] we[j]);
            if j < before.len() {
                assert(is_zero_repeat(before[j]));
                let i = choose|i: int| 0 <= i < front.len() && is_zero_repeat(#[trigger] front[i]);
                assert(is_zero_repeat(ts[i]));
            } else {
                assert(is_zero_repeat(ts[ts.len() - 1]));
            }
        }
        if we.len() == 0 {
            assert forall|i: int| 0 <= i < ts.len() implies (#[trigger] ts[i]) is Epsilon by {
                if i < front.len() {
                    assert(front[i] is Epsilon);
                }
            }
        }
    }
}

/// The children of the union after the empty word is left out where another
/// child may be taken no times are plain and match what the children
/// matched.
pub proof fn lemma_settled_language<V>(set: Seq<Tree<V>>, alphabet: Set<V>, w: Seq<V>)
    requires
        all_plain(set),
    ensures
        all_plain(settled(set)),
        Tree::Union(settled(set)).matches(alphabet, w) <==> Tree::Union(set).matches(alphabet, w),
{
    if any_zero_repeat(set) {
        lemma_without_epsilon_language(set, alphabet, w);
        let we = without_epsilon(set);
        let j = choose|j: int| 0 <= j < we.len() && is_zero_repeat(#[trigger] we[j]);
        assert(plain(we[j]));
        lemma_zero_repeat_empty(we[j], alphabet);
        lemma_union_unfold(we, alphabet, w);
        if w.len() == 0 {
            assert(w =~= Seq::<V>::empty());
            assert(we[j].matches(alphabet, w));
        }
    }
}

/// The spliced children of plain children are plain, and match one after
/// the other what the children matched.
pub proof fn lemma_spliced_language<V>(cs: Seq<Tree<V>>, alphabet: Set<V>, w: Seq<V>)
    requires
        all_plain(cs),
    ensures
        all_plain(spliced(cs)),
        Tree::matches_all(spliced(cs), alphabet, w) <==> Tree::matches_all(cs, alphabet, w),
    decreases cs.len(),
{
    if cs.len() == 0 {
        assert(spliced(cs) =~= cs);
    } else {
        let front = cs.drop_last();
        let last = cs.last();
        let before = spliced(front);
        lemma_plain_front(cs);
        lemma_spliced_language(front, alphabet, w);
        let part: Seq<Tree<V>> = match last {
            Tree::Epsilon => Seq::empty(),
            Tree::Concat(inner) => inner,
            _ => seq![last],
        };
        assert(spliced(cs) =~= before + part) by {
            match last {
                Tree::Epsilon => {
                    assert(before + part =~= before);
                },
                Tree::Concat(inner) => {},
                _ => {
                    assert(before + seq![last] =~= before.push(last));
                },
            }
        }
        match last {
            Tree::Concat(inner) => {
                lemma_group_plain(inner);
            },
            _ => {
                assert forall|i: int| 0 <= i < part.len() implies plain(#[trigger] part[i]) by {}
            },
        }
        lemma_plain_add(before, part);
        lemma_concat_append(before, part, alphabet, w);
        assert forall|u: Seq<V>| #[trigger]
            Tree::Concat(before).matched(alphabet)(u) == Tree::matches_all(front, alphabet, u) by {
            lemma_concat_unfold(before, alphabet, u);
            lemma_spliced_language(front, alphabet, u);
        }
        assert forall|u: Seq<V>| #[trigger]
            Tree::Concat(part).matched(alphabet)(u) == last.matches(alphabet, u) by {
            lemma_concat_unfold(part, alphabet, u);
            match last {
                Tree::Epsilon => {},
                Tree::Concat(inner) => {
                    lemma_concat_unfold(inner, alphabet, u);
                },
                _ => {
                    lemma_concat_one(last, alphabet, u);
                },
            }
        }
        if Tree::matches_all(cs, alphabet, w) {
            let k = choose|k: int|
                0 <= k <= w.len() && Tree::matches_all(front, alphabet, #[trigger] w.take(k))
                    && last.matches(alphabet, w.skip(k));
            assert(Tree::Concat(before).matched(alphabet)(w.take(k)) && Tree::Concat(part).matched(
                alphabet,
            )(w.skip(k)));
        }
        if in_concat(Tree::Concat(before).matched(alphabet), Tree::Concat(part).matched(alphabet), w) {
            let k = choose|k: int|
                0 <= k <= w.len() && Tree::Concat(before).matched(alphabet)(#[trigger] w.take(k))
                    && Tree::Concat(part).matched(alphabet)(w.skip(k));
            assert(Tree::matches_all(front, alphabet, w.take(k)) && last.matches(
                alphabet,
                w.skip(k),
            ));
        }
    }
}

/// The concatenation rule gives a plain expression that matches what the
/// concatenation of the children matches.
pub proof fn lemma_concat_rule_language<V>(cs: Seq<Tree<V>>, alphabet: Set<V>, w: Seq<V>)
    requires
        all_plain(cs),
    ensures
        plain(concat_rule(cs)),
        concat_rule(cs).matches(alphabet, w) <==> Tree::matches_all(cs, alphabet, w),
{
    let list = spliced(cs);
    lemma_spliced_language(cs, alphabet, w);
    lemma_group_plain(list);
    lemma_concat_unfold(list, alphabet, w);
    if list.contains(Tree::Empty) {
        let i = choose|i: int| 0 <= i < list.len() && list[i] == Tree::<V>::Empty;
        assert(plain(list[i]));
    }
    if list.len() == 1 {
        assert(plain(list[0]));
        assert(list =~= seq![list[0]]);
        lemma_concat_one(list[0], alphabet, w);
    }
}

/// A plain expression is its head followed by its tail, and both are plain.
pub proof fn lemma_head_tail_language<V>(t: Tree<V>, alphabet: Set<V>, w: Seq<V>)
    requires
        plain(t),
    ensures
        plain(head(t)),
        plain(tail(t)),
        t.matches(alphabet, w) <==> in_concat(
            head(t).matched(alphabet),
            tail(t).matched(alphabet),
            w,
        ),
{
    let h = head(t).matched(alphabet);
    let r = tail(t).matched(alphabet);
    let whole = match t {
        Tree::Concat(ts) => ts.len() == 0,
        _ => true,
    };
    if whole {
        if t.matches(alphabet, w) {
            assert(w.take(w.len() as int) =~= w);
            assert(h(w.take(w.len() as int)) && r(w.skip(w.len() as int)));
        }
        if in_concat(h, r, w) {
            let k = choose|k: int| 0 <= k <= w.len() && h(#[trigger] w.take(k)) && r(w.skip(k));
            assert(w.take(k) =~= w);
        }
    } else {
        match t {
            Tree::Concat(ts) => {
                lemma_group_plain(ts);
                lemma_plain_front(ts);
                let first = seq![ts[0]];
                let rest = ts.drop_first();
                assert(first + rest =~= ts);
                lemma_group_plain(rest);
                lemma_concat_unfold(ts, alphabet, w);
                lemma_concat_append(first, rest, alphabet, w);
                assert forall|u: Seq<V>| #[trigger]
                    Tree::Concat(first).matched(alphabet)(u) == h(u) by {
                    lemma_concat_unfold(first, alphabet, u);
                    lemma_concat_one(ts[0], alphabet, u);
                }
                assert(Tree::Concat(first).matched(alphabet) =~= h);
                assert forall|u: Seq<V>| #[trigger]
                    Tree::Concat(rest).matched(alphabet)(u) == r(u) by {
                    lemma_concat_unfold(rest, alphabet, u);
                    if ts.len() == 2 {
                        assert(rest =~= seq![ts[1]]);
                        lemma_concat_one(ts[1], alphabet, u);
                    } else if ts.len() == 1 {
                        assert(rest =~= Seq::<Tree<V>>::empty());
                    }
                }
                assert(Tree::Concat(rest).matched(alphabet) =~= r);
                if ts.len() == 2 {
                    assert(plain(ts[1]));
                }
            },
            _ => {},
        }
    }
}

/// The tails of plain expressions are plain, there is one where there was
/// an expression, and their union matches the tails of the expressions.
pub proof fn lemma_tails_language<V>(ts: Seq<Tree<V>>, alphabet: Set<V>, w: Seq<V>)
    requires
        all_plain(ts),
    ensures
        all_plain(tails(ts)),
        ts.len() >= 1 ==> tails(ts).len() >= 1,
        Tree::Union(tails(ts)).matches(alphabet, w) <==> exists|i: int|
            0 <= i < ts.len() && tail(#[trigger] ts[i]).matches(alphabet, w),
    decreases ts.len(),
{
    if ts.len() == 0 {
        lemma_union_unfold(tails(ts), alphabet, w);
    } else {
        let front = ts.drop_last();
        let last = ts.last();
        lemma_plain_front(ts);
        lemma_tails_language(front, alphabet, w);
        lemma_head_tail_language(last, alphabet, w);
        lemma_plain_push(tails(front), tail(last));
        lemma_union_inserted(tails(front), tail(last), alphabet, w);
        if exists|i: int| 0 <= i < front.len() && tail(#[trigger] front[i]).matches(alphabet, w) {
            let i = choose|i: int|
                0 <= i < front.len() && tail(#[trigger] front[i]).matches(alphabet, w);
            assert(tail(ts[i]).matches(alphabet, w));
        }
        if tail(last).matches(alphabet, w) {
            assert(tail(ts[ts.len() - 1]).matches(alphabet, w));
        }
        if exists|i: int| 0 <= i < ts.len() && tail(#[trigger] ts[i]).matches(alphabet, w) {
            let i = choose|i: int| 0 <= i < ts.len() && tail(#[trigger] ts[i]).matches(alphabet, w);
            if i < front.len() {
                assert(tail(front[i]).matches(alphabet, w));
            }
        }
    }
}

/// A union of plain options that all begin with `p` matches `p` followed by
/// the union of the tails.
pub proof fn lemma_factor_language<V>(ts: Seq<Tree<V>>, p: Tree<V>, alphabet: Set<V>, w: Seq<V>)
    requires
        all_plain(ts),
        all_begin_with(ts, p),
    ensures
        Tree::Union(ts).matches(alphabet, w) <==> in_concat(
            p.matched(alphabet),
            Tree::Union(tails(ts)).matched(alphabet),
            w,
        ),
{
    let lp = p.matched(alphabet);
    let lt = Tree::Union(tails(ts)).matched(alphabet);
    lemma_union_unfold(ts, alphabet, w);
    if Tree::Union(ts).matches(alphabet, w) {
        let i = choose|i: int| 0 <= i < ts.len() && (#[trigger] ts[i]).matches(alphabet, w);
        assert(plain(ts[i]));
        assert(head(ts[i]) == p);
        lemma_head_tail_language(ts[i], alphabet, w);
        let k = choose|k: int|
            0 <= k <= w.len() && lp(#[trigger] w.take(k)) && tail(ts[i]).matched(alphabet)(
                w.skip(k),
            );
        lemma_tails_language(ts, alphabet, w.skip(k));
        assert(tail(ts[i]).matches(alphabet, w.skip(k)));
        assert(lt(w.skip(k)));
    }
    if in_concat(lp, lt, w) {
        let k = choose|k: int| 0 <= k <= w.len() && lp(#[trigger] w.take(k)) && lt(w.skip(k));
        lemma_tails_language(ts, alphabet, w.skip(k));
        let i = choose|i: int|
            0 <= i < ts.len() && tail(#[trigger] ts[i]).matches(alphabet, w.skip(k));
        assert(plain(ts[i]));
        assert(head(ts[i]) == p);
        lemma_head_tail_language(ts[i], alphabet, w);
        assert(head(ts[i]).matched(alphabet)(w.take(k)) && tail(ts[i]).matched(alphabet)(
            w.skip(k),
        ));
        assert(ts[i].matches(alphabet, w));
    }
}

/// The union rule gives a plain expression that matches what the union of
/// the children matches.
pub proof fn lemma_union_rule_language<V>(cs: Seq<Tree<V>>, alphabet: Set<V>, w: Seq<V>)
    requires
        all_plain(cs),
        cs.len() >= 1,
    ensures
        plain(union_rule(cs)),
        union_rule(cs).matches(alphabet, w) <==> Tree::Union(cs).matches(alphabet, w),
    decreases total(cs),
{
    let set = gathered(cs);
    let set2 = settled(set);
    lemma_gathered_language(cs, alphabet, w);
    lemma_settled_language(set, alphabet, w);
    lemma_group_plain(set2);
    lemma_union_unfold(set, alphabet, w);
    if set.len() == 1 {
        assert(plain(set[0]));
        if Tree::Union(set).matches(alphabet, w) {
            let i = choose|i: int| 0 <= i < set.len() && (#[trigger] set[i]).matches(alphabet, w);
        }
    } else if set.len() == 2 && set.contains(Tree::Epsilon) {
        let x = other_than_epsilon(set);
        let j = choose|j: int| 0 <= j < set.len() && set[j] == Tree::<V>::Epsilon;
        assert(plain(set[0]) && plain(set[1]));
        lemma_repeat_unfold(x, 0, Some(1nat), alphabet, w);
        lemma_repeat_once(x.matched(alphabet), w);
        if Tree::Union(set).matches(alphabet, w) {
            let i = choose|i: int| 0 <= i < set.len() && (#[trigger] set[i]).matches(alphabet, w);
            if set[i] is Epsilon {
            } else {
                assert(set[i] == x);
            }
        }
        if w.len() == 0 {
            assert(set[j].matches(alphabet, w));
        }
        if x.matches(alphabet, w) {
            if set[0] is Epsilon {
                assert(set[1].matches(alphabet, w));
            } else {
                assert(set[0].matches(alphabet, w));
            }
        }
    } else if factors(cs) {
        lemma_tails_smaller(cs);
        let p = head(set2[0]);
        let ts = tails(set2);
        let u = union_rule(ts);
        assert(plain(set2[0]));
        lemma_head_tail_language(set2[0], alphabet, w);
        lemma_tails_language(set2, alphabet, w);
        lemma_union_rule_language(ts, alphabet, w);
        let pair = seq![p, u];
        assert forall|i: int| 0 <= i < pair.len() implies plain(#[trigger] pair[i]) by {}
        lemma_concat_rule_language(pair, alphabet, w);
        lemma_factor_language(set2, p, alphabet, w);
        assert forall|y: Seq<V>| #[trigger]
            u.matched(alphabet)(y) == Tree::Union(ts).matched(alphabet)(y) by {
            lemma_union_rule_language(ts, alphabet, y);
        }
        assert(u.matched(alphabet) =~= Tree::Union(ts).matched(alphabet));
        assert(pair.drop_last() =~= seq![p]);
        assert forall|y: Seq<V>|
            Tree::matches_all(seq![p], alphabet, y) == #[trigger] p.matched(alphabet)(y) by {
            lemma_concat_one(p, alphabet, y);
        }
        if Tree::matches_all(pair, alphabet, w) {
            let k = choose|k: int|
                0 <= k <= w.len() && Tree::matches_all(
                    pair.drop_last(),
                    alphabet,
                    #[trigger] w.take(k),
                ) && pair.last().matches(alphabet, w.skip(k));
            assert(p.matched(alphabet)(w.take(k)) && u.matched(alphabet)(w.skip(k)));
        }
        if in_concat(p.matched(alphabet), u.matched(alphabet), w) {
            let k = choose|k: int|
                0 <= k <= w.len() && p.matched(alphabet)(#[trigger] w.take(k)) && u.matched(
                    alphabet,
                )(w.skip(k));
            assert(Tree::matches_all(pair.drop_last(), alphabet, w.take(k)) && pair.last().matches(
                alphabet,
                w.skip(k),
            ));
        }
    } else {
        if any_zero_repeat(set) {
            lemma_without_epsilon_language(set, alphabet, w);
            let we = without_epsilon(set);
            if we.len() == 0 {
                let i = choose|i: int| 0 <= i < set.len() && is_zero_repeat(#[trigger] set[i]);
                assert(set[i] is Epsilon);
            }
        }
    }
}

/// The repetition rule gives a plain expression that matches what the
/// repetition of the child matches.
pub proof fn lemma_repeat_rule_language<V>(
    x: Tree<V>,
    lo: nat,
    hi: Option<nat>,
    alphabet: Set<V>,
    w: Seq<V>,
)
    requires
        plain(x),
        hi is Some ==> lo <= hi->0 && hi->0 >= 1,
    ensures
        plain(repeat_rule(x, lo, hi)),
        repeat_rule(x, lo, hi).matches(alphabet, w) <==> in_repeat(
            x.matched(alphabet),
            lo,
            hi,
            w,
        ),
{
    let l = x.matched(alphabet);
    if x is Epsilon {
        assert forall|y: Seq<V>| #[trigger] l(y) == only_empty::<V>()(y) by {}
        assert(l =~= only_empty::<V>());
        if in_repeat(l, lo, hi, w) {
            let n = choose|n: nat|
                lo <= n && (hi is Some ==> n <= hi->0) && #[trigger] in_power(l, n, w);
            lemma_power_of_empty::<V>(n, w);
        }
        if w.len() == 0 {
            lemma_power_of_empty::<V>(lo, w);
            assert(in_power(l, lo, w));
        }
    } else if lo == 1 && hi == Some(1nat) {
        lemma_repeat_once(l, w);
    } else if is_star(x) {
        let y = repeated(x);
        let ly = y.matched(alphabet);
        assert forall|v: Seq<V>| #[trigger] l(v) == star(ly)(v) by {
            crate::laws::kleene::lemma_star_matches(y, alphabet, v);
        }
        assert(l =~= star(ly));
        lemma_repeat_of_star(ly, lo, hi, w);
        crate::laws::kleene::lemma_star_matches(y, alphabet, w);
    } else if lo == 0 && hi is None && is_low_repeat(x) {
        lemma_low_repeat_star(x, alphabet, w);
    } else if lo == 0 && x is Union {
        let ts = children(x);
        let u = without_epsilon(ts);
        lemma_group_plain(ts);
        lemma_without_epsilon_language(ts, alphabet, w);
        lemma_group_plain(u);
        let lu = Tree::Union(u).matched(alphabet);
        // what the union matches, by what is left without the empty word
        if ts.contains(Tree::Epsilon) {
            assert forall|v: Seq<V>| #[trigger] l(v) == or_empty(lu)(v) by {
                lemma_without_epsilon_language(ts, alphabet, v);
            }
            assert(l =~= or_empty(lu));
            lemma_repeat_or_empty(lu, hi, w);
        } else {
            assert forall|v: Seq<V>| #[trigger] l(v) == lu(v) by {
                lemma_without_epsilon_language(ts, alphabet, v);
            }
            assert(l =~= lu);
        }
        assert(in_repeat(l, 0, hi, w) <==> in_repeat(lu, 0, hi, w));
        if hi == Some(1nat) {
            let u2 = if any_zero_repeat(u) {
                u
            } else {
                u.push(Tree::Epsilon)
            };
            lemma_repeat_once(lu, w);
            if any_zero_repeat(u) {
                let j = choose|j: int| 0 <= j < u.len() && is_zero_repeat(#[trigger] u[j]);
                assert(plain(u[j]));
                lemma_zero_repeat_empty(u[j], alphabet);
                lemma_union_unfold(u, alphabet, w);
                if w.len() == 0 {
                    assert(w =~= Seq::<V>::empty());
                    assert(u[j].matches(alphabet, w));
                }
            } else {
                lemma_plain_push(u, Tree::Epsilon);
                lemma_union_push(u, Tree::Epsilon, alphabet, w);
            }
            lemma_union_rule_language(u2, alphabet, w);
        } else if u.len() == 0 {
            lemma_union_unfold(u, alphabet, w);
            assert forall|v: Seq<V>| !(#[trigger] lu(v)) by {
                lemma_union_unfold(u, alphabet, v);
            }
            if in_repeat(lu, 0, hi, w) {
                let n = choose|n: nat|
                    0 <= n && (hi is Some ==> n <= hi->0) && #[trigger] in_power(lu, n, w);
                if n > 0 {
                    let k = choose|k: int|
                        0 <= k <= w.len() && in_power(lu, (n - 1) as nat, #[trigger] w.take(k))
                            && lu(w.skip(k));
                }
            }
            if w.len() == 0 {
                assert(in_power(lu, 0, w));
            }
        } else if u.len() == 1 {
            assert(plain(u[0]));
            assert forall|v: Seq<V>| #[trigger] lu(v) == u[0].matched(alphabet)(v) by {
                lemma_union_unfold(u, alphabet, v);
                if lu(v) {
                    let i = choose|i: int| 0 <= i < u.len() && (#[trigger] u[i]).matches(alphabet, v);
                }
            }
            assert(lu =~= u[0].matched(alphabet));
            lemma_repeat_unfold(u[0], 0, hi, alphabet, w);
        } else {
            lemma_repeat_unfold(Tree::Union(u), 0, hi, alphabet, w);
        }
    } else {
        lemma_repeat_unfold(x, lo, hi, alphabet, w);
    }
}

/// The star of a repetition that may be taken once, and not only no times,
/// matches what the star of its operand matches.
pub proof fn lemma_low_repeat_star<V>(x: Tree<V>, alphabet: Set<V>, w: Seq<V>)
    requires
        plain(x),
        is_low_repeat(x),
    ensures
        Tree::Repeat(Box::new(repeated(x)), 0, None).matches(alphabet, w) <==> in_repeat(
            x.matched(alphabet),
            0,
            None,
            w,
        ),
{
    let y = repeated(x);
    let ly = y.matched(alphabet);
    let lx = x.matched(alphabet);
    crate::laws::kleene::lemma_star_matches(y, alphabet, w);
    match x {
        Tree::Repeat(c, ilo, ihi) => {
            assert forall|v: Seq<V>| #[trigger] lx(v) == in_repeat(ly, ilo, ihi, v) by {}
            assert forall|v: Seq<V>| #[trigger] ly(v) implies lx(v) by {
                lemma_power_one(ly, v);
                assert(ilo <= 1 && (ihi is Some ==> 1 <= ihi->0) && in_power(ly, 1, v));
            }
            assert forall|v: Seq<V>| #[trigger] lx(v) implies star(ly)(v) by {
                let n = choose|n: nat|
                    ilo <= n && (ihi is Some ==> n <= ihi->0) && #[trigger] in_power(ly, n, v);
                assert(in_power(ly, n, v));
            }
            if in_star(ly, w) {
                let n = choose|n: nat| #[trigger] in_power(ly, n, w);
                lemma_power_grows(ly, lx, n, w);
                assert(0 <= n && (None::<nat> is Some ==> n <= None::<nat>->0) && in_power(
                    lx,
                    n,
                    w,
                ));
            }
            if in_repeat(lx, 0, None, w) {
                let n = choose|n: nat|
                    0 <= n && (None::<nat> is Some ==> n <= None::<nat>->0) && #[trigger] in_power(
                        lx,
                        n,
                        w,
                    );
                lemma_power_grows(lx, star(ly), n, w);
                lemma_power_of_star(ly, n, w);
            }
        },
        _ => {},
    }
}

/// The reduced form of a plain expression is plain and matches what the
/// expression matches.
pub proof fn lemma_simplified_language<V>(t: Tree<V>, alphabet: Set<V>, w: Seq<V>)
    requires
        plain(t),
    ensures
        plain(t.simplified()),
        t.simplified().matches(alphabet, w) <==> t.matches(alphabet, w),
    decreases t, 0nat,
{
    match t {
        Tree::Union(ts) => {
            lemma_group_plain(ts);
            assert(plain(ts[0]));
            assert(!all_empty(ts));
            let cs = Tree::simplified_all(ts);
            lemma_simplified_all_language(ts, alphabet);
            lemma_union_rule_language(cs, alphabet, w);
            lemma_union_alike(cs, ts, alphabet);
        },
        Tree::Concat(ts) => {
            lemma_group_plain(ts);
            let cs = Tree::simplified_all(ts);
            lemma_simplified_all_language(ts, alphabet);
            lemma_concat_rule_language(cs, alphabet, w);
            lemma_concat_alike(cs, ts, alphabet, w);
            lemma_concat_unfold(ts, alphabet, w);
        },
        Tree::Repeat(c, lo, hi) => {
            lemma_simplified_language(*c, alphabet, w);
            let x = c.simplified();
            lemma_repeat_rule_language(x, lo, hi, alphabet, w);
            assert forall|v: Seq<V>| #[trigger] x.matches(alphabet, v) <==> c.matches(
                alphabet,
                v,
            ) by {
                lemma_simplified_language(*c, alphabet, v);
            }
            lemma_alike_matched(x, *c, alphabet);
        },
        _ => {},
    }
}

/// The reduced forms of plain expressions are plain and match, place by
/// place, what the expressions match.
pub proof fn lemma_simplified_all_language<V>(ts: Seq<Tree<V>>, alphabet: Set<V>)
    requires
        all_plain(ts),
    ensures
        all_plain(Tree::simplified_all(ts)),
        all_alike(Tree::simplified_all(ts), ts, alphabet),
    decreases ts, 1nat,
{
    if ts.len() > 0 {
        let front = ts.drop_last();
        let last = ts.last();
        lemma_plain_front(ts);
        lemma_simplified_all_language(front, alphabet);
        lemma_simplified_language(last, alphabet, Seq::empty());
        let cs = Tree::simplified_all(ts);
        assert(cs == Tree::simplified_all(front).push(last.simplified()));
        lemma_plain_push(Tree::simplified_all(front), last.simplified());
        assert forall|i: int| 0 <= i < cs.len() implies alike(#[trigger] cs[i], ts[i], alphabet) by {
            if i < front.len() {
                assert(alike(Tree::simplified_all(front)[i], front[i], alphabet));
            } else {
                assert forall|v: Seq<V>| #[trigger]
                    cs[i].matches(alphabet, v) <==> ts[i].matches(alphabet, v) by {
                    lemma_simplified_language(last, alphabet, v);
                }
            }
        }
    }
}

} // verus!
