//! What the parser reads back from the printed form of a legible expression
//! matches the words that the expression matches.
use crate::laws::minimal::lemma_one_to_one_bound;
use crate::language::lemma_repeat_once;
use crate::parser::{chosen, joined, parsed, tokens_of, Fault};
use crate::regex::algebra::{inserted_all, lemma_concat_one, lemma_union_inserted_all};
use crate::regex::readback::{
    back, back_all, legible, lemma_back_all_at, lemma_back_others, lemma_group_back, lemma_group_legible, lemma_others, optional_dot, others,
};
use crate::regex::readback_parse::lemma_back_inner;
use crate::regex::readback_text::lemma_legible_text;
use crate::regex::texts::{lemma_stands_whole, lemma_wf_no_stranger};
use crate::regex::rules_language::{
    alike, all_alike, lemma_alike_matched, lemma_concat_alike, lemma_repeat_unfold,
    lemma_union_alike,
};
use crate::regex::tree::{lemma_concat_unfold, lemma_union_unfold, Tree};
use vstd::prelude::*;

verus! {

/// One option alone matches what the union of it matches.
pub proof fn lemma_chosen_alike(xs: Seq<Tree<char>>, alphabet: Set<char>)
    requires
        xs.len() >= 1,
    ensures
        alike(chosen(xs), Tree::Union(xs), alphabet),
        Tree::Union(xs).wf(alphabet) ==> chosen(xs).wf(alphabet),
{
    lemma_union_unfold(xs, alphabet, Seq::empty());
    assert forall|w: Seq<char>| #[trigger]
        chosen(xs).matches(alphabet, w) <==> Tree::Union(xs).matches(alphabet, w) by {
        lemma_union_unfold(xs, alphabet, w);
        if xs.len() == 1 {
            if Tree::Union(xs).matches(alphabet, w) {
                let i = choose|i: int| 0 <= i < xs.len() && (#[trigger] xs[i]).matches(alphabet, w);
                assert(i == 0);
            }
        }
    }
    if xs.len() == 1 && Tree::Union(xs).wf(alphabet) {
        assert(xs[0].wf(alphabet));
    }
}

/// One part alone matches what the concatenation of it matches.
pub proof fn lemma_joined_alike(xs: Seq<Tree<char>>, alphabet: Set<char>)
    ensures
        alike(joined(xs), Tree::Concat(xs), alphabet),
        Tree::Concat(xs).wf(alphabet) ==> joined(xs).wf(alphabet),
{
    lemma_concat_unfold(xs, alphabet, Seq::empty());
    assert forall|w: Seq<char>| #[trigger]
        joined(xs).matches(alphabet, w) <==> Tree::Concat(xs).matches(alphabet, w) by {
        lemma_concat_unfold(xs, alphabet, w);
        if xs.len() == 1 {
            assert(xs =~= seq![xs[0]]);
            lemma_concat_one(xs[0], alphabet, w);
        }
    }
    if xs.len() == 1 && Tree::Concat(xs).wf(alphabet) {
        assert(xs[0].wf(alphabet));
    }
}

/// Repetitions of operands that match the same words match the same words.
pub proof fn lemma_repeat_alike(
    a: Tree<char>,
    b: Tree<char>,
    lo: nat,
    hi: Option<nat>,
    alphabet: Set<char>,
)
    requires
        alike(a, b, alphabet),
    ensures
        alike(Tree::Repeat(Box::new(a), lo, hi), Tree::Repeat(Box::new(b), lo, hi), alphabet),
{
    lemma_alike_matched(a, b, alphabet);
}

/// Inserting into a list that is not empty, or a list that is not empty,
/// gives a list that is not empty.
pub proof fn lemma_inserted_all_some(acc: Seq<Tree<char>>, more: Seq<Tree<char>>)
    requires
        acc.len() + more.len() >= 1,
    ensures
        inserted_all(acc, more).len() >= 1,
    decreases more.len(),
{
    if more.len() > 0 {
        if acc.len() + more.drop_last().len() >= 1 {
            lemma_inserted_all_some(acc, more.drop_last());
        } else {
            assert(inserted_all(acc, more.drop_last()) =~= Seq::<Tree<char>>::empty());
        }
    }
}

/// A union that is printed as a dot with a question mark holds the empty
/// word and letters of the symbols, and nothing else.
pub proof fn lemma_optional_dot_children(ts: Seq<Tree<char>>, sigma: Seq<char>, j: int)
    requires
        optional_dot(ts, sigma),
        sigma.no_duplicates(),
        0 <= j < ts.len(),
    ensures
        ts[j] is Epsilon || (ts[j] is Letter && sigma.contains(ts[j]->Letter_0)),
{
    if !(ts[j] is Epsilon || (ts[j] is Letter && sigma.contains(ts[j]->Letter_0))) {
        let n = sigma.len() as int;
        let f = |i: int|
            if 0 <= i < n {
                choose|k: int| 0 <= k < ts.len() && ts[k] == Tree::Letter(sigma[i])
            } else {
                choose|k: int| 0 <= k < ts.len() && ts[k] == Tree::<char>::Epsilon
            };
        let g = |i: int|
            if f(i) > j {
                f(i) - 1
            } else {
                f(i)
            };
        assert forall|i: int| 0 <= i < n + 1 implies 0 <= f(i) < ts.len() && f(i) != j && (i < n
            ==> ts[f(i)] == Tree::Letter(sigma[i])) && (i == n ==> ts[f(i)]
            == Tree::<char>::Epsilon) by {
            if i < n {
                assert(ts.contains(Tree::Letter(sigma[i])));
                assert(sigma.contains(sigma[i]));
            } else {
                assert(ts.contains(Tree::Epsilon));
            }
        }
        assert forall|i: int| 0 <= i < n + 1 implies 0 <= #[trigger] g(i) < n by {
            assert(0 <= f(i) < ts.len() && f(i) != j);
        }
        assert forall|a: int, b: int| 0 <= a < b < n + 1 implies #[trigger] g(a) != #[trigger] g(
            b,
        ) by {
            assert(0 <= f(a) < ts.len() && f(a) != j);
            assert(0 <= f(b) < ts.len() && f(b) != j);
            if f(a) == f(b) {
                assert(ts[f(a)] == Tree::Letter(sigma[a]));
                if b < n {
                    assert(ts[f(b)] == Tree::Letter(sigma[b]));
                    assert(sigma[a] == sigma[b]);
                } else {
                    assert(ts[f(b)] == Tree::<char>::Epsilon);
                }
            }
        }
        lemma_one_to_one_bound(g, (n + 1) as nat, n as nat);
    }
}

/// What is read back from a legible expression over its alphabet is well
/// formed and matches the words that the expression matches.
pub proof fn lemma_back_language(t: Tree<char>, sigma: Seq<char>)
    requires
        legible(t),
        t.wf(sigma.to_set()),
        sigma.no_duplicates(),
    ensures
        alike(back(t, sigma), t, sigma.to_set()),
        back(t, sigma).wf(sigma.to_set()),
    decreases t, 0nat,
{
    let alphabet = sigma.to_set();
    let dot = Tree::<char>::Dot;
    match t {
        Tree::Repeat(c, lo, hi) => {
            lemma_back_language(*c, sigma);
            lemma_repeat_alike(back(*c, sigma), *c, lo, hi, alphabet);
            let r = Tree::Repeat(Box::new(back(*c, sigma)), lo, hi);
            assert(back(t, sigma) == r);
            assert(r.wf(alphabet));
        },
        Tree::Concat(ts) => {
            lemma_group_legible(ts);
            lemma_group_back(ts, sigma);
            lemma_concat_unfold(ts, alphabet, Seq::empty());
            lemma_back_all_language(ts, sigma);
            let xs = back_all(ts, sigma);
            lemma_joined_alike(xs, alphabet);
            lemma_concat_unfold(xs, alphabet, Seq::empty());
            assert forall|w: Seq<char>| #[trigger]
                back(t, sigma).matches(alphabet, w) <==> t.matches(alphabet, w) by {
                assert(joined(xs).matches(alphabet, w) <==> Tree::Concat(xs).matches(alphabet, w));
                lemma_concat_unfold(xs, alphabet, w);
                lemma_concat_unfold(ts, alphabet, w);
                lemma_concat_alike(xs, ts, alphabet, w);
            }
        },
        Tree::Union(ts) => {
            lemma_group_legible(ts);
            lemma_group_back(ts, sigma);
            lemma_union_unfold(ts, alphabet, Seq::empty());
            lemma_back_all_language(ts, sigma);
            lemma_back_all_at(ts, sigma);
            if optional_dot(ts, sigma) {
                let r = Tree::Repeat(Box::new(dot), 0, Some(1nat));
                assert(back(t, sigma) == r);
                assert(dot.wf(alphabet));
                assert(r.wf(alphabet));
                assert forall|w: Seq<char>| #[trigger]
                    back(t, sigma).matches(alphabet, w) <==> t.matches(alphabet, w) by {
                    lemma_repeat_unfold(dot, 0, Some(1nat), alphabet, w);
                    lemma_repeat_once(dot.matched(alphabet), w);
                    lemma_union_unfold(ts, alphabet, w);
                    assert(dot.matched(alphabet)(w) == dot.matches(alphabet, w));
                    if t.matches(alphabet, w) {
                        let j = choose|j: int|
                            0 <= j < ts.len() && (#[trigger] ts[j]).matches(alphabet, w);
                        lemma_optional_dot_children(ts, sigma, j);
                        if ts[j] is Letter {
                            assert(alphabet.contains(ts[j]->Letter_0));
                        }
                    }
                    if w.len() == 0 {
                        let j = choose|j: int| 0 <= j < ts.len() && ts[j] == Tree::<char>::Epsilon;
                        assert(ts[j].matches(alphabet, w));
                    }
                    if dot.matches(alphabet, w) {
                        lemma_dot_in_covering(ts, sigma, w);
                    }
                }
            } else if Tree::covers(ts, sigma) {
                lemma_others(ts);
                lemma_back_others(ts, sigma);
                let xs = others(ts);
                let bs = back_all(xs, sigma);
                lemma_back_all_at(xs, sigma);
                assert forall|i: int| 0 <= i < xs.len() implies alike(
                    #[trigger] bs[i],
                    xs[i],
                    alphabet,
                ) && bs[i].wf(alphabet) by {
                    assert(ts.contains(xs[i]));
                    let j = choose|j: int| 0 <= j < ts.len() && ts[j] == xs[i];
                    assert(alike(back_all(ts, sigma)[j], ts[j], alphabet));
                    assert(back_all(ts, sigma)[j].wf(alphabet));
                }
                lemma_union_alike(bs, xs, alphabet);
                let list = inserted_all(seq![dot], bs);
                lemma_inserted_all_some(seq![dot], bs);
                lemma_chosen_alike(list, alphabet);
                lemma_union_unfold(seq![dot], alphabet, Seq::empty());
                lemma_union_unfold(bs, alphabet, Seq::empty());
                lemma_union_inserted_all(seq![dot], bs, alphabet, Seq::empty());
                assert forall|w: Seq<char>| #[trigger]
                    back(t, sigma).matches(alphabet, w) <==> t.matches(alphabet, w) by {
                    assert(chosen(list).matches(alphabet, w) <==> Tree::Union(list).matches(
                        alphabet,
                        w,
                    ));
                    lemma_union_inserted_all(seq![dot], bs, alphabet, w);
                    lemma_union_unfold(seq![dot], alphabet, w);
                    lemma_union_unfold(xs, alphabet, w);
                    lemma_union_unfold(ts, alphabet, w);
                    assert(Tree::Union(bs).matches(alphabet, w) <==> Tree::Union(xs).matches(
                        alphabet,
                        w,
                    ));
                    if Tree::Union(seq![dot]).matches(alphabet, w) {
                        let i = choose|i: int|
                            0 <= i < seq![dot].len() && (#[trigger] seq![dot][i]).matches(
                                alphabet,
                                w,
                            );
                        assert(seq![dot][i] == dot);
                        lemma_dot_in_covering(ts, sigma, w);
                    }
                    if Tree::Union(xs).matches(alphabet, w) {
                        let i = choose|i: int|
                            0 <= i < xs.len() && (#[trigger] xs[i]).matches(alphabet, w);
                        assert(ts.contains(xs[i]));
                        let j = choose|j: int| 0 <= j < ts.len() && ts[j] == xs[i];
                        assert(ts[j].matches(alphabet, w));
                    }
                    if t.matches(alphabet, w) {
                        let j = choose|j: int|
                            0 <= j < ts.len() && (#[trigger] ts[j]).matches(alphabet, w);
                        if ts[j] is Letter {
                            assert(ts[j].wf(alphabet));
                            assert(dot.matches(alphabet, w));
                            assert(seq![dot][0].matches(alphabet, w));
                        } else {
                            assert(xs.contains(ts[j]));
                            let i = choose|i: int| 0 <= i < xs.len() && xs[i] == ts[j];
                            assert(xs[i].matches(alphabet, w));
                        }
                    }
                }
            } else {
                let bs = back_all(ts, sigma);
                let none = Seq::<Tree<char>>::empty();
                let list = inserted_all(none, bs);
                lemma_inserted_all_some(none, bs);
                lemma_chosen_alike(list, alphabet);
                lemma_union_alike(bs, ts, alphabet);
                lemma_union_unfold(none, alphabet, Seq::empty());
                lemma_union_unfold(bs, alphabet, Seq::empty());
                lemma_union_inserted_all(none, bs, alphabet, Seq::empty());
                assert forall|w: Seq<char>| #[trigger]
                    back(t, sigma).matches(alphabet, w) <==> t.matches(alphabet, w) by {
                    assert(chosen(list).matches(alphabet, w) <==> Tree::Union(list).matches(
                        alphabet,
                        w,
                    ));
                    lemma_union_inserted_all(none, bs, alphabet, w);
                    lemma_union_unfold(none, alphabet, w);
                    assert(Tree::Union(bs).matches(alphabet, w) <==> Tree::Union(ts).matches(
                        alphabet,
                        w,
                    ));
                }
            }
        },
        _ => {},
    }
}

/// A word of one symbol of the alphabet is matched by a union that holds the
/// letters of all symbols.
pub proof fn lemma_dot_in_covering(ts: Seq<Tree<char>>, sigma: Seq<char>, w: Seq<char>)
    requires
        Tree::covers(ts, sigma),
        Tree::<char>::Dot.matches(sigma.to_set(), w),
    ensures
        Tree::Union(ts).matches(sigma.to_set(), w),
{
    let alphabet = sigma.to_set();
    lemma_union_unfold(ts, alphabet, w);
    assert(sigma.contains(w[0]));
    let i = choose|i: int| 0 <= i < sigma.len() && sigma[i] == w[0];
    assert(ts.contains(Tree::Letter(sigma[i])));
    let j = choose|j: int| 0 <= j < ts.len() && ts[j] == Tree::Letter(sigma[i]);
    assert(w =~= seq![sigma[i]]);
    assert(ts[j].matches(alphabet, w));
}

/// What is read back from legible expressions is well formed and matches,
/// place by place, the words that they match.
pub proof fn lemma_back_all_language(ts: Seq<Tree<char>>, sigma: Seq<char>)
    requires
        forall|i: int| 0 <= i < ts.len() ==> legible(#[trigger] ts[i]) && ts[i].wf(sigma.to_set()),
        sigma.no_duplicates(),
    ensures
        all_alike(back_all(ts, sigma), ts, sigma.to_set()),
        forall|i: int|
            0 <= i < ts.len() ==> (#[trigger] back_all(ts, sigma)[i]).wf(sigma.to_set()),
    decreases ts, 1nat,
{
    lemma_back_all_at(ts, sigma);
    if ts.len() > 0 {
        let front = ts.drop_last();
        assert forall|i: int| 0 <= i < front.len() implies legible(#[trigger] front[i])
            && front[i].wf(sigma.to_set()) by {
            assert(front[i] == ts[i]);
        }
        lemma_back_all_language(front, sigma);
        lemma_back_all_at(front, sigma);
        assert(legible(ts[ts.len() - 1]));
        lemma_back_language(ts.last(), sigma);
        assert forall|i: int| 0 <= i < ts.len() implies alike(
            #[trigger] back_all(ts, sigma)[i],
            ts[i],
            sigma.to_set(),
        ) && back_all(ts, sigma)[i].wf(sigma.to_set()) by {
            if i < front.len() {
                assert(back_all(front, sigma)[i] == back(front[i], sigma));
                assert(alike(back_all(front, sigma)[i], front[i], sigma.to_set()));
            }
        }
    }
}

/// Parsing the printed form of a legible expression over its alphabet gives
/// an expression that matches the same words: the one that `back` says.
pub proof fn lemma_parse_back(t: Tree<char>, sigma: Seq<char>)
    requires
        legible(t),
        t.wf(sigma.to_set()),
        sigma.no_duplicates(),
    ensures
        parsed(sigma.to_set(), t.shown(sigma)) == Ok::<Tree<char>, Fault>(back(t, sigma)),
        forall|w: Seq<char>|
            back(t, sigma).matches(sigma.to_set(), w) <==> t.matches(sigma.to_set(), w),
{
    let s = t.shown(sigma);
    let toks = tokens_of(s);
    lemma_legible_text(t, sigma);
    lemma_stands_whole(s);
    lemma_back_inner(toks, 0, t, sigma);
    lemma_back_language(t, sigma);
    lemma_wf_no_stranger(back(t, sigma), sigma.to_set());
    assert forall|w: Seq<char>|
        back(t, sigma).matches(sigma.to_set(), w) <==> t.matches(sigma.to_set(), w) by {
        assert(alike(back(t, sigma), t, sigma.to_set()));
    }
}

} // verus!
