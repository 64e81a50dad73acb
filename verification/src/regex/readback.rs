//! What the parser reads back from the printed form of an expression: the
//! expression itself, but for the unions that hold the letters of all
//! symbols, which are printed with a dot and read back with one, and for
//! options that are read back alike, which are read back once.
use crate::parser::{chosen, joined};
use crate::regex::algebra::{inserted, inserted_all};
use crate::regex::texts::{is_letter, is_sign};
use crate::regex::rules::{lemma_total_add, size, total};
use crate::regex::rules_reduced::reduced;
use crate::regex::tree::Tree;
use vstd::prelude::*;

verus! {

/// The union of `ts` is printed as a dot with a question mark: it holds the
/// empty word and the letters of all symbols, and has one child more than
/// there are symbols.
pub open spec fn optional_dot(ts: Seq<Tree<char>>, sigma: Seq<char>) -> bool {
    ts.contains(Tree::Epsilon) && ts.len() == sigma.len() + 1 && Tree::covers(ts, sigma)
}

/// The expressions of `ts` that are no letters.
pub open spec fn others(ts: Seq<Tree<char>>) -> Seq<Tree<char>>
    decreases ts.len(),
{
    if ts.len() == 0 {
        Seq::empty()
    } else {
        let before = others(ts.drop_last());
        if ts.last() is Letter {
            before
        } else {
            before.push(ts.last())
        }
    }
}

/// What the parser reads back from the printed form of `t` over `sigma`.
///
/// A union is read back as its options, each once, in their order; where it
/// holds the letters of all symbols, a dot is read in their place, before
/// the other options; where it is printed as a dot with a question mark, the
/// dot taken at most once is read. One option alone is read back as itself.
pub open spec fn back(t: Tree<char>, sigma: Seq<char>) -> Tree<char>
    decreases t, 0nat,
{
    match t {
        Tree::Union(ts) => if optional_dot(ts, sigma) {
            Tree::Repeat(Box::new(Tree::Dot), 0, Some(1nat))
        } else if Tree::covers(ts, sigma) {
            chosen(inserted_all(seq![Tree::Dot], back_others(ts, sigma)))
        } else {
            chosen(inserted_all(Seq::empty(), back_all(ts, sigma)))
        },
        Tree::Concat(ts) => joined(back_all(ts, sigma)),
        Tree::Repeat(c, lo, hi) => Tree::Repeat(Box::new(back(*c, sigma)), lo, hi),
        x => x,
    }
}

/// What is read back from each expression of `ts`.
pub open spec fn back_all(ts: Seq<Tree<char>>, sigma: Seq<char>) -> Seq<Tree<char>>
    decreases ts, 1nat,
{
    if ts.len() == 0 {
        Seq::empty()
    } else {
        back_all(ts.drop_last(), sigma).push(back(ts.last(), sigma))
    }
}

/// What is read back from each expression of `ts` that is no letter.
pub open spec fn back_others(ts: Seq<Tree<char>>, sigma: Seq<char>) -> Seq<Tree<char>>
    decreases ts, 1nat,
{
    if ts.len() == 0 {
        Seq::empty()
    } else {
        let before = back_others(ts.drop_last(), sigma);
        if ts.last() is Letter {
            before
        } else {
            before.push(back(ts.last(), sigma))
        }
    }
}

/// The printed form of the expression spells an expression for the same
/// words: no leaf matches nothing, every letter is a letter of the surface
/// syntax, every repetition is a star, a plus or a question mark, every
/// union has two or more children, none of them a union, and every
/// concatenation has two or more children, none of them a concatenation.
pub open spec fn legible(t: Tree<char>) -> bool
    decreases t,
{
    match t {
        Tree::Empty => false,
        Tree::Letter(a) => is_letter(a),
        Tree::Repeat(c, lo, hi) => is_sign(lo, hi) && legible(*c),
        Tree::Union(ts) => ts.len() >= 2 && forall|i: int|
            0 <= i < ts.len() ==> legible(#[trigger] ts[i]) && !(ts[i] is Union),
        Tree::Concat(ts) => ts.len() >= 2 && forall|i: int|
            0 <= i < ts.len() ==> legible(#[trigger] ts[i]) && !(ts[i] is Concat),
        _ => true,
    }
}

/// Every expression of `ts` is legible and no union.
pub open spec fn all_options(ts: Seq<Tree<char>>) -> bool {
    forall|i: int| 0 <= i < ts.len() ==> legible(#[trigger] ts[i]) && !(ts[i] is Union)
}

/// Every expression of `ts` is legible and no concatenation.
pub open spec fn all_parts(ts: Seq<Tree<char>>) -> bool {
    forall|i: int| 0 <= i < ts.len() ==> legible(#[trigger] ts[i]) && !(ts[i] is Concat)
}

/// When a union and a concatenation are legible, by their children.
pub proof fn lemma_group_legible(ts: Seq<Tree<char>>)
    ensures
        legible(Tree::Union(ts)) <==> (ts.len() >= 2 && all_options(ts)),
        legible(Tree::Concat(ts)) <==> (ts.len() >= 2 && all_parts(ts)),
{
    let u = Tree::Union(ts);
    let c = Tree::Concat(ts);
    match u {
        Tree::Union(cs) => {
            assert(cs == ts);
            if legible(u) {
                assert forall|i: int| 0 <= i < ts.len() implies legible(#[trigger] ts[i]) && !(
                ts[i] is Union) by {
                    assert(legible(cs[i]));
                }
            }
            if ts.len() >= 2 && all_options(ts) {
                assert forall|i: int| 0 <= i < cs.len() implies legible(#[trigger] cs[i]) && !(
                cs[i] is Union) by {
                    assert(legible(ts[i]));
                }
            }
        },
        _ => {},
    }
    match c {
        Tree::Concat(cs) => {
            assert(cs == ts);
            if legible(c) {
                assert forall|i: int| 0 <= i < ts.len() implies legible(#[trigger] ts[i]) && !(
                ts[i] is Concat) by {
                    assert(legible(cs[i]));
                }
            }
            if ts.len() >= 2 && all_parts(ts) {
                assert forall|i: int| 0 <= i < cs.len() implies legible(#[trigger] cs[i]) && !(
                cs[i] is Concat) by {
                    assert(legible(ts[i]));
                }
            }
        },
        _ => {},
    }
}

/// What is read back from a union and from a concatenation, by their
/// children.
pub proof fn lemma_group_back(ts: Seq<Tree<char>>, sigma: Seq<char>)
    ensures
        back(Tree::Union(ts), sigma) == if optional_dot(ts, sigma) {
            Tree::Repeat(Box::new(Tree::Dot), 0, Some(1nat))
        } else if Tree::covers(ts, sigma) {
            chosen(inserted_all(seq![Tree::Dot], back_others(ts, sigma)))
        } else {
            chosen(inserted_all(Seq::empty(), back_all(ts, sigma)))
        },
        back(Tree::Concat(ts), sigma) == joined(back_all(ts, sigma)),
{
    let u = Tree::Union(ts);
    let c = Tree::Concat(ts);
    match u {
        Tree::Union(cs) => {
            assert(cs == ts);
        },
        _ => {},
    }
    match c {
        Tree::Concat(cs) => {
            assert(cs == ts);
        },
        _ => {},
    }
}

/// What is read back from a list, place by place.
pub proof fn lemma_back_all_at(ts: Seq<Tree<char>>, sigma: Seq<char>)
    ensures
        back_all(ts, sigma).len() == ts.len(),
        forall|i: int| 0 <= i < ts.len() ==> #[trigger] back_all(ts, sigma)[i] == back(ts[i], sigma),
    decreases ts.len(),
{
    if ts.len() > 0 {
        lemma_back_all_at(ts.drop_last(), sigma);
    }
}

/// What is read back from a list, from the first on.
pub proof fn lemma_back_all_first(ts: Seq<Tree<char>>, sigma: Seq<char>)
    requires
        ts.len() > 0,
    ensures
        back_all(ts, sigma) == seq![back(ts[0], sigma)] + back_all(ts.drop_first(), sigma),
{
    lemma_back_all_at(ts, sigma);
    lemma_back_all_at(ts.drop_first(), sigma);
    assert(back_all(ts, sigma) =~= seq![back(ts[0], sigma)] + back_all(ts.drop_first(), sigma));
}

/// What is read back from the expressions that are no letters.
pub proof fn lemma_back_others(ts: Seq<Tree<char>>, sigma: Seq<char>)
    ensures
        back_others(ts, sigma) == back_all(others(ts), sigma),
    decreases ts.len(),
{
    if ts.len() > 0 {
        lemma_back_others(ts.drop_last(), sigma);
        if !(ts.last() is Letter) {
            let o = others(ts.drop_last());
            assert(o.push(ts.last()).drop_last() =~= o);
        }
    }
}

/// The expressions that are no letters are among the expressions, and have
/// no more nodes than they.
pub proof fn lemma_others(ts: Seq<Tree<char>>)
    ensures
        forall|i: int|
            0 <= i < others(ts).len() ==> ts.contains(#[trigger] others(ts)[i]) && !(others(
                ts,
            )[i] is Letter),
        forall|j: int| 0 <= j < ts.len() && !(#[trigger] ts[j] is Letter) ==> others(ts).contains(ts[j]),
        total(others(ts)) <= total(ts),
        others(ts).len() <= ts.len(),
    decreases ts.len(),
{
    if ts.len() > 0 {
        let front = ts.drop_last();
        lemma_others(front);
        let o = others(front);
        assert forall|i: int| 0 <= i < others(ts).len() implies ts.contains(
            #[trigger] others(ts)[i],
        ) && !(others(ts)[i] is Letter) by {
            if i < o.len() {
                assert(front.contains(o[i]));
                let j = choose|j: int| 0 <= j < front.len() && front[j] == o[i];
                assert(ts[j] == o[i]);
            } else {
                assert(ts[ts.len() - 1] == others(ts)[i]);
            }
        }
        assert forall|j: int| 0 <= j < ts.len() && !(#[trigger] ts[j] is Letter) implies others(
            ts,
        ).contains(ts[j]) by {
            if j < front.len() {
                assert(front[j] == ts[j]);
                assert(o.contains(ts[j]));
                let i = choose|i: int| 0 <= i < o.len() && o[i] == ts[j];
                assert(others(ts)[i] == ts[j]);
            } else {
                assert(others(ts)[o.len() as int] == ts[j]);
            }
        }
        if !(ts.last() is Letter) {
            crate::regex::rules::lemma_total_push(o, ts.last());
        }
    }
}

/// Inserting a list whose first expression is `x` is inserting `x` and then
/// the rest.
pub proof fn lemma_inserted_all_first(acc: Seq<Tree<char>>, x: Tree<char>, more: Seq<Tree<char>>)
    ensures
        inserted_all(acc, seq![x] + more) == inserted_all(inserted(acc, x), more),
    decreases more.len(),
{
    let all = seq![x] + more;
    if more.len() == 0 {
        assert(all.drop_last() =~= Seq::<Tree<char>>::empty());
        assert(all.last() == x);
        assert(inserted_all(acc, all.drop_last()) == acc);
    } else {
        lemma_inserted_all_first(acc, x, more.drop_last());
        assert(all.drop_last() =~= seq![x] + more.drop_last());
        assert(all.last() == more.last());
    }
}

/// An expression of a list has no more nodes than the list, and the list
/// without its first expression has fewer.
pub proof fn lemma_total_parts(ts: Seq<Tree<char>>, i: int)
    requires
        0 <= i < ts.len(),
    ensures
        size(ts[i]) <= total(ts),
        total(ts) == size(ts[0]) + total(ts.drop_first()),
        ts.len() <= total(ts),
    decreases ts.len(),
{
    let front = ts.drop_last();
    if i < front.len() {
        lemma_total_parts(front, i);
        assert(front[i] == ts[i]);
    }
    if front.len() > 0 {
        lemma_total_parts(front, 0);
    }
    crate::regex::rules::lemma_size_positive(ts.last());
    assert(seq![ts[0]] + ts.drop_first() =~= ts);
    lemma_total_add(seq![ts[0]], ts.drop_first());
    let none = Seq::<Tree<char>>::empty();
    crate::regex::rules::lemma_total_push(none, ts[0]);
    assert(none.push(ts[0]) =~= seq![ts[0]]);
    assert(total(none) == 0);
}

/// The printed form of the expression can be read: no leaf matches nothing,
/// every letter is a letter of the surface syntax, and every repetition is
/// a star, a plus or a question mark.
pub open spec fn readable(t: Tree<char>) -> bool
    decreases t,
{
    match t {
        Tree::Empty => false,
        Tree::Letter(a) => is_letter(a),
        Tree::Repeat(c, lo, hi) => is_sign(lo, hi) && readable(*c),
        Tree::Union(ts) => forall|i: int| 0 <= i < ts.len() ==> readable(#[trigger] ts[i]),
        Tree::Concat(ts) => forall|i: int| 0 <= i < ts.len() ==> readable(#[trigger] ts[i]),
        _ => true,
    }
}

/// A reduced expression whose printed form can be read is legible.
pub proof fn lemma_reduced_legible(t: Tree<char>)
    requires
        reduced(t),
        readable(t),
    ensures
        legible(t),
    decreases t,
{
    match t {
        Tree::Repeat(c, _, _) => {
            lemma_reduced_legible(*c);
        },
        Tree::Union(ts) => {
            assert forall|i: int| 0 <= i < ts.len() implies legible(#[trigger] ts[i]) && !(
            ts[i] is Union) by {
                lemma_reduced_legible(ts[i]);
            }
        },
        Tree::Concat(ts) => {
            assert forall|i: int| 0 <= i < ts.len() implies legible(#[trigger] ts[i]) && !(
            ts[i] is Concat) by {
                lemma_reduced_legible(ts[i]);
            }
        },
        _ => {},
    }
}

/// The expression is printed as it is: no union in it holds the letters of
/// all symbols, or the same option twice.
pub open spec fn faithful(t: Tree<char>, sigma: Seq<char>) -> bool
    decreases t,
{
    match t {
        Tree::Repeat(c, _, _) => faithful(*c, sigma),
        Tree::Union(ts) => !Tree::covers(ts, sigma) && ts.no_duplicates() && forall|i: int|
            0 <= i < ts.len() ==> faithful(#[trigger] ts[i], sigma),
        Tree::Concat(ts) => forall|i: int| 0 <= i < ts.len() ==> faithful(#[trigger] ts[i], sigma),
        _ => true,
    }
}

/// Inserting different expressions into the empty list gives them.
pub proof fn lemma_inserted_all_distinct_same(ts: Seq<Tree<char>>)
    requires
        ts.no_duplicates(),
    ensures
        inserted_all(Seq::empty(), ts) == ts,
    decreases ts.len(),
{
    if ts.len() > 0 {
        let front = ts.drop_last();
        lemma_inserted_all_distinct_same(front);
        if front.contains(ts.last()) {
            let i = choose|i: int| 0 <= i < front.len() && front[i] == ts.last();
            assert(ts[i] == ts[ts.len() - 1]);
        }
        assert(front.push(ts.last()) =~= ts);
    }
}

/// A legible expression that is printed as it is is read back as itself.
pub proof fn lemma_back_same(t: Tree<char>, sigma: Seq<char>)
    requires
        legible(t),
        faithful(t, sigma),
    ensures
        back(t, sigma) == t,
    decreases t,
{
    match t {
        Tree::Repeat(c, _, _) => {
            lemma_back_same(*c, sigma);
        },
        Tree::Union(ts) => {
            lemma_back_all_at(ts, sigma);
            assert forall|i: int| 0 <= i < ts.len() implies back_all(ts, sigma)[i] == ts[i] by {
                lemma_back_same(ts[i], sigma);
            }
            assert(back_all(ts, sigma) =~= ts);
            lemma_inserted_all_distinct_same(ts);
        },
        Tree::Concat(ts) => {
            lemma_back_all_at(ts, sigma);
            assert forall|i: int| 0 <= i < ts.len() implies back_all(ts, sigma)[i] == ts[i] by {
                lemma_back_same(ts[i], sigma);
            }
            assert(back_all(ts, sigma) =~= ts);
        },
        _ => {},
    }
}

} // verus!
