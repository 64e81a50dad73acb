//! The rewriting rules that bring an expression to its reduced form, as
//! mathematics.
use crate::regex::algebra::{inserted, inserted_all};
use crate::regex::tree::Tree;
use vstd::prelude::*;

verus! {

/// The number of nodes of the expression.
pub open spec fn size<V>(t: Tree<V>) -> nat
    decreases t, 0nat,
{
    match t {
        Tree::Union(ts) => 1 + total(ts),
        Tree::Concat(ts) => 1 + total(ts),
        Tree::Repeat(c, _, _) => 1 + size(*c),
        _ => 1,
    }
}

/// The number of nodes of the expressions together.
pub open spec fn total<V>(ts: Seq<Tree<V>>) -> nat
    decreases ts, 1nat,
{
    if ts.len() == 0 {
        0
    } else {
        total(ts.drop_last()) + size(ts.last())
    }
}

/// The children of a concatenation, the children of nested concatenations
/// taken in their place and the empty words left out.
pub open spec fn spliced<V>(cs: Seq<Tree<V>>) -> Seq<Tree<V>>
    decreases cs.len(),
{
    if cs.len() == 0 {
        Seq::empty()
    } else {
        let before = spliced(cs.drop_last());
        match cs.last() {
            Tree::Epsilon => before,
            Tree::Concat(inner) => before + inner,
            x => before.push(x),
        }
    }
}

/// The concatenation of children that are reduced: nothing where a child
/// matches nothing, the empty word without children, the child where there is
/// one, and else the concatenation.
pub open spec fn concat_rule<V>(cs: Seq<Tree<V>>) -> Tree<V> {
    let list = spliced(cs);
    if list.contains(Tree::Empty) {
        Tree::Empty
    } else if list.len() == 0 {
        Tree::Epsilon
    } else if list.len() == 1 {
        list[0]
    } else {
        Tree::Concat(list)
    }
}

/// The children of a union, each once: the children of nested unions taken
/// in their place and those that match nothing left out.
pub open spec fn gathered<V>(cs: Seq<Tree<V>>) -> Seq<Tree<V>>
    decreases cs.len(),
{
    if cs.len() == 0 {
        Seq::empty()
    } else {
        let before = gathered(cs.drop_last());
        match cs.last() {
            Tree::Empty => before,
            Tree::Union(inner) => inserted_all(before, inner),
            x => inserted(before, x),
        }
    }
}

/// A repetition that may be taken no times.
pub open spec fn is_zero_repeat<V>(t: Tree<V>) -> bool {
    match t {
        Tree::Repeat(_, lo, _) => lo == 0,
        _ => false,
    }
}

/// Some expression of `ts` is a repetition that may be taken no times.
pub open spec fn any_zero_repeat<V>(ts: Seq<Tree<V>>) -> bool {
    exists|i: int| 0 <= i < ts.len() && is_zero_repeat(#[trigger] ts[i])
}

/// `ts` without the empty word.
pub open spec fn without_epsilon<V>(ts: Seq<Tree<V>>) -> Seq<Tree<V>>
    decreases ts.len(),
{
    if ts.len() == 0 {
        Seq::empty()
    } else {
        let before = without_epsilon(ts.drop_last());
        if ts.last() is Epsilon {
            before
        } else {
            before.push(ts.last())
        }
    }
}

/// What the expression begins with: the first child of a concatenation, and
/// the expression itself where it is none.
pub open spec fn head<V>(t: Tree<V>) -> Tree<V> {
    match t {
        Tree::Concat(ts) => if ts.len() > 0 {
            ts[0]
        } else {
            t
        },
        _ => t,
    }
}

/// What follows the head: the rest of a concatenation, as the concatenation
/// of what is left, as the one child that is left, or as the empty word; and
/// the empty word where the expression is no concatenation.
pub open spec fn tail<V>(t: Tree<V>) -> Tree<V> {
    match t {
        Tree::Concat(ts) => if ts.len() > 2 {
            Tree::Concat(ts.drop_first())
        } else if ts.len() == 2 {
            ts[1]
        } else {
            Tree::Epsilon
        },
        _ => Tree::Epsilon,
    }
}

/// The tails of the expressions, each once.
pub open spec fn tails<V>(ts: Seq<Tree<V>>) -> Seq<Tree<V>>
    decreases ts.len(),
{
    if ts.len() == 0 {
        Seq::empty()
    } else {
        inserted(tails(ts.drop_last()), tail(ts.last()))
    }
}

/// Every expression of `ts` begins with `p`.
pub open spec fn all_begin_with<V>(ts: Seq<Tree<V>>, p: Tree<V>) -> bool {
    forall|i: int| 0 <= i < ts.len() ==> head(#[trigger] ts[i]) == p
}

/// The member of a pair that is not the empty word.
pub open spec fn other_than_epsilon<V>(pair: Seq<Tree<V>>) -> Tree<V> {
    if pair[0] is Epsilon {
        pair[1]
    } else {
        pair[0]
    }
}

/// The children of the union after the empty word is left out where another
/// child may be taken no times.
pub open spec fn settled<V>(set: Seq<Tree<V>>) -> Seq<Tree<V>> {
    if any_zero_repeat(set) {
        without_epsilon(set)
    } else {
        set
    }
}

/// Whether the union of `cs` is rewritten by taking out what all children
/// begin with.
pub open spec fn factors<V>(cs: Seq<Tree<V>>) -> bool {
    let set = gathered(cs);
    let set2 = settled(set);
    &&& set.len() >= 2
    &&& !(set.len() == 2 && set.contains(Tree::Epsilon))
    &&& set2.len() >= 2
    &&& all_begin_with(set2, head(set2[0]))
}

/// The union of children that are reduced.
///
/// The children are gathered. Without children the result is the empty
/// word, and with one child that child. The empty word and one other child
/// give that child taken at most once. The empty word is left out where a
/// child may be taken no times. Where all children begin with the same
/// expression, that expression is taken out, and the rule is applied to the
/// tails. What is left is the union.
pub open spec fn union_rule<V>(cs: Seq<Tree<V>>) -> Tree<V>
    decreases total(cs),
{
    let set = gathered(cs);
    let set2 = settled(set);
    if set.len() == 0 {
        Tree::Epsilon
    } else if set.len() == 1 {
        set[0]
    } else if set.len() == 2 && set.contains(Tree::Epsilon) {
        Tree::Repeat(Box::new(other_than_epsilon(set)), 0, Some(1nat))
    } else if factors(cs) {
        proof {
            lemma_tails_smaller(cs);
        }
        concat_rule(seq![head(set2[0]), union_rule(tails(set2))])
    } else {
        Tree::Union(set2)
    }
}

/// The repetition of a child that is reduced.
pub open spec fn repeat_rule<V>(x: Tree<V>, lo: nat, hi: Option<nat>) -> Tree<V> {
    if hi is Some && hi->0 < lo {
        Tree::Epsilon
    } else if x is Epsilon {
        Tree::Epsilon
    } else if lo == 1 && hi == Some(1nat) {
        x
    } else if x is Empty {
        if lo == 0 {
            Tree::Epsilon
        } else {
            Tree::Empty
        }
    } else if is_star(x) {
        x
    } else if lo == 0 && hi is None && is_low_repeat(x) {
        Tree::Repeat(Box::new(repeated(x)), 0, None)
    } else if lo == 0 && x is Union {
        let u = without_epsilon(crate::regex::tree::children(x));
        if hi == Some(1nat) {
            union_rule(
                if any_zero_repeat(u) {
                    u
                } else {
                    u.push(Tree::Epsilon)
                },
            )
        } else if u.len() == 0 {
            Tree::Epsilon
        } else if u.len() == 1 {
            Tree::Repeat(Box::new(u[0]), 0, hi)
        } else {
            Tree::Repeat(Box::new(Tree::Union(u)), 0, hi)
        }
    } else {
        Tree::Repeat(Box::new(x), lo, hi)
    }
}

/// A repetition without bounds: any number of times.
pub open spec fn is_star<V>(t: Tree<V>) -> bool {
    match t {
        Tree::Repeat(_, lo, hi) => lo == 0 && hi is None,
        _ => false,
    }
}

/// A repetition whose first bound is 0 or 1.
pub open spec fn is_low_repeat<V>(t: Tree<V>) -> bool {
    match t {
        Tree::Repeat(_, lo, _) => lo <= 1,
        _ => false,
    }
}

/// The child of a repetition.
pub open spec fn repeated<V>(t: Tree<V>) -> Tree<V> {
    match t {
        Tree::Repeat(c, _, _) => *c,
        _ => t,
    }
}

/// Every expression of `ts` matches nothing by its shape.
pub open spec fn all_empty<V>(ts: Seq<Tree<V>>) -> bool {
    forall|i: int| 0 <= i < ts.len() ==> (#[trigger] ts[i]) is Empty
}

impl<V> Tree<V> {
    /// The reduced form of the expression: the children are reduced first,
    /// then the rule of the node is applied. A union of children that all
    /// match nothing by their shape matches nothing.
    pub open spec fn simplified(self) -> Tree<V>
        decreases self, 0nat,
    {
        match self {
            Tree::Union(ts) => if all_empty(ts) {
                Tree::Empty
            } else {
                union_rule(Self::simplified_all(ts))
            },
            Tree::Concat(ts) => concat_rule(Self::simplified_all(ts)),
            Tree::Repeat(c, lo, hi) => repeat_rule(c.simplified(), lo, hi),
            x => x,
        }
    }

    /// The reduced forms of the expressions.
    pub open spec fn simplified_all(ts: Seq<Tree<V>>) -> Seq<Tree<V>>
        decreases ts, 1nat,
    {
        if ts.len() == 0 {
            Seq::empty()
        } else {
            Self::simplified_all(ts.drop_last()).push(ts.last().simplified())
        }
    }
}

/// Every expression has a node.
pub proof fn lemma_size_positive<V>(t: Tree<V>)
    ensures
        size(t) >= 1,
{
}

/// The nodes after one more expression.
pub proof fn lemma_total_push<V>(ts: Seq<Tree<V>>, x: Tree<V>)
    ensures
        total(ts.push(x)) == total(ts) + size(x),
{
    assert(ts.push(x).drop_last() =~= ts);
}

/// The nodes of two lists together.
pub proof fn lemma_total_add<V>(a: Seq<Tree<V>>, b: Seq<Tree<V>>)
    ensures
        total(a + b) == total(a) + total(b),
    decreases b.len(),
{
    if b.len() == 0 {
        assert(a + b =~= a);
    } else {
        lemma_total_add(a, b.drop_last());
        assert((a + b).drop_last() =~= a + b.drop_last());
        assert((a + b).last() == b.last());
    }
}

/// Inserting adds at most the nodes of what is inserted.
pub proof fn lemma_total_inserted<V>(ts: Seq<Tree<V>>, x: Tree<V>)
    ensures
        total(inserted(ts, x)) <= total(ts) + size(x),
{
    lemma_total_push(ts, x);
}

/// Inserting a list adds at most the nodes of the list.
pub proof fn lemma_total_inserted_all<V>(ts: Seq<Tree<V>>, more: Seq<Tree<V>>)
    ensures
        total(inserted_all(ts, more)) <= total(ts) + total(more),
    decreases more.len(),
{
    if more.len() > 0 {
        lemma_total_inserted_all(ts, more.drop_last());
        lemma_total_inserted(inserted_all(ts, more.drop_last()), more.last());
    }
}

/// Gathering adds no nodes.
pub proof fn lemma_total_gathered<V>(cs: Seq<Tree<V>>)
    ensures
        total(gathered(cs)) <= total(cs),
    decreases cs.len(),
{
    if cs.len() > 0 {
        let before = gathered(cs.drop_last());
        lemma_total_gathered(cs.drop_last());
        match cs.last() {
            Tree::Empty => {},
            Tree::Union(inner) => {
                lemma_total_inserted_all(before, inner);
            },
            x => {
                lemma_total_inserted(before, x);
            },
        }
    }
}

/// Leaving out the empty word adds no nodes.
pub proof fn lemma_total_without_epsilon<V>(ts: Seq<Tree<V>>)
    ensures
        total(without_epsilon(ts)) <= total(ts),
        without_epsilon(ts).len() <= ts.len(),
    decreases ts.len(),
{
    if ts.len() > 0 {
        lemma_total_without_epsilon(ts.drop_last());
        lemma_total_push(without_epsilon(ts.drop_last()), ts.last());
    }
}

/// A tail has no more nodes than the expression, and fewer where the
/// expression is a concatenation with children.
pub proof fn lemma_tail_size<V>(t: Tree<V>)
    ensures
        size(tail(t)) <= size(t),
        head(t) != t ==> size(tail(t)) < size(t),
{
    match t {
        Tree::Concat(ts) => {
            if ts.len() > 0 {
                let first = seq![ts[0]];
                let rest = ts.drop_first();
                assert(first + rest =~= ts);
                lemma_total_add(first, rest);
                lemma_total_push(Seq::<Tree<V>>::empty(), ts[0]);
                assert(Seq::<Tree<V>>::empty().push(ts[0]) =~= first);
                lemma_size_positive(ts[0]);
                if ts.len() == 2 {
                    lemma_total_push(Seq::<Tree<V>>::empty(), ts[1]);
                    assert(Seq::<Tree<V>>::empty().push(ts[1]) =~= rest);
                }
            }
        },
        _ => {},
    }
}

/// The tails have no more nodes than the expressions, and fewer where the
/// head of one of them is not the expression itself.
pub proof fn lemma_total_tails<V>(ts: Seq<Tree<V>>)
    ensures
        total(tails(ts)) <= total(ts),
        (exists|i: int| 0 <= i < ts.len() && head(#[trigger] ts[i]) != ts[i]) ==> total(tails(ts))
            < total(ts),
    decreases ts.len(),
{
    if ts.len() > 0 {
        let front = ts.drop_last();
        lemma_total_tails(front);
        lemma_tail_size(ts.last());
        lemma_total_inserted(tails(front), tail(ts.last()));
        if exists|i: int| 0 <= i < ts.len() && head(#[trigger] ts[i]) != ts[i] {
            let i = choose|i: int| 0 <= i < ts.len() && head(#[trigger] ts[i]) != ts[i];
            if i < front.len() {
                assert(head(front[i]) != front[i]);
            }
        }
    }
}

/// Inserting keeps a list free of repetitions.
pub proof fn lemma_inserted_distinct<V>(ts: Seq<Tree<V>>, x: Tree<V>)
    requires
        ts.no_duplicates(),
    ensures
        inserted(ts, x).no_duplicates(),
{
}

/// Inserting a list keeps a list free of repetitions.
pub proof fn lemma_inserted_all_distinct<V>(ts: Seq<Tree<V>>, more: Seq<Tree<V>>)
    requires
        ts.no_duplicates(),
    ensures
        inserted_all(ts, more).no_duplicates(),
    decreases more.len(),
{
    if more.len() > 0 {
        lemma_inserted_all_distinct(ts, more.drop_last());
        lemma_inserted_distinct(inserted_all(ts, more.drop_last()), more.last());
    }
}

/// Gathered children are free of repetitions.
pub proof fn lemma_gathered_distinct<V>(cs: Seq<Tree<V>>)
    ensures
        gathered(cs).no_duplicates(),
    decreases cs.len(),
{
    if cs.len() > 0 {
        let before = gathered(cs.drop_last());
        lemma_gathered_distinct(cs.drop_last());
        match cs.last() {
            Tree::Empty => {},
            Tree::Union(inner) => {
                lemma_inserted_all_distinct(before, inner);
            },
            x => {
                lemma_inserted_distinct(before, x);
            },
        }
    }
}

/// What is left without the empty word was there before, in the same
/// order.
pub proof fn lemma_without_epsilon_holds<V>(ts: Seq<Tree<V>>, x: Tree<V>)
    ensures
        without_epsilon(ts).contains(x) <==> (ts.contains(x) && !(x is Epsilon)),
    decreases ts.len(),
{
    if ts.len() > 0 {
        let front = ts.drop_last();
        lemma_without_epsilon_holds(front, x);
        crate::sets::lemma_push_contains(without_epsilon(front), ts.last(), x);
        crate::sets::lemma_push_contains(front, ts.last(), x);
        assert(front.push(ts.last()) =~= ts);
    }
}

/// Leaving out the empty word keeps a list free of repetitions.
pub proof fn lemma_without_epsilon_distinct<V>(ts: Seq<Tree<V>>)
    requires
        ts.no_duplicates(),
    ensures
        without_epsilon(ts).no_duplicates(),
    decreases ts.len(),
{
    if ts.len() > 0 {
        let front = ts.drop_last();
        assert forall|i: int, j: int|
            0 <= i < front.len() && 0 <= j < front.len() && i != j implies front[i] != front[j] by {
            assert(ts[i] != ts[j]);
        }
        lemma_without_epsilon_distinct(front);
        lemma_without_epsilon_holds(front, ts.last());
        if front.contains(ts.last()) {
            let i = choose|i: int| 0 <= i < front.len() && front[i] == ts.last();
            assert(ts[i] == ts[ts.len() - 1]);
        }
    }
}

/// Where the union of `cs` is rewritten by taking out the common head, the
/// tails have fewer nodes than `cs`.
pub proof fn lemma_tails_smaller<V>(cs: Seq<Tree<V>>)
    requires
        factors(cs),
    ensures
        total(tails(settled(gathered(cs)))) < total(cs),
{
    let set = gathered(cs);
    let set2 = settled(set);
    lemma_total_gathered(cs);
    lemma_total_without_epsilon(set);
    lemma_gathered_distinct(cs);
    if any_zero_repeat(set) {
        lemma_without_epsilon_distinct(set);
    }
    lemma_total_tails(set2);
    if head(set2[0]) == set2[0] && head(set2[1]) == set2[1] {
        assert(set2[0] == set2[1]);
    }
}

} // verus!
