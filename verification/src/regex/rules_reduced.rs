//! What the reduced form looks like: every union in it has two or more
//! children, no two of them the same and none of them a union, and every
//! concatenation has two or more children, none of them a concatenation.
use crate::regex::algebra::{inserted, inserted_all};
use crate::regex::rules::{
    all_empty, any_zero_repeat, concat_rule, factors, gathered, head, is_low_repeat, is_star,
    lemma_gathered_distinct, lemma_tails_smaller, lemma_without_epsilon_distinct, repeat_rule,
    repeated, settled, spliced, tail, tails, total, union_rule, without_epsilon,
};
use crate::regex::tree::{children, Tree};
use vstd::prelude::*;

verus! {

/// Every union of the expression has two or more children, no two of them
/// the same and none of them a union, and every concatenation has two or
/// more children, none of them a concatenation.
pub open spec fn reduced<V>(t: Tree<V>) -> bool
    decreases t,
{
    match t {
        Tree::Union(ts) => ts.len() >= 2 && ts.no_duplicates() && forall|i: int|
            0 <= i < ts.len() ==> reduced(#[trigger] ts[i]) && !(ts[i] is Union),
        Tree::Concat(ts) => ts.len() >= 2 && forall|i: int|
            0 <= i < ts.len() ==> reduced(#[trigger] ts[i]) && !(ts[i] is Concat),
        Tree::Repeat(c, _, _) => reduced(*c),
        _ => true,
    }
}

/// Every expression of `ts` is reduced.
pub open spec fn all_reduced<V>(ts: Seq<Tree<V>>) -> bool {
    forall|i: int| 0 <= i < ts.len() ==> reduced(#[trigger] ts[i])
}

/// No expression of `ts` is a union.
pub open spec fn no_union<V>(ts: Seq<Tree<V>>) -> bool {
    forall|i: int| 0 <= i < ts.len() ==> !(#[trigger] ts[i] is Union)
}

/// No expression of `ts` is a concatenation.
pub open spec fn no_concat<V>(ts: Seq<Tree<V>>) -> bool {
    forall|i: int| 0 <= i < ts.len() ==> !(#[trigger] ts[i] is Concat)
}

/// When a union and a concatenation are reduced, by their children.
pub proof fn lemma_group_reduced<V>(ts: Seq<Tree<V>>)
    ensures
        reduced(Tree::Union(ts)) <==> (ts.len() >= 2 && ts.no_duplicates() && all_reduced(ts)
            && no_union(ts)),
        reduced(Tree::Concat(ts)) <==> (ts.len() >= 2 && all_reduced(ts) && no_concat(ts)),
{
    let u = Tree::Union(ts);
    let c = Tree::Concat(ts);
    match u {
        Tree::Union(cs) => {
            assert(cs == ts);
            if reduced(u) {
                assert forall|i: int| 0 <= i < ts.len() implies reduced(#[trigger] ts[i]) by {
                    assert(reduced(cs[i]));
                }
                assert forall|i: int| 0 <= i < ts.len() implies !(#[trigger] ts[i] is Union) by {
                    assert(reduced(cs[i]));
                }
            }
            if ts.len() >= 2 && ts.no_duplicates() && all_reduced(ts) && no_union(ts) {
                assert forall|i: int| 0 <= i < cs.len() implies reduced(#[trigger] cs[i]) && !(
                cs[i] is Union) by {
                    assert(reduced(ts[i]));
                    assert(!(ts[i] is Union));
                }
            }
        },
        _ => {},
    }
    match c {
        Tree::Concat(cs) => {
            assert(cs == ts);
            if reduced(c) {
                assert forall|i: int| 0 <= i < ts.len() implies reduced(#[trigger] ts[i]) by {
                    assert(reduced(cs[i]));
                }
                assert forall|i: int| 0 <= i < ts.len() implies !(#[trigger] ts[i] is Concat) by {
                    assert(reduced(cs[i]));
                }
            }
            if ts.len() >= 2 && all_reduced(ts) && no_concat(ts) {
                assert forall|i: int| 0 <= i < cs.len() implies reduced(#[trigger] cs[i]) && !(
                cs[i] is Concat) by {
                    assert(reduced(ts[i]));
                    assert(!(ts[i] is Concat));
                }
            }
        },
        _ => {},
    }
}

/// Reduced expressions after one more.
pub proof fn lemma_all_reduced_push<V>(ts: Seq<Tree<V>>, x: Tree<V>)
    requires
        all_reduced(ts),
        reduced(x),
    ensures
        all_reduced(ts.push(x)),
        all_reduced(inserted(ts, x)),
{
    let ts2 = ts.push(x);
    assert forall|i: int| 0 <= i < ts2.len() implies reduced(#[trigger] ts2[i]) by {
        if i < ts.len() {
            assert(reduced(ts[i]));
        }
    }
}

/// The front, the back and the ends of reduced expressions are reduced.
pub proof fn lemma_all_reduced_front<V>(ts: Seq<Tree<V>>)
    requires
        all_reduced(ts),
        ts.len() > 0,
    ensures
        all_reduced(ts.drop_last()),
        all_reduced(ts.drop_first()),
        reduced(ts.last()),
        reduced(ts[0]),
{
    let front = ts.drop_last();
    assert forall|i: int| 0 <= i < front.len() implies reduced(#[trigger] front[i]) by {
        assert(reduced(ts[i]));
    }
    let back = ts.drop_first();
    assert forall|i: int| 0 <= i < back.len() implies reduced(#[trigger] back[i]) by {
        assert(reduced(ts[i + 1]));
    }
    assert(reduced(ts[ts.len() - 1]));
}

/// Reduced expressions after more of them.
pub proof fn lemma_all_reduced_add<V>(a: Seq<Tree<V>>, b: Seq<Tree<V>>)
    requires
        all_reduced(a),
        all_reduced(b),
    ensures
        all_reduced(a + b),
        all_reduced(inserted_all(a, b)),
    decreases b.len(),
{
    let ab = a + b;
    assert forall|i: int| 0 <= i < ab.len() implies reduced(#[trigger] ab[i]) by {
        if i < a.len() {
            assert(reduced(a[i]));
        } else {
            assert(reduced(b[i - a.len()]));
        }
    }
    if b.len() > 0 {
        lemma_all_reduced_front(b);
        lemma_all_reduced_add(a, b.drop_last());
        lemma_all_reduced_push(inserted_all(a, b.drop_last()), b.last());
    }
}

/// Expressions that are no unions, after more that are none.
pub proof fn lemma_no_union_add<V>(a: Seq<Tree<V>>, b: Seq<Tree<V>>)
    requires
        no_union(a),
        no_union(b),
    ensures
        no_union(inserted_all(a, b)),
    decreases b.len(),
{
    if b.len() > 0 {
        let front = b.drop_last();
        assert forall|i: int| 0 <= i < front.len() implies !(#[trigger] front[i] is Union) by {
            assert(!(b[i] is Union));
        }
        lemma_no_union_add(a, front);
        let before = inserted_all(a, front);
        assert(!(b[b.len() - 1] is Union));
        let after = before.push(b.last());
        assert forall|i: int| 0 <= i < after.len() implies !(#[trigger] after[i] is Union) by {
            if i < before.len() {
                assert(!(before[i] is Union));
            }
        }
    }
}

/// Gathering leaves no union among the children.
pub proof fn lemma_gathered_flat<V>(cs: Seq<Tree<V>>)
    requires
        all_reduced(cs),
    ensures
        no_union(gathered(cs)),
    decreases cs.len(),
{
    if cs.len() > 0 {
        lemma_all_reduced_front(cs);
        lemma_gathered_flat(cs.drop_last());
        let before = gathered(cs.drop_last());
        match cs.last() {
            Tree::Empty => {},
            Tree::Union(inner) => {
                lemma_group_reduced(inner);
                lemma_no_union_add(before, inner);
            },
            x => {
                let one = seq![x];
                assert(no_union(one));
                assert(inserted_all(before, one) == inserted(before, x)) by {
                    assert(one.drop_last() =~= Seq::<Tree<V>>::empty());
                    assert(inserted_all(before, one.drop_last()) == before);
                }
                lemma_no_union_add(before, one);
            },
        }
    }
}

/// Leaving out the empty word brings in no union.
pub proof fn lemma_without_epsilon_flat<V>(ts: Seq<Tree<V>>)
    requires
        no_union(ts),
    ensures
        no_union(without_epsilon(ts)),
    decreases ts.len(),
{
    if ts.len() > 0 {
        let front = ts.drop_last();
        assert forall|i: int| 0 <= i < front.len() implies !(#[trigger] front[i] is Union) by {
            assert(!(ts[i] is Union));
        }
        lemma_without_epsilon_flat(front);
        let before = without_epsilon(front);
        assert(!(ts[ts.len() - 1] is Union));
        let after = before.push(ts.last());
        assert forall|i: int| 0 <= i < after.len() implies !(#[trigger] after[i] is Union) by {
            if i < before.len() {
                assert(!(before[i] is Union));
            }
        }
    }
}

/// Splicing leaves no concatenation among the children.
pub proof fn lemma_spliced_flat<V>(cs: Seq<Tree<V>>)
    requires
        all_reduced(cs),
    ensures
        no_concat(spliced(cs)),
    decreases cs.len(),
{
    if cs.len() > 0 {
        lemma_all_reduced_front(cs);
        lemma_spliced_flat(cs.drop_last());
        let before = spliced(cs.drop_last());
        match cs.last() {
            Tree::Epsilon => {},
            Tree::Concat(inner) => {
                lemma_group_reduced(inner);
                let after = before + inner;
                assert forall|i: int| 0 <= i < after.len() implies !(#[trigger] after[i]
                    is Concat) by {
                    if i < before.len() {
                        assert(!(before[i] is Concat));
                    } else {
                        assert(!(inner[i - before.len()] is Concat));
                    }
                }
            },
            x => {
                let after = before.push(x);
                assert forall|i: int| 0 <= i < after.len() implies !(#[trigger] after[i]
                    is Concat) by {
                    if i < before.len() {
                        assert(!(before[i] is Concat));
                    }
                }
            },
        }
    }
}

/// Splicing keeps the children reduced.
pub proof fn lemma_spliced_reduced<V>(cs: Seq<Tree<V>>)
    requires
        all_reduced(cs),
    ensures
        all_reduced(spliced(cs)),
    decreases cs.len(),
{
    if cs.len() > 0 {
        lemma_all_reduced_front(cs);
        lemma_spliced_reduced(cs.drop_last());
        let before = spliced(cs.drop_last());
        match cs.last() {
            Tree::Epsilon => {},
            Tree::Concat(inner) => {
                lemma_group_reduced(inner);
                lemma_all_reduced_add(before, inner);
            },
            x => {
                lemma_all_reduced_push(before, x);
            },
        }
    }
}

/// Gathering keeps the children reduced.
pub proof fn lemma_gathered_reduced<V>(cs: Seq<Tree<V>>)
    requires
        all_reduced(cs),
    ensures
        all_reduced(gathered(cs)),
    decreases cs.len(),
{
    if cs.len() > 0 {
        lemma_all_reduced_front(cs);
        lemma_gathered_reduced(cs.drop_last());
        let before = gathered(cs.drop_last());
        match cs.last() {
            Tree::Empty => {},
            Tree::Union(inner) => {
                lemma_group_reduced(inner);
                lemma_all_reduced_add(before, inner);
            },
            x => {
                lemma_all_reduced_push(before, x);
            },
        }
    }
}

/// Leaving out the empty word keeps the expressions reduced.
pub proof fn lemma_without_epsilon_reduced<V>(ts: Seq<Tree<V>>)
    requires
        all_reduced(ts),
    ensures
        all_reduced(without_epsilon(ts)),
    decreases ts.len(),
{
    if ts.len() > 0 {
        lemma_all_reduced_front(ts);
        lemma_without_epsilon_reduced(ts.drop_last());
        if !(ts.last() is Epsilon) {
            lemma_all_reduced_push(without_epsilon(ts.drop_last()), ts.last());
        }
    }
}

/// The head and the tail of a reduced expression are reduced.
pub proof fn lemma_head_tail_reduced<V>(t: Tree<V>)
    requires
        reduced(t),
    ensures
        reduced(head(t)),
        reduced(tail(t)),
{
    match t {
        Tree::Concat(ts) => {
            lemma_group_reduced(ts);
            lemma_all_reduced_front(ts);
            lemma_group_reduced(ts.drop_first());
            if ts.len() == 2 {
                assert(reduced(ts[1]));
            }
        },
        _ => {},
    }
}

/// The tails of reduced expressions are reduced.
pub proof fn lemma_tails_reduced<V>(ts: Seq<Tree<V>>)
    requires
        all_reduced(ts),
    ensures
        all_reduced(tails(ts)),
    decreases ts.len(),
{
    if ts.len() > 0 {
        lemma_all_reduced_front(ts);
        lemma_tails_reduced(ts.drop_last());
        lemma_head_tail_reduced(ts.last());
        lemma_all_reduced_push(tails(ts.drop_last()), tail(ts.last()));
    }
}

/// The concatenation rule gives a reduced expression.
pub proof fn lemma_concat_rule_reduced<V>(cs: Seq<Tree<V>>)
    requires
        all_reduced(cs),
    ensures
        reduced(concat_rule(cs)),
{
    lemma_spliced_reduced(cs);
    lemma_spliced_flat(cs);
    let list = spliced(cs);
    lemma_group_reduced(list);
    if list.len() == 1 {
        assert(reduced(list[0]));
    }
}

/// The union rule gives a reduced expression.
pub proof fn lemma_union_rule_reduced<V>(cs: Seq<Tree<V>>)
    requires
        all_reduced(cs),
    ensures
        reduced(union_rule(cs)),
    decreases total(cs),
{
    lemma_gathered_reduced(cs);
    lemma_gathered_distinct(cs);
    lemma_gathered_flat(cs);
    let set = gathered(cs);
    let set2 = settled(set);
    if any_zero_repeat(set) {
        lemma_without_epsilon_reduced(set);
        lemma_without_epsilon_distinct(set);
        lemma_without_epsilon_flat(set);
    }
    lemma_group_reduced(set2);
    if set.len() == 0 {
    } else if set.len() == 1 {
        assert(reduced(set[0]));
    } else if set.len() == 2 && set.contains(Tree::Epsilon) {
        assert(reduced(set[0]));
        assert(reduced(set[1]));
    } else if factors(cs) {
        lemma_tails_smaller(cs);
        lemma_tails_reduced(set2);
        lemma_union_rule_reduced(tails(set2));
        assert(reduced(set2[0]));
        lemma_head_tail_reduced(set2[0]);
        let pair = seq![head(set2[0]), union_rule(tails(set2))];
        assert forall|i: int| 0 <= i < pair.len() implies reduced(#[trigger] pair[i]) by {}
        lemma_concat_rule_reduced(pair);
    } else {
        lemma_settled_long(set);
    }
}

/// Three or more different children, or two without the empty word, are
/// still two or more after the empty word is left out.
pub proof fn lemma_settled_long<V>(set: Seq<Tree<V>>)
    requires
        set.no_duplicates(),
        set.len() >= 2,
        !(set.len() == 2 && set.contains(Tree::Epsilon)),
    ensures
        settled(set).len() >= 2,
{
    if any_zero_repeat(set) {
        lemma_without_epsilon_len(set);
    }
}

/// Leaving out the empty word from different expressions takes away one
/// at most, and none where the empty word is not among them.
pub proof fn lemma_without_epsilon_len<V>(ts: Seq<Tree<V>>)
    requires
        ts.no_duplicates(),
    ensures
        without_epsilon(ts).len() + 1 >= ts.len(),
        !ts.contains(Tree::Epsilon) ==> without_epsilon(ts).len() == ts.len(),
    decreases ts.len(),
{
    if ts.len() > 0 {
        let front = ts.drop_last();
        assert(front.no_duplicates()) by {
            assert forall|i: int, j: int|
                0 <= i < front.len() && 0 <= j < front.len() && i != j implies front[i]
                != front[j] by {
                assert(ts[i] != ts[j]);
            }
        }
        lemma_without_epsilon_len(front);
        if ts.last() is Epsilon {
            assert(ts.last() == Tree::<V>::Epsilon);
            if front.contains(Tree::Epsilon) {
                let i = choose|i: int| 0 <= i < front.len() && front[i] == Tree::<V>::Epsilon;
                assert(ts[i] == ts[ts.len() - 1]);
            }
        } else {
            if ts.contains(Tree::Epsilon) {
                let i = choose|i: int| 0 <= i < ts.len() && ts[i] == Tree::<V>::Epsilon;
                assert(front[i] == Tree::<V>::Epsilon);
            } else {
                if front.contains(Tree::Epsilon) {
                    let i = choose|i: int| 0 <= i < front.len() && front[i] == Tree::<V>::Epsilon;
                    assert(ts[i] == Tree::<V>::Epsilon);
                }
            }
        }
    }
}

/// The repetition rule gives a reduced expression.
pub proof fn lemma_repeat_rule_reduced<V>(x: Tree<V>, lo: nat, hi: Option<nat>)
    requires
        reduced(x),
    ensures
        reduced(repeat_rule(x, lo, hi)),
{
    if hi is Some && hi->0 < lo {
    } else if x is Epsilon {
    } else if lo == 1 && hi == Some(1nat) {
    } else if x is Empty {
    } else if is_star(x) {
    } else if lo == 0 && hi is None && is_low_repeat(x) {
        assert(reduced(repeated(x)));
    } else if lo == 0 && x is Union {
        let ts = children(x);
        lemma_group_reduced(ts);
        lemma_without_epsilon_reduced(ts);
        lemma_without_epsilon_distinct(ts);
        lemma_without_epsilon_flat(ts);
        let u = without_epsilon(ts);
        lemma_group_reduced(u);
        if hi == Some(1nat) {
            if !any_zero_repeat(u) {
                lemma_all_reduced_push(u, Tree::Epsilon);
            }
            lemma_union_rule_reduced(
                if any_zero_repeat(u) {
                    u
                } else {
                    u.push(Tree::Epsilon)
                },
            );
        } else if u.len() == 1 {
            assert(reduced(u[0]));
        }
    }
}

impl<V> Tree<V> {
    /// The reduced form of every expression is reduced.
    pub proof fn lemma_simplified_reduced(self)
        ensures
            reduced(self.simplified()),
        decreases self, 0nat,
    {
        match self {
            Tree::Union(ts) => {
                if !all_empty(ts) {
                    Self::lemma_simplified_all_reduced(ts);
                    lemma_union_rule_reduced(Tree::simplified_all(ts));
                }
            },
            Tree::Concat(ts) => {
                Self::lemma_simplified_all_reduced(ts);
                lemma_concat_rule_reduced(Tree::simplified_all(ts));
            },
            Tree::Repeat(c, lo, hi) => {
                c.lemma_simplified_reduced();
                lemma_repeat_rule_reduced(c.simplified(), lo, hi);
            },
            _ => {},
        }
    }

    /// The reduced forms of expressions are reduced.
    pub proof fn lemma_simplified_all_reduced(ts: Seq<Tree<V>>)
        ensures
            all_reduced(Tree::simplified_all(ts)),
        decreases ts, 1nat,
    {
        if ts.len() > 0 {
            Self::lemma_simplified_all_reduced(ts.drop_last());
            ts.last().lemma_simplified_reduced();
            lemma_all_reduced_push(Tree::simplified_all(ts.drop_last()), ts.last().simplified());
        }
    }
}

} // verus!
