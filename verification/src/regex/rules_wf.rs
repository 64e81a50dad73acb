//! The rewriting rules keep an expression well formed.
use crate::regex::algebra::{inserted, inserted_all};
use crate::regex::rules::{
    all_empty, any_zero_repeat, concat_rule, factors, gathered, head, is_low_repeat, is_star,
    lemma_tails_smaller, repeat_rule, settled, spliced, tail, tails, total, union_rule,
    without_epsilon,
};
use crate::regex::tree::{children, lemma_concat_unfold, lemma_union_unfold, Tree};
use vstd::prelude::*;

verus! {

/// Every expression of `ts` is well formed over `alphabet`.
pub open spec fn all_wf<V>(ts: Seq<Tree<V>>, alphabet: Set<V>) -> bool {
    forall|i: int| 0 <= i < ts.len() ==> (#[trigger] ts[i]).wf(alphabet)
}

/// A union or a concatenation is well formed exactly when its children are.
pub proof fn lemma_group_wf<V>(ts: Seq<Tree<V>>, alphabet: Set<V>)
    ensures
        Tree::Union(ts).wf(alphabet) <==> all_wf(ts, alphabet),
        Tree::Concat(ts).wf(alphabet) <==> all_wf(ts, alphabet),
{
    lemma_union_unfold(ts, alphabet, Seq::empty());
    lemma_concat_unfold(ts, alphabet, Seq::empty());
}

/// Well-formed expressions after one more.
pub proof fn lemma_all_wf_push<V>(ts: Seq<Tree<V>>, x: Tree<V>, alphabet: Set<V>)
    requires
        all_wf(ts, alphabet),
        x.wf(alphabet),
    ensures
        all_wf(ts.push(x), alphabet),
        all_wf(inserted(ts, x), alphabet),
{
    let ts2 = ts.push(x);
    assert forall|i: int| 0 <= i < ts2.len() implies (#[trigger] ts2[i]).wf(alphabet) by {
        if i < ts.len() {
            assert(ts[i].wf(alphabet));
        }
    }
}

/// Well-formed expressions after more of them.
pub proof fn lemma_all_wf_add<V>(a: Seq<Tree<V>>, b: Seq<Tree<V>>, alphabet: Set<V>)
    requires
        all_wf(a, alphabet),
        all_wf(b, alphabet),
    ensures
        all_wf(a + b, alphabet),
        all_wf(inserted_all(a, b), alphabet),
    decreases b.len(),
{
    let ab = a + b;
    assert forall|i: int| 0 <= i < ab.len() implies (#[trigger] ab[i]).wf(alphabet) by {
        if i < a.len() {
            assert(a[i].wf(alphabet));
        } else {
            assert(b[i - a.len()].wf(alphabet));
        }
    }
    if b.len() > 0 {
        let front = b.drop_last();
        assert forall|i: int| 0 <= i < front.len() implies (#[trigger] front[i]).wf(alphabet) by {
            assert(b[i].wf(alphabet));
        }
        lemma_all_wf_add(a, front, alphabet);
        assert(b[b.len() - 1].wf(alphabet));
        lemma_all_wf_push(inserted_all(a, front), b.last(), alphabet);
    }
}

/// The front of well-formed expressions is well formed.
pub proof fn lemma_all_wf_front<V>(ts: Seq<Tree<V>>, alphabet: Set<V>)
    requires
        all_wf(ts, alphabet),
        ts.len() > 0,
    ensures
        all_wf(ts.drop_last(), alphabet),
        all_wf(ts.drop_first(), alphabet),
        ts.last().wf(alphabet),
        ts[0].wf(alphabet),
{
    let front = ts.drop_last();
    assert forall|i: int| 0 <= i < front.len() implies (#[trigger] front[i]).wf(alphabet) by {
        assert(ts[i].wf(alphabet));
    }
    let back = ts.drop_first();
    assert forall|i: int| 0 <= i < back.len() implies (#[trigger] back[i]).wf(alphabet) by {
        assert(ts[i + 1].wf(alphabet));
    }
    assert(ts[ts.len() - 1].wf(alphabet));
}

/// Splicing keeps the children well formed.
pub proof fn lemma_spliced_wf<V>(cs: Seq<Tree<V>>, alphabet: Set<V>)
    requires
        all_wf(cs, alphabet),
    ensures
        all_wf(spliced(cs), alphabet),
    decreases cs.len(),
{
    if cs.len() > 0 {
        lemma_all_wf_front(cs, alphabet);
        lemma_spliced_wf(cs.drop_last(), alphabet);
        let before = spliced(cs.drop_last());
        match cs.last() {
            Tree::Epsilon => {},
            Tree::Concat(inner) => {
                lemma_group_wf(inner, alphabet);
                lemma_all_wf_add(before, inner, alphabet);
            },
            x => {
                lemma_all_wf_push(before, x, alphabet);
            },
        }
    }
}

/// Gathering keeps the children well formed.
pub proof fn lemma_gathered_wf<V>(cs: Seq<Tree<V>>, alphabet: Set<V>)
    requires
        all_wf(cs, alphabet),
    ensures
        all_wf(gathered(cs), alphabet),
    decreases cs.len(),
{
    if cs.len() > 0 {
        lemma_all_wf_front(cs, alphabet);
        lemma_gathered_wf(cs.drop_last(), alphabet);
        let before = gathered(cs.drop_last());
        match cs.last() {
            Tree::Empty => {},
            Tree::Union(inner) => {
                lemma_group_wf(inner, alphabet);
                lemma_all_wf_add(before, inner, alphabet);
            },
            x => {
                lemma_all_wf_push(before, x, alphabet);
            },
        }
    }
}

/// Leaving out the empty word keeps the expressions well formed.
pub proof fn lemma_without_epsilon_wf<V>(ts: Seq<Tree<V>>, alphabet: Set<V>)
    requires
        all_wf(ts, alphabet),
    ensures
        all_wf(without_epsilon(ts), alphabet),
    decreases ts.len(),
{
    if ts.len() > 0 {
        lemma_all_wf_front(ts, alphabet);
        lemma_without_epsilon_wf(ts.drop_last(), alphabet);
        if !(ts.last() is Epsilon) {
            lemma_all_wf_push(without_epsilon(ts.drop_last()), ts.last(), alphabet);
        }
    }
}

/// The head and the tail of a well-formed expression are well formed.
pub proof fn lemma_head_tail_wf<V>(t: Tree<V>, alphabet: Set<V>)
    requires
        t.wf(alphabet),
    ensures
        head(t).wf(alphabet),
        tail(t).wf(alphabet),
{
    match t {
        Tree::Concat(ts) => {
            lemma_group_wf(ts, alphabet);
            if ts.len() > 0 {
                lemma_all_wf_front(ts, alphabet);
                lemma_group_wf(ts.drop_first(), alphabet);
                if ts.len() == 2 {
                    assert(ts[1].wf(alphabet));
                }
            }
        },
        _ => {},
    }
}

/// The tails of well-formed expressions are well formed.
pub proof fn lemma_tails_wf<V>(ts: Seq<Tree<V>>, alphabet: Set<V>)
    requires
        all_wf(ts, alphabet),
    ensures
        all_wf(tails(ts), alphabet),
    decreases ts.len(),
{
    if ts.len() > 0 {
        lemma_all_wf_front(ts, alphabet);
        lemma_tails_wf(ts.drop_last(), alphabet);
        lemma_head_tail_wf(ts.last(), alphabet);
        lemma_all_wf_push(tails(ts.drop_last()), tail(ts.last()), alphabet);
    }
}

/// The concatenation rule gives a well-formed expression.
pub proof fn lemma_concat_rule_wf<V>(cs: Seq<Tree<V>>, alphabet: Set<V>)
    requires
        all_wf(cs, alphabet),
    ensures
        concat_rule(cs).wf(alphabet),
{
    lemma_spliced_wf(cs, alphabet);
    let list = spliced(cs);
    lemma_group_wf(list, alphabet);
    if list.len() == 1 {
        assert(list[0].wf(alphabet));
    }
}

/// The union rule gives a well-formed expression.
pub proof fn lemma_union_rule_wf<V>(cs: Seq<Tree<V>>, alphabet: Set<V>)
    requires
        all_wf(cs, alphabet),
    ensures
        union_rule(cs).wf(alphabet),
    decreases total(cs),
{
    lemma_gathered_wf(cs, alphabet);
    let set = gathered(cs);
    let set2 = settled(set);
    if any_zero_repeat(set) {
        lemma_without_epsilon_wf(set, alphabet);
    }
    lemma_group_wf(set2, alphabet);
    if set.len() == 1 {
        assert(set[0].wf(alphabet));
    } else if set.len() == 2 && set.contains(Tree::Epsilon) {
        assert(set[0].wf(alphabet));
        assert(set[1].wf(alphabet));
    } else if set.len() >= 2 && factors(cs) {
        lemma_tails_smaller(cs);
        lemma_tails_wf(set2, alphabet);
        lemma_union_rule_wf(tails(set2), alphabet);
        assert(set2[0].wf(alphabet));
        lemma_head_tail_wf(set2[0], alphabet);
        let pair = seq![head(set2[0]), union_rule(tails(set2))];
        assert forall|i: int| 0 <= i < pair.len() implies (#[trigger] pair[i]).wf(alphabet) by {}
        lemma_concat_rule_wf(pair, alphabet);
    }
}

/// The repetition rule gives a well-formed expression.
pub proof fn lemma_repeat_rule_wf<V>(x: Tree<V>, lo: nat, hi: Option<nat>, alphabet: Set<V>)
    requires
        x.wf(alphabet),
    ensures
        repeat_rule(x, lo, hi).wf(alphabet),
{
    if hi is Some && hi->0 < lo {
    } else if x is Epsilon {
    } else if lo == 1 && hi == Some(1nat) {
    } else if x is Empty {
    } else if is_star(x) {
    } else if lo == 0 && hi is None && is_low_repeat(x) {
    } else if lo == 0 && x is Union {
        let ts = children(x);
        lemma_group_wf(ts, alphabet);
        lemma_without_epsilon_wf(ts, alphabet);
        let u = without_epsilon(ts);
        lemma_group_wf(u, alphabet);
        if hi == Some(1nat) {
            if !any_zero_repeat(u) {
                lemma_all_wf_push(u, Tree::Epsilon, alphabet);
            }
            lemma_union_rule_wf(
                if any_zero_repeat(u) {
                    u
                } else {
                    u.push(Tree::Epsilon)
                },
                alphabet,
            );
        } else if u.len() == 1 {
            assert(u[0].wf(alphabet));
        }
    }
}

/// The reduced form of a well-formed expression is well formed.
pub proof fn lemma_simplified_wf<V>(t: Tree<V>, alphabet: Set<V>)
    requires
        t.wf(alphabet),
    ensures
        t.simplified().wf(alphabet),
    decreases t, 0nat,
{
    match t {
        Tree::Union(ts) => {
            lemma_group_wf(ts, alphabet);
            if !all_empty(ts) {
                lemma_simplified_all_wf(ts, alphabet);
                lemma_union_rule_wf(Tree::simplified_all(ts), alphabet);
            }
        },
        Tree::Concat(ts) => {
            lemma_group_wf(ts, alphabet);
            lemma_simplified_all_wf(ts, alphabet);
            lemma_concat_rule_wf(Tree::simplified_all(ts), alphabet);
        },
        Tree::Repeat(c, lo, hi) => {
            lemma_simplified_wf(*c, alphabet);
            lemma_repeat_rule_wf(c.simplified(), lo, hi, alphabet);
        },
        _ => {},
    }
}

/// The reduced forms of well-formed expressions are well formed.
pub proof fn lemma_simplified_all_wf<V>(ts: Seq<Tree<V>>, alphabet: Set<V>)
    requires
        all_wf(ts, alphabet),
    ensures
        all_wf(Tree::simplified_all(ts), alphabet),
    decreases ts, 1nat,
{
    if ts.len() > 0 {
        lemma_all_wf_front(ts, alphabet);
        lemma_simplified_all_wf(ts.drop_last(), alphabet);
        lemma_simplified_wf(ts.last(), alphabet);
        lemma_all_wf_push(
            Tree::simplified_all(ts.drop_last()),
            ts.last().simplified(),
            alphabet,
        );
    }
}

} // verus!
