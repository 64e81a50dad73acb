//! Sums, products and what state elimination builds from them are plain, or
//! the leaf that matches nothing: the expressions that the reduced form keeps
//! the language of.
use crate::regex::algebra::{inserted, inserted_all};
use crate::regex::rules_language::{all_plain, lemma_group_plain, plain};
use crate::regex::tree::Tree;
use vstd::prelude::*;

verus! {

/// The expression is plain, or it is the leaf that matches nothing.
pub open spec fn plain_or_empty<V>(t: Tree<V>) -> bool {
    t is Empty || plain(t)
}

/// Plain expressions with one more plain expression are plain.
pub proof fn lemma_inserted_plain<V>(ts: Seq<Tree<V>>, x: Tree<V>)
    requires
        all_plain(ts),
        plain(x),
    ensures
        all_plain(inserted(ts, x)),
        inserted(ts, x).len() >= 1,
{
    if !ts.contains(x) {
        let r = ts.push(x);
        assert forall|i: int| 0 <= i < r.len() implies plain(#[trigger] r[i]) by {
            if i < ts.len() {
                assert(plain(ts[i]));
            }
        }
    } else {
        let i = choose|i: int| 0 <= i < ts.len() && ts[i] == x;
    }
}

/// Plain expressions with more plain expressions are plain.
pub proof fn lemma_inserted_all_plain<V>(ts: Seq<Tree<V>>, more: Seq<Tree<V>>)
    requires
        all_plain(ts),
        all_plain(more),
    ensures
        all_plain(inserted_all(ts, more)),
        inserted_all(ts, more).len() >= ts.len(),
    decreases more.len(),
{
    if more.len() > 0 {
        assert forall|i: int| 0 <= i < more.drop_last().len() implies plain(
            #[trigger] more.drop_last()[i],
        ) by {
            assert(plain(more[i]));
        }
        lemma_inserted_all_plain(ts, more.drop_last());
        assert(plain(more[more.len() - 1]));
        lemma_inserted_plain(inserted_all(ts, more.drop_last()), more.last());
    }
}

/// The sum of two expressions that are plain or the empty leaf is plain or
/// the empty leaf; it is plain where one of the two is.
pub proof fn lemma_plus_plain<V>(a: Tree<V>, b: Tree<V>)
    requires
        plain_or_empty(a),
        plain_or_empty(b),
    ensures
        plain_or_empty(a.plus(b)),
        plain(a) || plain(b) ==> plain(a.plus(b)),
{
    match (a, b) {
        (Tree::Union(x), Tree::Union(y)) => {
            lemma_group_plain(x);
            lemma_group_plain(y);
            lemma_inserted_all_plain(x, y);
            lemma_group_plain(inserted_all(x, y));
        },
        (Tree::Empty, _) => {},
        (_, Tree::Empty) => {},
        (Tree::Union(x), _) => {
            lemma_group_plain(x);
            lemma_inserted_plain(x, b);
            lemma_group_plain(inserted(x, b));
        },
        (_, Tree::Union(y)) => {
            lemma_group_plain(y);
            lemma_inserted_plain(y, a);
            lemma_group_plain(inserted(y, a));
        },
        _ => {
            let one = seq![a];
            assert(all_plain(one)) by {
                assert forall|i: int| 0 <= i < one.len() implies plain(#[trigger] one[i]) by {
                    assert(one[i] == a);
                }
            }
            lemma_inserted_plain(one, b);
            lemma_group_plain(inserted(one, b));
        },
    }
}

/// The product of two expressions that are plain or the empty leaf is plain
/// or the empty leaf.
pub proof fn lemma_times_plain<V>(a: Tree<V>, b: Tree<V>)
    requires
        plain_or_empty(a),
        plain_or_empty(b),
    ensures
        plain_or_empty(a.times(b)),
{
    match (a, b) {
        (Tree::Concat(x), Tree::Concat(y)) => {
            lemma_group_plain(x);
            lemma_group_plain(y);
            let r = x + y;
            assert forall|i: int| 0 <= i < r.len() implies plain(#[trigger] r[i]) by {
                if i < x.len() {
                    assert(plain(x[i]));
                } else {
                    assert(plain(y[i - x.len()]));
                }
            }
            lemma_group_plain(r);
        },
        (Tree::Epsilon, _) => {},
        (_, Tree::Epsilon) => {},
        (Tree::Empty, _) => {},
        (_, Tree::Empty) => {},
        (Tree::Concat(x), _) => {
            lemma_group_plain(x);
            let r = x.push(b);
            assert forall|i: int| 0 <= i < r.len() implies plain(#[trigger] r[i]) by {
                if i < x.len() {
                    assert(plain(x[i]));
                }
            }
            lemma_group_plain(r);
        },
        (_, Tree::Concat(y)) => {
            lemma_group_plain(y);
            let r = seq![a] + y;
            assert forall|i: int| 0 <= i < r.len() implies plain(#[trigger] r[i]) by {
                if i >= 1 {
                    assert(plain(y[i - 1]));
                }
            }
            lemma_group_plain(r);
        },
        _ => {
            let r = seq![a, b];
            assert forall|i: int| 0 <= i < r.len() implies plain(#[trigger] r[i]) by {}
            lemma_group_plain(r);
        },
    }
}

} // verus!
