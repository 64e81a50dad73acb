//! Sums and products of expressions, absorbing what is neutral and merging
//! what is alike.
use crate::language::in_concat;
use crate::regex::tree::{
    children, lemma_concat_unfold, lemma_models, lemma_models_push, lemma_union_unfold,
    Operations, Tree,
};
use crate::symbol::Symbol;
use vstd::prelude::*;

verus! {

/// `ts` with `x` added at the end, unless it holds `x` already.
pub open spec fn inserted<V>(ts: Seq<Tree<V>>, x: Tree<V>) -> Seq<Tree<V>> {
    if ts.contains(x) {
        ts
    } else {
        ts.push(x)
    }
}

/// `ts` with the members of `more` added one by one, each unless it is held
/// already.
pub open spec fn inserted_all<V>(ts: Seq<Tree<V>>, more: Seq<Tree<V>>) -> Seq<Tree<V>>
    decreases more.len(),
{
    if more.len() == 0 {
        ts
    } else {
        inserted(inserted_all(ts, more.drop_last()), more.last())
    }
}

impl<V> Tree<V> {
    /// The sum of two expressions: what either matches. Nothing is dropped,
    /// and unions are merged.
    pub open spec fn plus(self, other: Tree<V>) -> Tree<V> {
        match (self, other) {
            (Tree::Union(x), Tree::Union(y)) => Tree::Union(inserted_all(x, y)),
            (Tree::Empty, b) => b,
            (a, Tree::Empty) => a,
            (Tree::Union(x), b) => Tree::Union(inserted(x, b)),
            (a, Tree::Union(y)) => Tree::Union(inserted(y, a)),
            (a, b) => Tree::Union(inserted(seq![a], b)),
        }
    }

    /// The product of two expressions: a word of the first followed by a
    /// word of the second. The empty word is dropped, nothing absorbs, and
    /// concatenations are merged.
    pub open spec fn times(self, other: Tree<V>) -> Tree<V> {
        match (self, other) {
            (Tree::Concat(x), Tree::Concat(y)) => Tree::Concat(x + y),
            (Tree::Epsilon, b) => b,
            (a, Tree::Epsilon) => a,
            (Tree::Empty, _) => Tree::Empty,
            (_, Tree::Empty) => Tree::Empty,
            (Tree::Concat(x), b) => Tree::Concat(x.push(b)),
            (a, Tree::Concat(y)) => Tree::Concat(seq![a] + y),
            (a, b) => Tree::Concat(seq![a, b]),
        }
    }
}

/// What a union matches after one more child.
pub proof fn lemma_union_push<V>(ts: Seq<Tree<V>>, x: Tree<V>, alphabet: Set<V>, w: Seq<V>)
    ensures
        Tree::Union(ts.push(x)).matches(alphabet, w) <==> (Tree::Union(ts).matches(alphabet, w)
            || x.matches(alphabet, w)),
        Tree::Union(ts.push(x)).wf(alphabet) <==> (Tree::Union(ts).wf(alphabet) && x.wf(alphabet)),
{
    let ts2 = ts.push(x);
    lemma_union_unfold(ts, alphabet, w);
    lemma_union_unfold(ts2, alphabet, w);
    if Tree::Union(ts2).matches(alphabet, w) {
        let i = choose|i: int| 0 <= i < ts2.len() && (#[trigger] ts2[i]).matches(alphabet, w);
        if i < ts.len() {
            assert(ts[i].matches(alphabet, w));
        }
    }
    if Tree::Union(ts).matches(alphabet, w) {
        let i = choose|i: int| 0 <= i < ts.len() && (#[trigger] ts[i]).matches(alphabet, w);
        assert(ts2[i].matches(alphabet, w));
    }
    if x.matches(alphabet, w) {
        assert(ts2[ts.len() as int].matches(alphabet, w));
    }
    if Tree::Union(ts2).wf(alphabet) {
        assert forall|i: int| 0 <= i < ts.len() implies (#[trigger] ts[i]).wf(alphabet) by {
            assert(ts2[i].wf(alphabet));
        }
        assert(ts2[ts.len() as int].wf(alphabet));
    }
    if Tree::Union(ts).wf(alphabet) && x.wf(alphabet) {
        assert forall|i: int| 0 <= i < ts2.len() implies (#[trigger] ts2[i]).wf(alphabet) by {
            if i < ts.len() {
                assert(ts[i].wf(alphabet));
            }
        }
    }
}

/// What a union matches after a child is inserted.
pub proof fn lemma_union_inserted<V>(ts: Seq<Tree<V>>, x: Tree<V>, alphabet: Set<V>, w: Seq<V>)
    ensures
        Tree::Union(inserted(ts, x)).matches(alphabet, w) <==> (Tree::Union(ts).matches(
            alphabet,
            w,
        ) || x.matches(alphabet, w)),
        Tree::Union(ts).wf(alphabet) && x.wf(alphabet) ==> Tree::Union(inserted(ts, x)).wf(alphabet),
{
    lemma_union_push(ts, x, alphabet, w);
    lemma_union_unfold(ts, alphabet, w);
    if ts.contains(x) {
        let i = choose|i: int| 0 <= i < ts.len() && ts[i] == x;
        if x.matches(alphabet, w) {
            assert(ts[i].matches(alphabet, w));
        }
    }
}

/// What a union matches after the children of another are inserted.
pub proof fn lemma_union_inserted_all<V>(
    ts: Seq<Tree<V>>,
    more: Seq<Tree<V>>,
    alphabet: Set<V>,
    w: Seq<V>,
)
    ensures
        Tree::Union(inserted_all(ts, more)).matches(alphabet, w) <==> (Tree::Union(ts).matches(
            alphabet,
            w,
        ) || Tree::Union(more).matches(alphabet, w)),
        Tree::Union(ts).wf(alphabet) && Tree::Union(more).wf(alphabet) ==> Tree::Union(
            inserted_all(ts, more),
        ).wf(alphabet),
    decreases more.len(),
{
    lemma_union_unfold(more, alphabet, w);
    if more.len() == 0 {
    } else {
        let front = more.drop_last();
        lemma_union_inserted_all(ts, front, alphabet, w);
        lemma_union_inserted(inserted_all(ts, front), more.last(), alphabet, w);
        assert(front.push(more.last()) =~= more);
        lemma_union_push(front, more.last(), alphabet, w);
    }
}

/// The sum matches what either expression matches, and is well formed where
/// both are.
pub proof fn lemma_plus<V>(a: Tree<V>, b: Tree<V>, alphabet: Set<V>, w: Seq<V>)
    ensures
        a.plus(b).matches(alphabet, w) <==> (a.matches(alphabet, w) || b.matches(alphabet, w)),
        a.wf(alphabet) && b.wf(alphabet) ==> a.plus(b).wf(alphabet),
{
    let none = Seq::<Tree<V>>::empty();
    match (a, b) {
        (Tree::Union(x), Tree::Union(y)) => {
            lemma_union_inserted_all(x, y, alphabet, w);
        },
        (Tree::Empty, _) => {},
        (_, Tree::Empty) => {},
        (Tree::Union(x), _) => {
            lemma_union_inserted(x, b, alphabet, w);
        },
        (_, Tree::Union(y)) => {
            lemma_union_inserted(y, a, alphabet, w);
        },
        _ => {
            lemma_union_push(none, a, alphabet, w);
            assert(none.push(a) =~= seq![a]);
            lemma_union_inserted(seq![a], b, alphabet, w);
            lemma_union_unfold(none, alphabet, w);
        },
    }
}

/// What a concatenation matches after one more child.
pub proof fn lemma_concat_push<V>(ts: Seq<Tree<V>>, x: Tree<V>, alphabet: Set<V>, w: Seq<V>)
    ensures
        Tree::matches_all(ts.push(x), alphabet, w) <==> in_concat(
            Tree::Concat(ts).matched(alphabet),
            x.matched(alphabet),
            w,
        ),
{
    let ts2 = ts.push(x);
    assert(ts2.drop_last() =~= ts);
    assert(ts2.last() == x);
    assert forall|u: Seq<V>|
        #[trigger] Tree::Concat(ts).matched(alphabet)(u) == Tree::matches_all(ts, alphabet, u) by {
        lemma_concat_unfold(ts, alphabet, u);
    }
    if Tree::matches_all(ts2, alphabet, w) {
        let k = choose|k: int|
            0 <= k <= w.len() && Tree::matches_all(ts2.drop_last(), alphabet, #[trigger] w.take(k))
                && ts2.last().matches(alphabet, w.skip(k));
        assert(Tree::Concat(ts).matched(alphabet)(w.take(k)) && x.matched(alphabet)(w.skip(k)));
    }
    if in_concat(Tree::Concat(ts).matched(alphabet), x.matched(alphabet), w) {
        let k = choose|k: int|
            0 <= k <= w.len() && Tree::Concat(ts).matched(alphabet)(#[trigger] w.take(k))
                && x.matched(alphabet)(w.skip(k));
        assert(Tree::matches_all(ts2.drop_last(), alphabet, w.take(k)) && ts2.last().matches(
            alphabet,
            w.skip(k),
        ));
    }
}

/// What two lists of expressions match one after the other.
pub proof fn lemma_concat_append<V>(
    xs: Seq<Tree<V>>,
    ys: Seq<Tree<V>>,
    alphabet: Set<V>,
    w: Seq<V>,
)
    ensures
        Tree::matches_all(xs + ys, alphabet, w) <==> in_concat(
            Tree::Concat(xs).matched(alphabet),
            Tree::Concat(ys).matched(alphabet),
            w,
        ),
    decreases ys.len(),
{
    let lx = Tree::Concat(xs).matched(alphabet);
    let ly = Tree::Concat(ys).matched(alphabet);
    assert forall|u: Seq<V>| #[trigger] lx(u) == Tree::matches_all(xs, alphabet, u) by {
        lemma_concat_unfold(xs, alphabet, u);
    }
    assert forall|u: Seq<V>| #[trigger] ly(u) == Tree::matches_all(ys, alphabet, u) by {
        lemma_concat_unfold(ys, alphabet, u);
    }
    assert forall|u: Seq<V>|
        #[trigger] Tree::Concat(ys.drop_last()).matched(alphabet)(u) == Tree::matches_all(
            ys.drop_last(),
            alphabet,
            u,
        ) by {
        lemma_concat_unfold(ys.drop_last(), alphabet, u);
    }
    if ys.len() == 0 {
        assert(xs + ys =~= xs);
        if Tree::matches_all(xs, alphabet, w) {
            assert(w.take(w.len() as int) =~= w);
            assert(lx(w.take(w.len() as int)) && ly(w.skip(w.len() as int)));
        }
        if in_concat(lx, ly, w) {
            let k = choose|k: int| 0 <= k <= w.len() && lx(#[trigger] w.take(k)) && ly(w.skip(k));
            assert(w.take(k) =~= w);
        }
    } else {
        let front = ys.drop_last();
        let last = ys.last();
        let all = xs + ys;
        assert(all.drop_last() =~= xs + front);
        assert(all.last() == last);
        if Tree::matches_all(all, alphabet, w) {
            let k = choose|k: int|
                0 <= k <= w.len() && Tree::matches_all(
                    all.drop_last(),
                    alphabet,
                    #[trigger] w.take(k),
                ) && all.last().matches(alphabet, w.skip(k));
            let u = w.take(k);
            lemma_concat_append(xs, front, alphabet, u);
            let j = choose|j: int|
                0 <= j <= u.len() && lx(#[trigger] u.take(j)) && Tree::Concat(front).matched(
                    alphabet,
                )(u.skip(j));
            let rest = w.skip(j);
            assert(u.take(j) =~= w.take(j));
            assert(rest.take(k - j) =~= u.skip(j));
            assert(rest.skip(k - j) =~= w.skip(k));
            assert(Tree::matches_all(ys.drop_last(), alphabet, rest.take(k - j)));
            assert(ly(rest));
            assert(lx(w.take(j)) && ly(w.skip(j)));
        }
        if in_concat(lx, ly, w) {
            let j = choose|j: int| 0 <= j <= w.len() && lx(#[trigger] w.take(j)) && ly(w.skip(j));
            let rest = w.skip(j);
            let i = choose|i: int|
                0 <= i <= rest.len() && Tree::matches_all(
                    ys.drop_last(),
                    alphabet,
                    #[trigger] rest.take(i),
                ) && ys.last().matches(alphabet, rest.skip(i));
            let k = j + i;
            let u = w.take(k);
            assert(u.take(j) =~= w.take(j));
            assert(u.skip(j) =~= rest.take(i));
            assert(w.skip(k) =~= rest.skip(i));
            assert(lx(u.take(j)) && Tree::Concat(front).matched(alphabet)(u.skip(j)));
            lemma_concat_append(xs, front, alphabet, u);
            assert(Tree::matches_all(all.drop_last(), alphabet, w.take(k)) && all.last().matches(
                alphabet,
                w.skip(k),
            ));
        }
    }
}

/// A list of one expression matches what the expression matches.
pub proof fn lemma_concat_one<V>(x: Tree<V>, alphabet: Set<V>, w: Seq<V>)
    ensures
        Tree::matches_all(seq![x], alphabet, w) <==> x.matches(alphabet, w),
{
    let one = seq![x];
    assert(one.drop_last() =~= Seq::<Tree<V>>::empty());
    if Tree::matches_all(one, alphabet, w) {
        let k = choose|k: int|
            0 <= k <= w.len() && Tree::matches_all(one.drop_last(), alphabet, #[trigger] w.take(k))
                && one.last().matches(alphabet, w.skip(k));
        assert(w.skip(k) =~= w);
    }
    if x.matches(alphabet, w) {
        assert(w.skip(0) =~= w);
        assert(Tree::matches_all(one.drop_last(), alphabet, w.take(0)));
    }
}

/// The product matches a word of the first expression followed by a word of
/// the second, and is well formed where both are.
pub proof fn lemma_times<V>(a: Tree<V>, b: Tree<V>, alphabet: Set<V>, w: Seq<V>)
    ensures
        a.times(b).matches(alphabet, w) <==> in_concat(
            a.matched(alphabet),
            b.matched(alphabet),
            w,
        ),
        a.wf(alphabet) && b.wf(alphabet) ==> a.times(b).wf(alphabet),
{
    let la = a.matched(alphabet);
    let lb = b.matched(alphabet);
    match a {
        Tree::Concat(x) => {
            lemma_concat_unfold(x, alphabet, w);
        },
        _ => {},
    }
    match b {
        Tree::Concat(y) => {
            lemma_concat_unfold(y, alphabet, w);
        },
        _ => {},
    }
    match a.times(b) {
        Tree::Concat(z) => {
            lemma_concat_unfold(z, alphabet, w);
        },
        _ => {},
    }
    if in_concat(la, lb, w) {
        let k = choose|k: int| 0 <= k <= w.len() && la(#[trigger] w.take(k)) && lb(w.skip(k));
        if a is Epsilon {
            assert(w.skip(k) =~= w);
        }
        if b is Epsilon {
            assert(w.take(k) =~= w);
        }
    }
    if a is Epsilon && b.matches(alphabet, w) {
        assert(w.skip(0) =~= w);
        assert(la(w.take(0)) && lb(w.skip(0)));
    }
    if b is Epsilon && a.matches(alphabet, w) {
        assert(w.take(w.len() as int) =~= w);
        assert(la(w.take(w.len() as int)) && lb(w.skip(w.len() as int)));
    }
    match (a, b) {
        (Tree::Concat(x), Tree::Concat(y)) => {
            lemma_concat_append(x, y, alphabet, w);
            if a.wf(alphabet) && b.wf(alphabet) {
                assert forall|i: int| 0 <= i < (x + y).len() implies (#[trigger] (x + y)[i]).wf(
                    alphabet,
                ) by {
                    if i < x.len() {
                        assert(x[i].wf(alphabet));
                    } else {
                        assert(y[i - x.len()].wf(alphabet));
                    }
                }
            }
        },
        (Tree::Epsilon, _) => {},
        (_, Tree::Epsilon) => {},
        (Tree::Empty, _) => {},
        (_, Tree::Empty) => {},
        (Tree::Concat(x), _) => {
            lemma_concat_push(x, b, alphabet, w);
            if a.wf(alphabet) && b.wf(alphabet) {
                assert forall|i: int| 0 <= i < x.push(b).len() implies (#[trigger] x.push(
                    b,
                )[i]).wf(alphabet) by {
                    if i < x.len() {
                        assert(x[i].wf(alphabet));
                    }
                }
            }
        },
        (_, Tree::Concat(y)) => {
            lemma_concat_append(seq![a], y, alphabet, w);
            assert forall|u: Seq<V>| #[trigger] Tree::Concat(seq![a]).matched(alphabet)(u) == la(
                u,
            ) by {
                lemma_concat_one(a, alphabet, u);
                lemma_concat_unfold(seq![a], alphabet, u);
            }
            assert(Tree::Concat(seq![a]).matched(alphabet) =~= la);
            if a.wf(alphabet) && b.wf(alphabet) {
                let all = seq![a] + y;
                assert forall|i: int| 0 <= i < all.len() implies (#[trigger] all[i]).wf(
                    alphabet,
                ) by {
                    if i > 0 {
                        assert(y[i - 1].wf(alphabet));
                    }
                }
            }
        },
        _ => {
            lemma_concat_push(seq![a], b, alphabet, w);
            assert(seq![a].push(b) =~= seq![a, b]);
            assert forall|u: Seq<V>| #[trigger] Tree::Concat(seq![a]).matched(alphabet)(u) == la(
                u,
            ) by {
                lemma_concat_one(a, alphabet, u);
                lemma_concat_unfold(seq![a], alphabet, u);
            }
            assert(Tree::Concat(seq![a]).matched(alphabet) =~= la);
        },
    }
}

/// The models of two lists, one after the other.
pub proof fn lemma_models_append<V: Symbol>(a: Seq<Operations<V>>, b: Seq<Operations<V>>)
    ensures
        Operations::models(a + b) == Operations::models(a) + Operations::models(b),
{
    lemma_models(a);
    lemma_models(b);
    lemma_models(a + b);
    assert(Operations::models(a + b) =~= Operations::models(a) + Operations::models(b));
}

impl<V: Symbol> Operations<V> {
    /// Adds `x` at the end of `list`, unless `list` holds it already.
    pub fn insert(list: &mut Vec<Operations<V>>, x: Operations<V>)
        ensures
            Self::models(final(list)@) == inserted(Self::models(old(list)@), x@),
    {
        if !Self::holds(list, &x) {
            proof {
                lemma_models_push(list@, x);
            }
            list.push(x);
        }
    }

    /// Adds the members of `more` to `list` one by one, each unless `list`
    /// holds it already.
    pub fn insert_all(list: &mut Vec<Operations<V>>, more: &Vec<Operations<V>>)
        ensures
            Self::models(final(list)@) == inserted_all(
                Self::models(old(list)@),
                Self::models(more@),
            ),
    {
        let mut i: usize = 0;
        proof {
            lemma_models(more@);
            assert(Self::models(more@).take(0) =~= Seq::<Tree<V>>::empty());
        }
        while i < more.len()
            invariant
                i <= more.len(),
                Self::models(more@).len() == more.len(),
                forall|j: int|
                    0 <= j < more.len() ==> (#[trigger] Self::models(more@)[j]) == more[j].model(),
                Self::models(list@) == inserted_all(
                    Self::models(old(list)@),
                    Self::models(more@).take(i as int),
                ),
            decreases more.len() - i,
        {
            proof {
                let ms = Self::models(more@);
                assert(ms.take(i as int + 1).drop_last() =~= ms.take(i as int));
                assert(ms.take(i as int + 1).last() == more[i as int].model());
            }
            Self::insert(list, more[i].copy());
            i += 1;
        }
        proof {
            assert(Self::models(more@).take(more.len() as int) =~= Self::models(more@));
        }
    }

    /// The sum of two expressions.
    pub fn plus(self, other: Operations<V>) -> (r: Operations<V>)
        ensures
            r@ == self@.plus(other@),
    {
        match self {
            Operations::Union(v1) => {
                let mut v1 = v1;
                match other {
                    Operations::Union(v2) => {
                        Self::insert_all(&mut v1, &v2);
                        Operations::Union(v1)
                    },
                    Operations::Empty => Operations::Union(v1),
                    b => {
                        Self::insert(&mut v1, b);
                        Operations::Union(v1)
                    },
                }
            },
            Operations::Empty => other,
            a => {
                match other {
                    Operations::Empty => a,
                    Operations::Union(v2) => {
                        let mut v2 = v2;
                        Self::insert(&mut v2, a);
                        Operations::Union(v2)
                    },
                    b => {
                        let mut v: Vec<Operations<V>> = Vec::new();
                        proof {
                            lemma_models_push(v@, a);
                            assert(Self::models(v@.push(a)) =~= seq![a@]);
                        }
                        v.push(a);
                        Self::insert(&mut v, b);
                        Operations::Union(v)
                    },
                }
            },
        }
    }

    /// The product of two expressions.
    pub fn times(self, other: Operations<V>) -> (r: Operations<V>)
        ensures
            r@ == self@.times(other@),
    {
        match self {
            Operations::Concat(v1) => {
                let mut v1 = v1;
                match other {
                    Operations::Concat(v2) => {
                        let mut v2 = v2;
                        proof {
                            lemma_models_append(v1@, v2@);
                        }
                        v1.append(&mut v2);
                        Operations::Concat(v1)
                    },
                    Operations::Epsilon => Operations::Concat(v1),
                    Operations::Empty => Operations::Empty,
                    b => {
                        proof {
                            lemma_models_push(v1@, b);
                        }
                        v1.push(b);
                        Operations::Concat(v1)
                    },
                }
            },
            Operations::Epsilon => other,
            Operations::Empty => {
                match other {
                    Operations::Epsilon => Operations::Empty,
                    _ => Operations::Empty,
                }
            },
            a => {
                match other {
                    Operations::Epsilon => a,
                    Operations::Empty => Operations::Empty,
                    Operations::Concat(v2) => {
                        let mut v: Vec<Operations<V>> = Vec::new();
                        let mut v2 = v2;
                        proof {
                            lemma_models_push(v@, a);
                            assert(Self::models(v@.push(a)) =~= seq![a@]);
                            lemma_models_append(v@.push(a), v2@);
                        }
                        v.push(a);
                        v.append(&mut v2);
                        Operations::Concat(v)
                    },
                    b => {
                        let mut v: Vec<Operations<V>> = Vec::new();
                        proof {
                            lemma_models_push(v@, a);
                            lemma_models_push(v@.push(a), b);
                            assert(Self::models(v@.push(a).push(b)) =~= seq![a@, b@]);
                        }
                        v.push(a);
                        v.push(b);
                        Operations::Concat(v)
                    },
                }
            },
        }
    }
}

} // verus!
