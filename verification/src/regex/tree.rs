//! The tree of a regular expression: its mathematical model, what it
//! matches, and the tree as the library holds it.
use crate::language::{in_repeat, Language};
use crate::nfa::repeat::bound;
use crate::symbol::Symbol;
use vstd::prelude::*;

verus! {

/// A regular expression as mathematics.
pub enum Tree<V> {
    /// One of the children; the order of the children does not matter to
    /// what is matched.
    Union(Seq<Tree<V>>),
    /// The children one after the other.
    Concat(Seq<Tree<V>>),
    /// The child a number of times that is at least the first bound and, where
    /// there is a second bound, at most that.
    Repeat(Box<Tree<V>>, nat, Option<nat>),
    /// One symbol.
    Letter(V),
    /// The empty word.
    Epsilon,
    /// Nothing.
    Empty,
    /// Any one symbol of the alphabet.
    Dot,
}

impl<V> Tree<V> {
    /// Whether the expression matches `w`, the dot standing for the symbols
    /// of `alphabet`.
    pub open spec fn matches(self, alphabet: Set<V>, w: Seq<V>) -> bool
        decreases self, 0nat,
    {
        match self {
            Tree::Union(ts) => exists|i: int|
                0 <= i < ts.len() && (#[trigger] ts[i]).matches(alphabet, w),
            Tree::Concat(ts) => Self::matches_all(ts, alphabet, w),
            Tree::Repeat(t, lo, hi) => in_repeat(t.matched(alphabet), lo, hi, w),
            Tree::Letter(a) => w == seq![a],
            Tree::Epsilon => w.len() == 0,
            Tree::Empty => false,
            Tree::Dot => w.len() == 1 && alphabet.contains(w[0]),
        }
    }

    /// The language that the expression matches.
    pub open spec fn matched(self, alphabet: Set<V>) -> Language<V>
        decreases self, 1nat,
    {
        |w: Seq<V>| self.matches(alphabet, w)
    }

    /// Whether `w` is a word that the first of `ts` matches, followed by one
    /// that the second matches, and so on.
    pub open spec fn matches_all(ts: Seq<Tree<V>>, alphabet: Set<V>, w: Seq<V>) -> bool
        decreases ts, 2nat,
    {
        if ts.len() == 0 {
            w.len() == 0
        } else {
            exists|k: int|
                0 <= k <= w.len() && Self::matches_all(
                    ts.drop_last(),
                    alphabet,
                    #[trigger] w.take(k),
                ) && ts.last().matches(alphabet, w.skip(k))
        }
    }

    /// Every letter of the expression is in `alphabet`, and no repetition has
    /// a second bound below its first.
    pub open spec fn wf(self, alphabet: Set<V>) -> bool
        decreases self,
    {
        match self {
            Tree::Union(ts) => forall|i: int| 0 <= i < ts.len() ==> (#[trigger] ts[i]).wf(alphabet),
            Tree::Concat(ts) => forall|i: int| 0 <= i < ts.len() ==> (#[trigger] ts[i]).wf(alphabet),
            Tree::Repeat(t, lo, hi) => t.wf(alphabet) && (hi is Some ==> lo <= hi->0),
            Tree::Letter(a) => alphabet.contains(a),
            _ => true,
        }
    }
}

/// A regular expression as the library holds it.
#[derive(Debug)]
pub enum Operations<V: Symbol> {
    /// One of the children. No child occurs twice.
    Union(Vec<Operations<V>>),
    /// The children one after the other.
    Concat(Vec<Operations<V>>),
    /// The child a number of times that is at least the first bound and, where
    /// there is a second bound, at most that.
    Repeat(Box<Operations<V>>, usize, Option<usize>),
    /// One symbol.
    Letter(V),
    /// The empty word.
    Epsilon,
    /// Nothing.
    Empty,
    /// Any one symbol of the alphabet.
    Dot,
}

impl<V: Symbol> Operations<V> {
    /// The expression as mathematics.
    pub open spec fn model(&self) -> Tree<V>
        decreases self,
    {
        match self {
            Operations::Union(v) => Tree::Union(Self::models(v@)),
            Operations::Concat(v) => Tree::Concat(Self::models(v@)),
            Operations::Repeat(t, lo, hi) => Tree::Repeat(Box::new(t.model()), *lo as nat, bound(*hi)),
            Operations::Letter(a) => Tree::Letter(*a),
            Operations::Epsilon => Tree::Epsilon,
            Operations::Empty => Tree::Empty,
            Operations::Dot => Tree::Dot,
        }
    }

    /// The expressions of `s` as mathematics.
    pub open spec fn models(s: Seq<Operations<V>>) -> Seq<Tree<V>>
        decreases s,
    {
        if s.len() == 0 {
            Seq::empty()
        } else {
            Self::models(s.drop_last()).push(s.last().model())
        }
    }
}

impl<V: Symbol> View for Operations<V> {
    type V = Tree<V>;

    open spec fn view(&self) -> Tree<V> {
        self.model()
    }
}

/// The models of a sequence of expressions are the models of its members.
pub proof fn lemma_models<V: Symbol>(s: Seq<Operations<V>>)
    ensures
        Operations::models(s).len() == s.len(),
        forall|i: int| 0 <= i < s.len() ==> (#[trigger] Operations::models(s)[i]) == s[i].model(),
    decreases s.len(),
{
    if s.len() > 0 {
        lemma_models(s.drop_last());
        assert forall|i: int| 0 <= i < s.len() implies (#[trigger] Operations::models(s)[i])
            == s[i].model() by {
            if i < s.len() - 1 {
                assert(s.drop_last()[i] == s[i]);
            }
        }
    }
}

/// The models after one more expression.
pub proof fn lemma_models_push<V: Symbol>(s: Seq<Operations<V>>, x: Operations<V>)
    ensures
        Operations::models(s.push(x)) == Operations::models(s).push(x.model()),
{
    assert(s.push(x).drop_last() =~= s);
}

impl<V: Symbol> Operations<V> {
    /// A copy of the expression.
    pub fn copy(&self) -> (r: Operations<V>)
        ensures
            r@ == self@,
        decreases self,
    {
        match self {
            Operations::Union(v) => Operations::Union(Self::copy_all(v)),
            Operations::Concat(v) => Operations::Concat(Self::copy_all(v)),
            Operations::Repeat(t, lo, hi) => Operations::Repeat(Box::new(t.copy()), *lo, *hi),
            Operations::Letter(a) => Operations::Letter(*a),
            Operations::Epsilon => Operations::Epsilon,
            Operations::Empty => Operations::Empty,
            Operations::Dot => Operations::Dot,
        }
    }

    /// Copies of the expressions.
    pub fn copy_all(v: &Vec<Operations<V>>) -> (r: Vec<Operations<V>>)
        ensures
            Self::models(r@) == Self::models(v@),
            r.len() == v.len(),
        decreases v,
    {
        let mut r: Vec<Operations<V>> = Vec::new();
        let mut i: usize = 0;
        proof {
            assert(v@.take(0) =~= Seq::<Operations<V>>::empty());
        }
        while i < v.len()
            invariant
                i <= v.len(),
                r.len() == i,
                Self::models(r@) == Self::models(v@.take(i as int)),
            decreases v.len() - i,
        {
            let c = v[i].copy();
            proof {
                lemma_models_push(r@, c);
                lemma_models_push(v@.take(i as int), v@[i as int]);
                assert(v@.take(i as int).push(v@[i as int]) =~= v@.take(i as int + 1));
            }
            r.push(c);
            i += 1;
        }
        proof {
            assert(v@.take(v.len() as int) =~= v@);
        }
        r
    }

    /// Whether the two expressions are the same.
    pub fn same(&self, other: &Operations<V>) -> (r: bool)
        ensures
            r == (self@ == other@),
        decreases self,
    {
        match (self, other) {
            (Operations::Union(a), Operations::Union(b)) => Self::same_all(a, b),
            (Operations::Concat(a), Operations::Concat(b)) => Self::same_all(a, b),
            (Operations::Repeat(a, lo1, hi1), Operations::Repeat(b, lo2, hi2)) => {
                let bounds = *lo1 == *lo2 && match (hi1, hi2) {
                    (Some(x), Some(y)) => *x == *y,
                    (None, None) => true,
                    _ => false,
                };
                bounds && a.same(b)
            },
            (Operations::Letter(a), Operations::Letter(b)) => a.same(b),
            (Operations::Epsilon, Operations::Epsilon) => true,
            (Operations::Empty, Operations::Empty) => true,
            (Operations::Dot, Operations::Dot) => true,
            _ => false,
        }
    }

    /// Whether the two lists hold the same expressions in the same order.
    pub fn same_all(a: &Vec<Operations<V>>, b: &Vec<Operations<V>>) -> (r: bool)
        ensures
            r == (Self::models(a@) == Self::models(b@)),
        decreases a,
    {
        proof {
            lemma_models(a@);
            lemma_models(b@);
        }
        if a.len() != b.len() {
            return false;
        }
        let mut i: usize = 0;
        while i < a.len()
            invariant
                i <= a.len(),
                a.len() == b.len(),
                forall|j: int| 0 <= j < i ==> a[j].model() == b[j].model(),
            decreases a.len() - i,
        {
            if !a[i].same(&b[i]) {
                proof {
                    lemma_models(a@);
                    lemma_models(b@);
                    assert(Self::models(a@)[i as int] != Self::models(b@)[i as int]);
                }
                return false;
            }
            i += 1;
        }
        proof {
            lemma_models(a@);
            lemma_models(b@);
            assert(Self::models(a@) =~= Self::models(b@));
        }
        true
    }

    /// Whether `list` holds `x`.
    pub fn holds(list: &Vec<Operations<V>>, x: &Operations<V>) -> (r: bool)
        ensures
            r == Self::models(list@).contains(x@),
    {
        proof {
            lemma_models(list@);
        }
        let mut i: usize = 0;
        while i < list.len()
            invariant
                i <= list.len(),
                forall|j: int| 0 <= j < i ==> list[j].model() != x@,
            decreases list.len() - i,
        {
            if list[i].same(x) {
                proof {
                    lemma_models(list@);
                    assert(Self::models(list@)[i as int] == x@);
                }
                return true;
            }
            i += 1;
        }
        proof {
            lemma_models(list@);
            if Self::models(list@).contains(x@) {
                let j = choose|j: int|
                    0 <= j < Self::models(list@).len() && Self::models(list@)[j] == x@;
                assert(list[j].model() != x@);
            }
        }
        false
    }
}

/// The children of a union or a concatenation.
pub open spec fn children<V>(t: Tree<V>) -> Seq<Tree<V>> {
    match t {
        Tree::Union(ts) => ts,
        Tree::Concat(ts) => ts,
        _ => Seq::empty(),
    }
}

/// A child of a well-formed union or concatenation is well formed.
pub proof fn lemma_child_wf<V>(t: Tree<V>, alphabet: Set<V>, i: int)
    requires
        t.wf(alphabet),
        0 <= i < children(t).len(),
    ensures
        children(t)[i].wf(alphabet),
{
    match t {
        Tree::Union(ts) => {
            assert(ts[i].wf(alphabet));
        },
        Tree::Concat(ts) => {
            assert(ts[i].wf(alphabet));
        },
        _ => {},
    }
}

/// The children of a well-formed union or concatenation are well formed.
pub proof fn lemma_children_wf<V>(t: Tree<V>, alphabet: Set<V>)
    requires
        t.wf(alphabet),
    ensures
        t matches Tree::Union(ts) ==> forall|i: int|
            0 <= i < ts.len() ==> (#[trigger] ts[i]).wf(alphabet),
        t matches Tree::Concat(ts) ==> forall|i: int|
            0 <= i < ts.len() ==> (#[trigger] ts[i]).wf(alphabet),
        t matches Tree::Repeat(c, lo, hi) ==> c.wf(alphabet) && (hi is Some ==> lo <= hi->0),
        t matches Tree::Letter(a) ==> alphabet.contains(a),
{
}

/// A union is well formed exactly when its children are, and it matches what
/// one of them matches.
pub proof fn lemma_union_unfold<V>(ts: Seq<Tree<V>>, alphabet: Set<V>, w: Seq<V>)
    ensures
        Tree::Union(ts).wf(alphabet) <==> forall|i: int|
            0 <= i < ts.len() ==> (#[trigger] ts[i]).wf(alphabet),
        Tree::Union(ts).matches(alphabet, w) <==> exists|i: int|
            0 <= i < ts.len() && (#[trigger] ts[i]).matches(alphabet, w),
{
    let t = Tree::Union(ts);
    assert(children(t) == ts);
    if t.wf(alphabet) {
        assert forall|i: int| 0 <= i < ts.len() implies (#[trigger] ts[i]).wf(alphabet) by {
            lemma_child_wf(t, alphabet, i);
        }
    }
    match t {
        Tree::Union(cs) => {
            assert(cs == ts);
            if forall|i: int| 0 <= i < ts.len() ==> (#[trigger] ts[i]).wf(alphabet) {
                assert forall|i: int| 0 <= i < cs.len() implies (#[trigger] cs[i]).wf(
                    alphabet,
                ) by {
                    assert(ts[i].wf(alphabet));
                }
                assert(t.wf(alphabet));
            }
            if t.matches(alphabet, w) {
                let i = choose|i: int| 0 <= i < cs.len() && (#[trigger] cs[i]).matches(alphabet, w);
                assert(ts[i].matches(alphabet, w));
            }
            if exists|i: int| 0 <= i < ts.len() && (#[trigger] ts[i]).matches(alphabet, w) {
                let i = choose|i: int| 0 <= i < ts.len() && (#[trigger] ts[i]).matches(alphabet, w);
                assert(cs[i].matches(alphabet, w));
            }
        },
        _ => {},
    }
}

/// A concatenation is well formed exactly when its children are, and it
/// matches what they match one after the other.
pub proof fn lemma_concat_unfold<V>(ts: Seq<Tree<V>>, alphabet: Set<V>, w: Seq<V>)
    ensures
        Tree::Concat(ts).wf(alphabet) <==> forall|i: int|
            0 <= i < ts.len() ==> (#[trigger] ts[i]).wf(alphabet),
        Tree::Concat(ts).matches(alphabet, w) <==> Tree::matches_all(ts, alphabet, w),
        Tree::Concat(ts).matched(alphabet)(w) <==> Tree::matches_all(ts, alphabet, w),
{
    let t = Tree::Concat(ts);
    assert(children(t) == ts);
    if t.wf(alphabet) {
        assert forall|i: int| 0 <= i < ts.len() implies (#[trigger] ts[i]).wf(alphabet) by {
            lemma_child_wf(t, alphabet, i);
        }
    }
    match t {
        Tree::Concat(cs) => {
            assert(cs == ts);
            if forall|i: int| 0 <= i < ts.len() ==> (#[trigger] ts[i]).wf(alphabet) {
                assert forall|i: int| 0 <= i < cs.len() implies (#[trigger] cs[i]).wf(
                    alphabet,
                ) by {
                    assert(ts[i].wf(alphabet));
                }
                assert(t.wf(alphabet));
            }
        },
        _ => {},
    }
}

/// An expression that is well formed over an alphabet is well formed over a
/// larger one.
pub proof fn lemma_wf_grows<V>(t: Tree<V>, small: Set<V>, large: Set<V>)
    requires
        t.wf(small),
        small.subset_of(large),
    ensures
        t.wf(large),
    decreases t,
{
    match t {
        Tree::Union(ts) => {
            assert forall|i: int| 0 <= i < ts.len() implies (#[trigger] ts[i]).wf(large) by {
                lemma_wf_grows(ts[i], small, large);
            }
        },
        Tree::Concat(ts) => {
            assert forall|i: int| 0 <= i < ts.len() implies (#[trigger] ts[i]).wf(large) by {
                lemma_wf_grows(ts[i], small, large);
            }
        },
        Tree::Repeat(c, lo, hi) => {
            lemma_wf_grows(*c, small, large);
        },
        _ => {},
    }
}

} // verus!
