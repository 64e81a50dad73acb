//! Bringing an expression to its reduced form.
use crate::regex::algebra::lemma_models_append;
use crate::regex::plainness::plain_or_empty;
use crate::regex::rules_reduced::reduced;
use crate::regex::rules::{
    all_begin_with, all_empty, any_zero_repeat, concat_rule, factors, gathered, head, is_low_repeat, is_star, is_zero_repeat, lemma_tails_smaller, repeat_rule, repeated, spliced, tail, tails, total, union_rule, without_epsilon,
};
use crate::regex::tree::{children, lemma_models, lemma_models_push, Operations, Tree};
use crate::regex::Regex;
use crate::symbol::Symbol;
use vstd::prelude::*;

verus! {

impl<V: Symbol> Operations<V> {
    /// The children of a concatenation, the children of nested
    /// concatenations taken in their place and the empty words left out.
    pub fn splice(cs: &Vec<Operations<V>>) -> (r: Vec<Operations<V>>)
        ensures
            Self::models(r@) == spliced(Self::models(cs@)),
    {
        let ghost ms = Self::models(cs@);
        let mut r: Vec<Operations<V>> = Vec::new();
        let mut i: usize = 0;
        proof {
            lemma_models(cs@);
            assert(ms.take(0) =~= Seq::<Tree<V>>::empty());
        }
        while i < cs.len()
            invariant
                i <= cs.len(),
                ms == Self::models(cs@),
                ms.len() == cs.len(),
                forall|j: int| 0 <= j < cs.len() ==> (#[trigger] ms[j]) == cs[j].model(),
                Self::models(r@) == spliced(ms.take(i as int)),
            decreases cs.len() - i,
        {
            proof {
                assert(ms.take(i as int + 1).drop_last() =~= ms.take(i as int));
                assert(ms.take(i as int + 1).last() == cs[i as int].model());
            }
            match &cs[i] {
                Operations::Epsilon => {},
                Operations::Concat(inner) => {
                    let mut more = Self::copy_all(inner);
                    proof {
                        lemma_models_append(r@, more@);
                    }
                    r.append(&mut more);
                },
                x => {
                    let c = x.copy();
                    proof {
                        lemma_models_push(r@, c);
                    }
                    r.push(c);
                },
            }
            i += 1;
        }
        proof {
            assert(ms.take(cs.len() as int) =~= ms);
        }
        r
    }

    /// The concatenation of children that are reduced.
    pub fn concat_rule(cs: &Vec<Operations<V>>) -> (r: Operations<V>)
        ensures
            r@ == concat_rule(Self::models(cs@)),
    {
        let mut list = Self::splice(cs);
        proof {
            lemma_models(list@);
        }
        if Self::holds(&list, &Operations::Empty) {
            Operations::Empty
        } else if list.len() == 0 {
            Operations::Epsilon
        } else if list.len() == 1 {
            list[0].copy()
        } else {
            Operations::Concat(list)
        }
    }

    /// The children of a union, each once: the children of nested unions
    /// taken in their place and those that match nothing left out.
    pub fn gather(cs: &Vec<Operations<V>>) -> (r: Vec<Operations<V>>)
        ensures
            Self::models(r@) == gathered(Self::models(cs@)),
    {
        let ghost ms = Self::models(cs@);
        let mut r: Vec<Operations<V>> = Vec::new();
        let mut i: usize = 0;
        proof {
            lemma_models(cs@);
            assert(ms.take(0) =~= Seq::<Tree<V>>::empty());
        }
        while i < cs.len()
            invariant
                i <= cs.len(),
                ms == Self::models(cs@),
                ms.len() == cs.len(),
                forall|j: int| 0 <= j < cs.len() ==> (#[trigger] ms[j]) == cs[j].model(),
                Self::models(r@) == gathered(ms.take(i as int)),
            decreases cs.len() - i,
        {
            proof {
                assert(ms.take(i as int + 1).drop_last() =~= ms.take(i as int));
                assert(ms.take(i as int + 1).last() == cs[i as int].model());
            }
            match &cs[i] {
                Operations::Empty => {},
                Operations::Union(inner) => {
                    Self::insert_all(&mut r, inner);
                },
                x => {
                    Self::insert(&mut r, x.copy());
                },
            }
            i += 1;
        }
        proof {
            assert(ms.take(cs.len() as int) =~= ms);
        }
        r
    }

    /// Whether the expression is a repetition that may be taken no times.
    pub fn is_zero_repeat(&self) -> (r: bool)
        ensures
            r == is_zero_repeat(self@),
    {
        match self {
            Operations::Repeat(_, lo, _) => *lo == 0,
            _ => false,
        }
    }

    /// Whether the expression is the empty word.
    pub fn is_epsilon(&self) -> (r: bool)
        ensures
            r == (self@ is Epsilon),
    {
        match self {
            Operations::Epsilon => true,
            _ => false,
        }
    }

    /// Whether some expression of the list is a repetition that may be taken
    /// no times.
    pub fn any_zero_repeat(list: &Vec<Operations<V>>) -> (r: bool)
        ensures
            r == any_zero_repeat(Self::models(list@)),
    {
        proof {
            lemma_models(list@);
        }
        let mut i: usize = 0;
        while i < list.len()
            invariant
                i <= list.len(),
                Self::models(list@).len() == list.len(),
                forall|j: int|
                    0 <= j < list.len() ==> (#[trigger] Self::models(list@)[j]) == list[j].model(),
                forall|j: int| 0 <= j < i ==> !is_zero_repeat(#[trigger] Self::models(list@)[j]),
            decreases list.len() - i,
        {
            if list[i].is_zero_repeat() {
                proof {
                    assert(is_zero_repeat(Self::models(list@)[i as int]));
                }
                return true;
            }
            i += 1;
        }
        false
    }

    /// The list without the empty word.
    pub fn without_epsilon(list: &Vec<Operations<V>>) -> (r: Vec<Operations<V>>)
        ensures
            Self::models(r@) == without_epsilon(Self::models(list@)),
    {
        let ghost ms = Self::models(list@);
        let mut r: Vec<Operations<V>> = Vec::new();
        let mut i: usize = 0;
        proof {
            lemma_models(list@);
            assert(ms.take(0) =~= Seq::<Tree<V>>::empty());
        }
        while i < list.len()
            invariant
                i <= list.len(),
                ms == Self::models(list@),
                ms.len() == list.len(),
                forall|j: int| 0 <= j < list.len() ==> (#[trigger] ms[j]) == list[j].model(),
                Self::models(r@) == without_epsilon(ms.take(i as int)),
            decreases list.len() - i,
        {
            proof {
                assert(ms.take(i as int + 1).drop_last() =~= ms.take(i as int));
                assert(ms.take(i as int + 1).last() == list[i as int].model());
            }
            if !list[i].is_epsilon() {
                let c = list[i].copy();
                proof {
                    lemma_models_push(r@, c);
                }
                r.push(c);
            }
            i += 1;
        }
        proof {
            assert(ms.take(list.len() as int) =~= ms);
        }
        r
    }

    /// What the expression begins with.
    pub fn head(&self) -> (r: Operations<V>)
        ensures
            r@ == head(self@),
    {
        match self {
            Operations::Concat(v) => {
                proof {
                    lemma_models(v@);
                }
                if v.len() > 0 {
                    v[0].copy()
                } else {
                    self.copy()
                }
            },
            _ => self.copy(),
        }
    }

    /// What follows the head of the expression.
    pub fn tail(&self) -> (r: Operations<V>)
        ensures
            r@ == tail(self@),
    {
        match self {
            Operations::Concat(v) => {
                proof {
                    lemma_models(v@);
                }
                if v.len() > 2 {
                    let mut rest: Vec<Operations<V>> = Vec::new();
                    let mut i: usize = 1;
                    proof {
                        assert(Self::models(v@).subrange(1, 1) =~= Seq::<Tree<V>>::empty());
                    }
                    while i < v.len()
                        invariant
                            1 <= i <= v.len(),
                            Self::models(v@).len() == v.len(),
                            forall|j: int|
                                0 <= j < v.len() ==> (#[trigger] Self::models(v@)[j])
                                    == v[j].model(),
                            Self::models(rest@) == Self::models(v@).subrange(1, i as int),
                        decreases v.len() - i,
                    {
                        let c = v[i].copy();
                        proof {
                            lemma_models_push(rest@, c);
                            assert(Self::models(v@).subrange(1, i as int).push(c@)
                                =~= Self::models(v@).subrange(1, i as int + 1));
                        }
                        rest.push(c);
                        i += 1;
                    }
                    proof {
                        assert(Self::models(v@).subrange(1, v.len() as int) =~= Self::models(
                            v@,
                        ).drop_first());
                    }
                    Operations::Concat(rest)
                } else if v.len() == 2 {
                    v[1].copy()
                } else {
                    Operations::Epsilon
                }
            },
            _ => Operations::Epsilon,
        }
    }

    /// Whether every expression of the list begins with `p`.
    pub fn all_begin_with(list: &Vec<Operations<V>>, p: &Operations<V>) -> (r: bool)
        ensures
            r == all_begin_with(Self::models(list@), p@),
    {
        proof {
            lemma_models(list@);
        }
        let mut i: usize = 0;
        while i < list.len()
            invariant
                i <= list.len(),
                Self::models(list@).len() == list.len(),
                forall|j: int|
                    0 <= j < list.len() ==> (#[trigger] Self::models(list@)[j]) == list[j].model(),
                forall|j: int| 0 <= j < i ==> head(#[trigger] Self::models(list@)[j]) == p@,
            decreases list.len() - i,
        {
            let h = list[i].head();
            if !h.same(p) {
                proof {
                    assert(head(Self::models(list@)[i as int]) != p@);
                }
                return false;
            }
            i += 1;
        }
        true
    }

    /// The tails of the expressions, each once.
    pub fn tails(list: &Vec<Operations<V>>) -> (r: Vec<Operations<V>>)
        ensures
            Self::models(r@) == tails(Self::models(list@)),
    {
        let ghost ms = Self::models(list@);
        let mut r: Vec<Operations<V>> = Vec::new();
        let mut i: usize = 0;
        proof {
            lemma_models(list@);
            assert(ms.take(0) =~= Seq::<Tree<V>>::empty());
        }
        while i < list.len()
            invariant
                i <= list.len(),
                ms == Self::models(list@),
                ms.len() == list.len(),
                forall|j: int| 0 <= j < list.len() ==> (#[trigger] ms[j]) == list[j].model(),
                Self::models(r@) == tails(ms.take(i as int)),
            decreases list.len() - i,
        {
            proof {
                assert(ms.take(i as int + 1).drop_last() =~= ms.take(i as int));
                assert(ms.take(i as int + 1).last() == list[i as int].model());
            }
            Self::insert(&mut r, list[i].tail());
            i += 1;
        }
        proof {
            assert(ms.take(list.len() as int) =~= ms);
        }
        r
    }

    /// The union of children that are reduced.
    pub fn union_rule(cs: &Vec<Operations<V>>) -> (r: Operations<V>)
        ensures
            r@ == union_rule(Self::models(cs@)),
        decreases total(Self::models(cs@)),
    {
        let set = Self::gather(cs);
        proof {
            lemma_models(set@);
        }
        if set.len() == 0 {
            Operations::Epsilon
        } else if set.len() == 1 {
            set[0].copy()
        } else if set.len() == 2 && Self::holds(&set, &Operations::Epsilon) {
            let other = if set[0].is_epsilon() {
                set[1].copy()
            } else {
                set[0].copy()
            };
            Operations::Repeat(Box::new(other), 0, Some(1))
        } else {
            let set2 = if Self::any_zero_repeat(&set) {
                Self::without_epsilon(&set)
            } else {
                set
            };
            proof {
                lemma_models(set2@);
            }
            if set2.len() >= 2 {
                let p = set2[0].head();
                if Self::all_begin_with(&set2, &p) {
                    proof {
                        assert(factors(Self::models(cs@)));
                        lemma_tails_smaller(Self::models(cs@));
                    }
                    let rest = Self::tails(&set2);
                    let u = Self::union_rule(&rest);
                    let mut pair: Vec<Operations<V>> = Vec::new();
                    proof {
                        lemma_models_push(pair@, p);
                        lemma_models_push(pair@.push(p), u);
                        assert(Self::models(pair@.push(p).push(u)) =~= seq![p@, u@]);
                    }
                    pair.push(p);
                    pair.push(u);
                    return Self::concat_rule(&pair);
                }
            }
            Operations::Union(set2)
        }
    }

    /// The repetition of a child that is reduced.
    pub fn repeat_rule(x: Operations<V>, lo: usize, hi: Option<usize>) -> (r: Operations<V>)
        ensures
            r@ == repeat_rule(x@, lo as nat, crate::nfa::repeat::bound(hi)),
    {
        let ghost goal = repeat_rule(x@, lo as nat, crate::nfa::repeat::bound(hi));
        let below = match hi {
            Some(h) => h < lo,
            None => false,
        };
        let once = match hi {
            Some(h) => h == 1,
            None => false,
        };
        let unbounded = match hi {
            Some(_) => false,
            None => true,
        };
        if below {
            return Operations::Epsilon;
        }
        if x.is_epsilon() {
            return Operations::Epsilon;
        }
        if lo == 1 && once {
            return x;
        }
        match x {
            Operations::Empty => {
                if lo == 0 {
                    Operations::Epsilon
                } else {
                    Operations::Empty
                }
            },
            Operations::Repeat(y, ilo, ihi) => {
                let inner_unbounded = match ihi {
                    Some(_) => false,
                    None => true,
                };
                let ghost xm = Tree::Repeat(
                    Box::new(y.model()),
                    ilo as nat,
                    crate::nfa::repeat::bound(ihi),
                );
                proof {
                    assert(x@ == xm);
                    assert(is_star(xm) == (ilo == 0 && inner_unbounded));
                    assert(is_low_repeat(xm) == (ilo <= 1));
                    assert(repeated(xm) == y.model());
                }
                if ilo == 0 && inner_unbounded {
                    let r = Operations::Repeat(y, ilo, ihi);
                    assert(r@ == xm);
                    r
                } else if lo == 0 && unbounded && ilo <= 1 {
                    let r = Operations::Repeat(y, 0, None);
                    assert(r@ == Tree::Repeat(Box::new(repeated(xm)), 0, None));
                    r
                } else {
                    let inner = Operations::Repeat(y, ilo, ihi);
                    assert(inner@ == xm);
                    let r = Operations::Repeat(Box::new(inner), lo, hi);
                    assert(r@ == Tree::Repeat(
                        Box::new(xm),
                        lo as nat,
                        crate::nfa::repeat::bound(hi),
                    ));
                    r
                }
            },
            Operations::Union(u) => {
                let ghost xm = Tree::Union(Self::models(u@));
                proof {
                    assert(x@ == xm);
                    assert(children(xm) == Self::models(u@));
                }
                if lo == 0 {
                    let mut u1 = Self::without_epsilon(&u);
                    proof {
                        lemma_models(u1@);
                    }
                    if once {
                        if !Self::any_zero_repeat(&u1) {
                            proof {
                                lemma_models_push(u1@, Operations::Epsilon);
                            }
                            u1.push(Operations::Epsilon);
                        }
                        Self::union_rule(&u1)
                    } else if u1.len() == 0 {
                        Operations::Epsilon
                    } else if u1.len() == 1 {
                        let r = Operations::Repeat(Box::new(u1[0].copy()), 0, hi);
                        assert(r@ == Tree::Repeat(
                            Box::new(Self::models(u1@)[0]),
                            0,
                            crate::nfa::repeat::bound(hi),
                        ));
                        r
                    } else {
                        let ghost u1m = Self::models(u1@);
                        let inner = Operations::Union(u1);
                        assert(inner@ == Tree::Union(u1m));
                        let r = Operations::Repeat(Box::new(inner), 0, hi);
                        assert(r@ == Tree::Repeat(
                            Box::new(Tree::Union(u1m)),
                            0,
                            crate::nfa::repeat::bound(hi),
                        ));
                        r
                    }
                } else {
                    let inner = Operations::Union(u);
                    assert(inner@ == xm);
                    let r = Operations::Repeat(Box::new(inner), lo, hi);
                    assert(r@ == Tree::Repeat(
                        Box::new(xm),
                        lo as nat,
                        crate::nfa::repeat::bound(hi),
                    ));
                    r
                }
            },
            other => {
                let ghost xm = other@;
                let r = Operations::Repeat(Box::new(other), lo, hi);
                assert(r@ == Tree::Repeat(Box::new(xm), lo as nat, crate::nfa::repeat::bound(hi)));
                r
            },
        }
    }

    /// Whether every expression of the list matches nothing by its shape.
    pub fn all_empty(list: &Vec<Operations<V>>) -> (r: bool)
        ensures
            r == all_empty(Self::models(list@)),
    {
        proof {
            lemma_models(list@);
        }
        let mut i: usize = 0;
        while i < list.len()
            invariant
                i <= list.len(),
                Self::models(list@).len() == list.len(),
                forall|j: int|
                    0 <= j < list.len() ==> (#[trigger] Self::models(list@)[j]) == list[j].model(),
                forall|j: int| 0 <= j < i ==> (#[trigger] Self::models(list@)[j]) is Empty,
            decreases list.len() - i,
        {
            match &list[i] {
                Operations::Empty => {},
                _ => {
                    proof {
                        assert(!(Self::models(list@)[i as int] is Empty));
                    }
                    return false;
                },
            }
            i += 1;
        }
        true
    }

    /// The reduced form of the expression. The alphabet plays no part in it.
    pub fn simplify(&self, alphabet: &Vec<V>) -> (r: Operations<V>)
        ensures
            r@ == self@.simplified(),
        decreases self,
    {
        match self {
            Operations::Union(v) => {
                if Self::all_empty(v) {
                    Operations::Empty
                } else {
                    let cs = Self::simplify_all(v, alphabet);
                    Self::union_rule(&cs)
                }
            },
            Operations::Concat(v) => {
                let cs = Self::simplify_all(v, alphabet);
                Self::concat_rule(&cs)
            },
            Operations::Repeat(c, lo, hi) => {
                let x = c.simplify(alphabet);
                Self::repeat_rule(x, *lo, *hi)
            },
            x => x.copy(),
        }
    }

    /// The reduced forms of the expressions.
    pub fn simplify_all(v: &Vec<Operations<V>>, alphabet: &Vec<V>) -> (r: Vec<Operations<V>>)
        ensures
            Self::models(r@) == Tree::simplified_all(Self::models(v@)),
        decreases v,
    {
        let ghost ms = Self::models(v@);
        let mut r: Vec<Operations<V>> = Vec::new();
        let mut i: usize = 0;
        proof {
            lemma_models(v@);
            assert(ms.take(0) =~= Seq::<Tree<V>>::empty());
        }
        while i < v.len()
            invariant
                i <= v.len(),
                ms == Self::models(v@),
                ms.len() == v.len(),
                forall|j: int| 0 <= j < v.len() ==> (#[trigger] ms[j]) == v[j].model(),
                Self::models(r@) == Tree::simplified_all(ms.take(i as int)),
            decreases v.len() - i,
        {
            let c = v[i].simplify(alphabet);
            proof {
                assert(ms.take(i as int + 1).drop_last() =~= ms.take(i as int));
                assert(ms.take(i as int + 1).last() == v[i as int].model());
                lemma_models_push(r@, c);
            }
            r.push(c);
            i += 1;
        }
        proof {
            assert(ms.take(v.len() as int) =~= ms);
        }
        r
    }
}

impl<V: Symbol> Regex<V> {
    /// The expression in its reduced form, over the same alphabet: every
    /// union in it has two or more children, no two of them the same, and
    /// every concatenation has two or more children. The reduced form of an
    /// expression that is plain, or the leaf that matches nothing, matches
    /// the same words.
    pub fn simplify(self) -> (r: Regex<V>)
        ensures
            r@.alphabet == self@.alphabet,
            r@.tree == self@.tree.simplified(),
            reduced(r@.tree),
            self.wf() ==> r.wf(),
            crate::regex::rules_language::plain(self@.tree) ==> crate::regex::rules_language::plain(
                r@.tree,
            ),
            plain_or_empty(self@.tree) ==> plain_or_empty(r@.tree) && forall|w: Seq<V>|
                r@.matches(w) <==> self@.matches(w),
    {
        proof {
            self@.tree.lemma_simplified_reduced();
            if self.wf() {
                crate::regex::rules_wf::lemma_simplified_wf(self@.tree, self@.alphabet);
            }
            if self@.tree is Empty {
                assert(self@.tree.simplified() == self@.tree);
            }
            if crate::regex::rules_language::plain(self@.tree) {
                assert forall|w: Seq<V>|
                    self@.tree.simplified().matches(self@.alphabet, w) <==> self@.matches(w) by {
                    crate::regex::rules_language::lemma_simplified_language(
                        self@.tree,
                        self@.alphabet,
                        w,
                    );
                }
                crate::regex::rules_language::lemma_simplified_language(
                    self@.tree,
                    self@.alphabet,
                    Seq::empty(),
                );
            }
        }
        let Regex { alphabet, regex } = self;
        let reduced = regex.simplify(&alphabet);
        Regex { alphabet, regex: reduced }
    }
}

} // verus!
