//! From an expression to an automaton that accepts what it matches.
use crate::language::word_over;
use crate::laws::concat::{lemma_concatenate_language, lemma_concatenate_wf};
use crate::laws::repeat::lemma_repeat_language;
use crate::laws::unite::{lemma_unite_language, lemma_unite_wf};
use crate::model::{
    lemma_empty_language, lemma_length_language, lemma_matching_language, NfaModel,
};
use crate::nfa::NFA;
use crate::regex::tree::{
    lemma_child_wf, lemma_children_wf, lemma_models, Operations, Tree,
};
use crate::sets::copy_symbols;
use crate::symbol::Symbol;
use vstd::prelude::*;

verus! {

impl<V> Tree<V> {
    /// The automaton of the expression over `alphabet`: built from the
    /// automata of the children by union, concatenation and repetition.
    pub open spec fn to_nfa(self, alphabet: Set<V>) -> NfaModel<V>
        decreases self, 0nat,
    {
        match self {
            Tree::Union(ts) => Self::unite_all(ts, alphabet),
            Tree::Concat(ts) => Self::concatenate_all(ts, alphabet),
            Tree::Repeat(t, lo, hi) => t.to_nfa(alphabet).repeat(lo, hi),
            Tree::Letter(a) => NfaModel::matching(alphabet, seq![a]),
            Tree::Epsilon => NfaModel::length(alphabet, 0),
            Tree::Empty => NfaModel::empty(alphabet),
            Tree::Dot => NfaModel::length(alphabet, 1),
        }
    }

    /// The union of the automata of `ts`, from the automaton without states
    /// on.
    pub open spec fn unite_all(ts: Seq<Tree<V>>, alphabet: Set<V>) -> NfaModel<V>
        decreases ts, 1nat,
    {
        if ts.len() == 0 {
            NfaModel::empty(alphabet)
        } else {
            Self::unite_all(ts.drop_last(), alphabet).unite(ts.last().to_nfa(alphabet))
        }
    }

    /// The concatenation of the automata of `ts`, from the automaton of the
    /// empty word on.
    pub open spec fn concatenate_all(ts: Seq<Tree<V>>, alphabet: Set<V>) -> NfaModel<V>
        decreases ts, 1nat,
    {
        if ts.len() == 0 {
            NfaModel::length(alphabet, 0)
        } else {
            Self::concatenate_all(ts.drop_last(), alphabet).concatenate(ts.last().to_nfa(alphabet))
        }
    }
}

/// The automaton of a well-formed expression is well formed, has the
/// alphabet it was built over, and accepts the words that the expression
/// matches.
pub proof fn lemma_to_nfa_language<V>(t: Tree<V>, alphabet: Set<V>, w: Seq<V>)
    requires
        t.wf(alphabet),
    ensures
        t.to_nfa(alphabet).wf(),
        t.to_nfa(alphabet).alphabet == alphabet,
        t.to_nfa(alphabet).accepts(w) <==> t.matches(alphabet, w),
    decreases t, 0nat,
{
    lemma_children_wf(t, alphabet);
    match t {
        Tree::Union(ts) => {
            lemma_unite_all_language(ts, alphabet, w);
            assert(t.to_nfa(alphabet) == Tree::unite_all(ts, alphabet));
        },
        Tree::Concat(ts) => {
            lemma_concatenate_all_language(ts, alphabet, w);
            assert(t.to_nfa(alphabet) == Tree::concatenate_all(ts, alphabet));
        },
        Tree::Repeat(c, lo, hi) => {
            lemma_to_nfa_language(*c, alphabet, w);
            let m = c.to_nfa(alphabet);
            lemma_repeat_language(m, lo, hi, w);
            assert forall|x: Seq<V>| #[trigger] m.language()(x) == c.matches(alphabet, x) by {
                lemma_to_nfa_language(*c, alphabet, x);
            }
            assert(m.language() =~= c.matched(alphabet));
        },
        Tree::Letter(a) => {
            lemma_matching_language(alphabet, seq![a], w);
            let m = NfaModel::matching(alphabet, seq![a]);
            assert forall|q: int, x: V, s: int| #[trigger] m.edges.contains((q, x, s)) implies 0
                <= q < m.size && 0 <= s < m.size && m.alphabet.contains(x) by {
                assert(x == seq![a][q]);
            }
        },
        Tree::Epsilon => {
            lemma_length_language(alphabet, 0, w);
            assert(w.len() == 0 ==> word_over(alphabet, w));
        },
        Tree::Empty => {
            lemma_empty_language(alphabet, w);
        },
        Tree::Dot => {
            lemma_length_language(alphabet, 1, w);
            if w.len() == 1 {
                if alphabet.contains(w[0]) {
                    assert(word_over(alphabet, w));
                }
                if word_over(alphabet, w) {
                    assert(alphabet.contains(w[0]));
                }
            }
        },
    }
}

/// The union of the automata of well-formed expressions accepts the words
/// that one of them matches.
pub proof fn lemma_unite_all_language<V>(ts: Seq<Tree<V>>, alphabet: Set<V>, w: Seq<V>)
    requires
        forall|i: int| 0 <= i < ts.len() ==> (#[trigger] ts[i]).wf(alphabet),
    ensures
        Tree::unite_all(ts, alphabet).wf(),
        Tree::unite_all(ts, alphabet).alphabet == alphabet,
        Tree::unite_all(ts, alphabet).accepts(w) <==> exists|i: int|
            0 <= i < ts.len() && (#[trigger] ts[i]).matches(alphabet, w),
    decreases ts, 1nat,
{
    if ts.len() == 0 {
        lemma_empty_language(alphabet, w);
    } else {
        let front = ts.drop_last();
        let last = ts.last();
        assert forall|i: int| 0 <= i < front.len() implies (#[trigger] front[i]).wf(alphabet) by {
            assert(front[i] == ts[i]);
        }
        lemma_unite_all_language(front, alphabet, w);
        lemma_to_nfa_language(last, alphabet, w);
        let a = Tree::unite_all(front, alphabet);
        let b = last.to_nfa(alphabet);
        lemma_unite_wf(a, b);
        lemma_unite_language(a, b, w);
        assert(alphabet.union(alphabet) =~= alphabet);
        if a.accepts(w) {
            let i = choose|i: int| 0 <= i < front.len() && (#[trigger] front[i]).matches(alphabet, w);
            assert(ts[i].matches(alphabet, w));
        }
        if b.accepts(w) {
            assert(ts[ts.len() - 1].matches(alphabet, w));
        }
        if exists|i: int| 0 <= i < ts.len() && (#[trigger] ts[i]).matches(alphabet, w) {
            let i = choose|i: int| 0 <= i < ts.len() && (#[trigger] ts[i]).matches(alphabet, w);
            if i < front.len() {
                assert(front[i].matches(alphabet, w));
            }
        }
    }
}

/// The concatenation of the automata of well-formed expressions accepts the
/// words that they match one after the other.
pub proof fn lemma_concatenate_all_language<V>(ts: Seq<Tree<V>>, alphabet: Set<V>, w: Seq<V>)
    requires
        forall|i: int| 0 <= i < ts.len() ==> (#[trigger] ts[i]).wf(alphabet),
    ensures
        Tree::concatenate_all(ts, alphabet).wf(),
        Tree::concatenate_all(ts, alphabet).alphabet == alphabet,
        Tree::concatenate_all(ts, alphabet).accepts(w) <==> Tree::matches_all(ts, alphabet, w),
    decreases ts, 1nat,
{
    if ts.len() == 0 {
        lemma_length_language(alphabet, 0, w);
    } else {
        let front = ts.drop_last();
        let last = ts.last();
        assert forall|i: int| 0 <= i < front.len() implies (#[trigger] front[i]).wf(alphabet) by {
            assert(front[i] == ts[i]);
        }
        lemma_concatenate_all_language(front, alphabet, w);
        lemma_to_nfa_language(last, alphabet, w);
        let a = Tree::concatenate_all(front, alphabet);
        let b = last.to_nfa(alphabet);
        lemma_concatenate_wf(a, b);
        lemma_concatenate_language(a, b, w);
        assert(alphabet.union(alphabet) =~= alphabet);
        if a.concatenate(b).accepts(w) {
            let k = choose|k: int|
                0 <= k <= w.len() && a.language()(#[trigger] w.take(k)) && b.language()(w.skip(k));
            lemma_concatenate_all_language(front, alphabet, w.take(k));
            lemma_to_nfa_language(last, alphabet, w.skip(k));
        }
        if Tree::matches_all(ts, alphabet, w) {
            let k = choose|k: int|
                0 <= k <= w.len() && Tree::matches_all(front, alphabet, #[trigger] w.take(k))
                    && last.matches(alphabet, w.skip(k));
            lemma_concatenate_all_language(front, alphabet, w.take(k));
            lemma_to_nfa_language(last, alphabet, w.skip(k));
            assert(a.language()(w.take(k)) && b.language()(w.skip(k)));
        }
    }
}

impl<V: Symbol> Operations<V> {
    /// The automaton of the expression over `alphabet`. It accepts the words
    /// that the expression matches.
    pub fn to_nfa(&self, alphabet: &Vec<V>) -> (r: NFA<V>)
        requires
            self@.wf(alphabet@.to_set()),
        ensures
            r.wf(),
            r@ == self@.to_nfa(alphabet@.to_set()),
            forall|w: Seq<V>| r@.accepts(w) <==> self@.matches(alphabet@.to_set(), w),
        decreases self,
    {
        let ghost sigma = alphabet@.to_set();
        proof {
            assert forall|w: Seq<V>|
                self@.to_nfa(sigma).accepts(w) <==> self@.matches(sigma, w) by {
                lemma_to_nfa_language(self@, sigma, w);
            }
        }
        match self {
            Operations::Union(v) => {
                proof {
                    lemma_models(v@);
                    assert(self.model() == Tree::Union(Self::models(v@)));
                    assert forall|i: int| 0 <= i < v.len() implies (#[trigger] Self::models(
                        v@,
                    )[i]).wf(sigma) by {
                        lemma_child_wf(self.model(), sigma, i);
                    }
                }
                Self::unite_all(v, alphabet)
            },
            Operations::Concat(v) => {
                proof {
                    lemma_models(v@);
                    assert(self.model() == Tree::Concat(Self::models(v@)));
                    assert forall|i: int| 0 <= i < v.len() implies (#[trigger] Self::models(
                        v@,
                    )[i]).wf(sigma) by {
                        lemma_child_wf(self.model(), sigma, i);
                    }
                }
                Self::concatenate_all(v, alphabet)
            },
            Operations::Repeat(t, lo, hi) => {
                proof {
                    lemma_children_wf(self@, sigma);
                }
                let inner = t.to_nfa(alphabet);
                inner.repeat(*lo, *hi)
            },
            Operations::Letter(a) => {
                proof {
                    lemma_children_wf(self@, sigma);
                }
                let mut word: Vec<V> = Vec::new();
                word.push(*a);
                proof {
                    assert(word@ =~= seq![*a]);
                }
                NFA::new_matching(copy_symbols(alphabet), word.as_slice())
            },
            Operations::Epsilon => NFA::new_length(copy_symbols(alphabet), 0),
            Operations::Empty => NFA::new_empty(copy_symbols(alphabet)),
            Operations::Dot => NFA::new_length(copy_symbols(alphabet), 1),
        }
    }

    /// The union of the automata of the expressions.
    pub fn unite_all(v: &Vec<Operations<V>>, alphabet: &Vec<V>) -> (r: NFA<V>)
        requires
            forall|i: int|
                0 <= i < v.len() ==> (#[trigger] Self::models(v@)[i]).wf(alphabet@.to_set()),
        ensures
            r.wf(),
            r@ == Tree::unite_all(Self::models(v@), alphabet@.to_set()),
        decreases v,
    {
        let ghost sigma = alphabet@.to_set();
        let ghost ts = Self::models(v@);
        let mut acc = NFA::new_empty(copy_symbols(alphabet));
        let mut i: usize = 0;
        proof {
            lemma_models(v@);
            assert(ts.take(0) =~= Seq::<Tree<V>>::empty());
        }
        while i < v.len()
            invariant
                i <= v.len(),
                sigma == alphabet@.to_set(),
                ts == Self::models(v@),
                ts.len() == v.len(),
                forall|j: int| 0 <= j < v.len() ==> (#[trigger] ts[j]).wf(sigma),
                forall|j: int| 0 <= j < v.len() ==> (#[trigger] ts[j]) == v[j].model(),
                acc.wf(),
                acc@ == Tree::unite_all(ts.take(i as int), sigma),
            decreases v.len() - i,
        {
            proof {
                assert(ts[i as int].wf(sigma));
                assert(ts.take(i as int + 1).drop_last() =~= ts.take(i as int));
            }
            let next = v[i].to_nfa(alphabet);
            acc = acc.unite(next);
            i += 1;
        }
        proof {
            assert(ts.take(v.len() as int) =~= ts);
        }
        acc
    }

    /// The concatenation of the automata of the expressions.
    pub fn concatenate_all(v: &Vec<Operations<V>>, alphabet: &Vec<V>) -> (r: NFA<V>)
        requires
            forall|i: int|
                0 <= i < v.len() ==> (#[trigger] Self::models(v@)[i]).wf(alphabet@.to_set()),
        ensures
            r.wf(),
            r@ == Tree::concatenate_all(Self::models(v@), alphabet@.to_set()),
        decreases v,
    {
        let ghost sigma = alphabet@.to_set();
        let ghost ts = Self::models(v@);
        let mut acc = NFA::new_length(copy_symbols(alphabet), 0);
        let mut i: usize = 0;
        proof {
            lemma_models(v@);
            assert(ts.take(0) =~= Seq::<Tree<V>>::empty());
        }
        while i < v.len()
            invariant
                i <= v.len(),
                sigma == alphabet@.to_set(),
                ts == Self::models(v@),
                ts.len() == v.len(),
                forall|j: int| 0 <= j < v.len() ==> (#[trigger] ts[j]).wf(sigma),
                forall|j: int| 0 <= j < v.len() ==> (#[trigger] ts[j]) == v[j].model(),
                acc.wf(),
                acc@ == Tree::concatenate_all(ts.take(i as int), sigma),
            decreases v.len() - i,
        {
            proof {
                assert(ts[i as int].wf(sigma));
                assert(ts.take(i as int + 1).drop_last() =~= ts.take(i as int));
            }
            let next = v[i].to_nfa(alphabet);
            acc = acc.concatenate(next);
            i += 1;
        }
        proof {
            assert(ts.take(v.len() as int) =~= ts);
        }
        acc
    }
}

} // verus!
