//! What the representations have in common, as traits: each stands for a
//! nondeterministic automaton, can be turned into each of the three, and can
//! be built from and examined.
use crate::dfa::DFA;
use crate::language::{in_concat, in_repeat, in_star};
use crate::laws::order::is_complement;
use crate::model::NfaModel;
use crate::nfa::repeat::bound;
use crate::nfa::NFA;
use crate::regex::to_nfa::lemma_to_nfa_language;
use crate::regex::Regex;
use crate::symbol::Symbol;
use vstd::prelude::*;

verus! {

/// A representation of a regular language.
pub trait Regular<V: Symbol>: Sized {
    /// The invariant of the representation.
    spec fn valid(&self) -> bool;

    /// The nondeterministic automaton that the representation stands for.
    spec fn as_nfa(&self) -> NfaModel<V>;
}

/// A representation that can be turned into a nondeterministic automaton.
pub trait ToNfa<V: Symbol>: Regular<V> {
    /// The nondeterministic automaton that `self` stands for.
    fn to_nfa(&self) -> (r: NFA<V>)
        requires
            self.valid(),
        ensures
            r.wf(),
            r@ == self.as_nfa(),
    ;
}

/// A representation that can be turned into a deterministic automaton.
pub trait ToDfa<V: Symbol>: Regular<V> {
    /// A deterministic automaton for the language of `self`.
    fn to_dfa(&self) -> (r: DFA<V>)
        requires
            self.valid(),
        ensures
            r.wf(),
            r@.alphabet == self.as_nfa().alphabet,
            forall|w: Seq<V>| r@.accepts(w) <==> self.as_nfa().accepts(w),
    ;
}

/// A representation that can be turned into a regular expression.
pub trait ToRegex<V: Symbol>: Regular<V> {
    /// A regular expression for the language of `self`.
    fn to_regex(&self) -> (r: Regex<V>)
        requires
            self.valid(),
        ensures
            r.wf(),
            r@.alphabet == self.as_nfa().alphabet,
            forall|w: Seq<V>| r@.matches(w) <==> self.as_nfa().accepts(w),
    ;
}

/// The operations that build languages from languages.
pub trait Buildable<V: Symbol>: Regular<V> {
    /// What `self` or `other` holds, where the two have one alphabet.
    fn unite(self, other: Self) -> (r: Self)
        requires
            self.valid(),
            other.valid(),
        ensures
            r.valid(),
            r.as_nfa().alphabet == self.as_nfa().alphabet.union(other.as_nfa().alphabet),
            self.as_nfa().alphabet == other.as_nfa().alphabet ==> forall|w: Seq<V>|
                r.as_nfa().accepts(w) <==> (self.as_nfa().accepts(w) || other.as_nfa().accepts(w)),
    ;

    /// A word of `self` followed by a word of `other`, where the two have one
    /// alphabet.
    fn concatenate(self, other: Self) -> (r: Self)
        requires
            self.valid(),
            other.valid(),
        ensures
            r.valid(),
            r.as_nfa().alphabet == self.as_nfa().alphabet.union(other.as_nfa().alphabet),
            self.as_nfa().alphabet == other.as_nfa().alphabet ==> forall|w: Seq<V>|
                r.as_nfa().accepts(w) <==> in_concat(
                    self.as_nfa().language(),
                    other.as_nfa().language(),
                    w,
                ),
    ;

    /// Any number of words of `self` in a row.
    fn kleene(self) -> (r: Self)
        requires
            self.valid(),
        ensures
            r.valid(),
            r.as_nfa().alphabet == self.as_nfa().alphabet,
            forall|w: Seq<V>| r.as_nfa().accepts(w) <==> in_star(self.as_nfa().language(), w),
    ;

    /// At most `num` words of `self` in a row.
    fn at_most(self, num: usize) -> (r: Self)
        requires
            self.valid(),
        ensures
            r.valid(),
            r.as_nfa().alphabet == self.as_nfa().alphabet,
            forall|w: Seq<V>|
                r.as_nfa().accepts(w) <==> in_repeat(
                    self.as_nfa().language(),
                    0,
                    Some(num as nat),
                    w,
                ),
    ;

    /// At least `num` words of `self` in a row.
    fn at_least(self, num: usize) -> (r: Self)
        requires
            self.valid(),
        ensures
            r.valid(),
            r.as_nfa().alphabet == self.as_nfa().alphabet,
            forall|w: Seq<V>|
                r.as_nfa().accepts(w) <==> in_repeat(
                    self.as_nfa().language(),
                    num as nat,
                    None,
                    w,
                ),
    ;

    /// Between `lo` and `hi` words of `self` in a row; without `hi`, `lo` or
    /// more.
    fn repeat(self, lo: usize, hi: Option<usize>) -> (r: Self)
        requires
            self.valid(),
        ensures
            r.valid(),
            r.as_nfa().alphabet == self.as_nfa().alphabet,
            forall|w: Seq<V>|
                r.as_nfa().accepts(w) <==> in_repeat(
                    self.as_nfa().language(),
                    lo as nat,
                    bound(hi),
                    w,
                ),
    ;
}

/// The operations on automata: reading a word, the predicates on the shape
/// and the language, and the transformations.
pub trait Automata<V: Symbol>: Regular<V> {
    /// `self` is how this kind of automaton holds the automaton `n`: `n`
    /// itself for a nondeterministic automaton, and what making `n`
    /// deterministic gives for a deterministic one.
    spec fn given_by(&self, n: NfaModel<V>) -> bool;

    /// Whether the automaton accepts `word`.
    fn run(&self, word: &[V]) -> (r: bool)
        requires
            self.valid(),
        ensures
            r == self.as_nfa().accepts(word@),
    ;

    /// Whether there is an initial state and every state has a successor on
    /// every symbol.
    fn is_complete(&self) -> (r: bool)
        requires
            self.valid(),
        ensures
            r == self.as_nfa().is_complete(),
    ;

    /// Whether every state is reached from an initial state.
    fn is_reachable(&self) -> (r: bool)
        requires
            self.valid(),
        ensures
            r == self.as_nfa().is_reachable(),
    ;

    /// Whether a final state is reached from every state.
    fn is_coreachable(&self) -> (r: bool)
        requires
            self.valid(),
        ensures
            r == self.as_nfa().is_coreachable(),
    ;

    /// Whether every state is on a walk from an initial to a final state.
    fn is_trimmed(&self) -> (r: bool)
        requires
            self.valid(),
        ensures
            r == self.as_nfa().is_trimmed(),
    ;

    /// Whether the automaton accepts no word.
    fn is_empty(&self) -> (r: bool)
        requires
            self.valid(),
        ensures
            r == self.as_nfa().is_empty(),
    ;

    /// Whether an initial state is final and every state reached from an
    /// initial state is final.
    fn is_full(&self) -> (r: bool)
        requires
            self.valid(),
        ensures
            r == self.as_nfa().is_full(),
    ;

    /// The automaton made complete.
    fn complete(self) -> (r: Self)
        requires
            self.valid(),
        ensures
            r.valid(),
            r.as_nfa() == self.as_nfa().complete(),
            forall|w: Seq<V>| r.as_nfa().accepts(w) <==> self.as_nfa().accepts(w),
    ;

    /// The automaton without the states that no walk from an initial state
    /// ends in, the states that are left renumbered in their order. It
    /// accepts the same words.
    fn make_reachable(self) -> (r: Self)
        requires
            self.valid(),
        ensures
            r.valid(),
            r.given_by(self.as_nfa().make_reachable()),
            r.as_nfa().alphabet == self.as_nfa().alphabet,
            forall|w: Seq<V>| r.as_nfa().accepts(w) <==> self.as_nfa().accepts(w),
    ;

    /// The automaton without the states from which no walk ends in a final
    /// state, the states that are left renumbered in their order. It accepts
    /// the same words.
    fn make_coreachable(self) -> (r: Self)
        requires
            self.valid(),
        ensures
            r.valid(),
            r.given_by(self.as_nfa().make_coreachable()),
            r.as_nfa().alphabet == self.as_nfa().alphabet,
            forall|w: Seq<V>| r.as_nfa().accepts(w) <==> self.as_nfa().accepts(w),
    ;

    /// The automaton without the states that are not on a walk from an
    /// initial to a final state: first those that are not reached are left
    /// out, then those that lead to no final state. It accepts the same
    /// words.
    fn trim(self) -> (r: Self)
        requires
            self.valid(),
        ensures
            r.valid(),
            r.given_by(self.as_nfa().trim()),
            r.as_nfa().alphabet == self.as_nfa().alphabet,
            forall|w: Seq<V>| r.as_nfa().accepts(w) <==> self.as_nfa().accepts(w),
    ;

    /// An automaton for the words over the alphabet that `self` does not
    /// accept.
    fn negate(self) -> (r: Self)
        requires
            self.valid(),
        ensures
            r.valid(),
            is_complement(self.as_nfa(), r.as_nfa()),
    ;

    /// An automaton for the words of `self` read backwards.
    fn reverse(self) -> (r: Self)
        requires
            self.valid(),
        ensures
            r.valid(),
            r.as_nfa().alphabet == self.as_nfa().alphabet,
            forall|w: Seq<V>| r.as_nfa().accepts(w) <==> self.as_nfa().accepts(w.reverse()),
    ;
}

impl<V: Symbol> Regular<V> for NFA<V> {
    open spec fn valid(&self) -> bool {
        self.wf()
    }

    open spec fn as_nfa(&self) -> NfaModel<V> {
        self@
    }
}

impl<V: Symbol> Regular<V> for DFA<V> {
    open spec fn valid(&self) -> bool {
        self.wf()
    }

    open spec fn as_nfa(&self) -> NfaModel<V> {
        self@.to_nfa()
    }
}

impl<V: Symbol> Regular<V> for Regex<V> {
    open spec fn valid(&self) -> bool {
        self.wf()
    }

    open spec fn as_nfa(&self) -> NfaModel<V> {
        self@.to_nfa()
    }
}

impl<V: Symbol> ToNfa<V> for NFA<V> {
    fn to_nfa(&self) -> (r: NFA<V>) {
        self.copy()
    }
}

impl<V: Symbol> ToNfa<V> for DFA<V> {
    fn to_nfa(&self) -> (r: NFA<V>) {
        DFA::to_nfa(self)
    }
}

impl<V: Symbol> ToNfa<V> for Regex<V> {
    fn to_nfa(&self) -> (r: NFA<V>) {
        Regex::to_nfa(self)
    }
}

impl<V: Symbol> ToDfa<V> for NFA<V> {
    fn to_dfa(&self) -> (r: DFA<V>) {
        NFA::to_dfa(self)
    }
}

impl<V: Symbol> ToDfa<V> for DFA<V> {
    fn to_dfa(&self) -> (r: DFA<V>) {
        self.copy()
    }
}

impl<V: Symbol> ToDfa<V> for Regex<V> {
    fn to_dfa(&self) -> (r: DFA<V>) {
        Regex::to_nfa(self).to_dfa()
    }
}

impl<V: Symbol> ToRegex<V> for NFA<V> {
    fn to_regex(&self) -> (r: Regex<V>) {
        NFA::to_regex(self)
    }
}

impl<V: Symbol> ToRegex<V> for DFA<V> {
    fn to_regex(&self) -> (r: Regex<V>) {
        DFA::to_regex(self)
    }
}

impl<V: Symbol> ToRegex<V> for Regex<V> {
    fn to_regex(&self) -> (r: Regex<V>) {
        proof {
            lemma_regex_as_nfa(self);
        }
        Regex::to_regex(self)
    }
}

impl<V: Symbol> Buildable<V> for NFA<V> {
    fn unite(self, other: Self) -> (r: Self) {
        NFA::unite(self, other)
    }

    fn concatenate(self, other: Self) -> (r: Self) {
        NFA::concatenate(self, other)
    }

    fn kleene(self) -> (r: Self) {
        NFA::kleene(self)
    }

    fn at_most(self, num: usize) -> (r: Self) {
        proof {
            self.lemma_model_wf();
            crate::laws::repeat::lemma_at_most_language(self@, num as nat, Seq::empty());
        }
        NFA::at_most(self, num)
    }

    fn at_least(self, num: usize) -> (r: Self) {
        proof {
            self.lemma_model_wf();
            crate::laws::repeat::lemma_at_least_language(self@, num as nat, Seq::empty());
        }
        NFA::at_least(self, num)
    }

    fn repeat(self, lo: usize, hi: Option<usize>) -> (r: Self) {
        proof {
            self.lemma_model_wf();
            crate::laws::repeat::lemma_repeat_language(self@, lo as nat, bound(hi), Seq::empty());
        }
        NFA::repeat(self, lo, hi)
    }
}

impl<V: Symbol> Buildable<V> for DFA<V> {
    fn unite(self, other: Self) -> (r: Self) {
        let ghost a = self@;
        let ghost b = other@;
        let r = DFA::unite(self, other);
        proof {
            assert forall|w: Seq<V>|
                r@.to_nfa().accepts(w) <==> (a.to_nfa().accepts(w) || b.to_nfa().accepts(w)) by {
                assert(r@.accepts(w) <==> (a.accepts(w) || b.accepts(w)));
            }
        }
        r
    }

    fn concatenate(self, other: Self) -> (r: Self) {
        let ghost a = self@;
        let ghost b = other@;
        let r = DFA::concatenate(self, other);
        proof {
            assert forall|w: Seq<V>|
                r@.to_nfa().accepts(w) <==> in_concat(
                    a.to_nfa().language(),
                    b.to_nfa().language(),
                    w,
                ) by {
                assert(r@.accepts(w) <==> in_concat(
                    a.to_nfa().language(),
                    b.to_nfa().language(),
                    w,
                ));
            }
        }
        r
    }

    fn kleene(self) -> (r: Self) {
        let ghost a = self@;
        let r = DFA::kleene(self);
        proof {
            assert forall|w: Seq<V>|
                r@.to_nfa().accepts(w) <==> in_star(a.to_nfa().language(), w) by {
                assert(r@.accepts(w) <==> in_star(a.to_nfa().language(), w));
            }
        }
        r
    }

    fn at_most(self, num: usize) -> (r: Self) {
        let ghost a = self@;
        let r = DFA::at_most(self, num);
        proof {
            assert forall|w: Seq<V>|
                r@.to_nfa().accepts(w) <==> in_repeat(
                    a.to_nfa().language(),
                    0,
                    Some(num as nat),
                    w,
                ) by {
                assert(r@.accepts(w) <==> in_repeat(
                    a.to_nfa().language(),
                    0,
                    Some(num as nat),
                    w,
                ));
            }
        }
        r
    }

    fn at_least(self, num: usize) -> (r: Self) {
        let ghost a = self@;
        let r = DFA::at_least(self, num);
        proof {
            assert forall|w: Seq<V>|
                r@.to_nfa().accepts(w) <==> in_repeat(
                    a.to_nfa().language(),
                    num as nat,
                    None,
                    w,
                ) by {
                assert(r@.accepts(w) <==> in_repeat(a.to_nfa().language(), num as nat, None, w));
            }
        }
        r
    }

    fn repeat(self, lo: usize, hi: Option<usize>) -> (r: Self) {
        let ghost a = self@;
        let r = DFA::repeat(self, lo, hi);
        proof {
            assert forall|w: Seq<V>|
                r@.to_nfa().accepts(w) <==> in_repeat(
                    a.to_nfa().language(),
                    lo as nat,
                    bound(hi),
                    w,
                ) by {
                assert(r@.accepts(w) <==> in_repeat(
                    a.to_nfa().language(),
                    lo as nat,
                    bound(hi),
                    w,
                ));
            }
        }
        r
    }
}

/// The automaton of a well-formed expression accepts what the expression
/// matches.
pub proof fn lemma_regex_as_nfa<V: Symbol>(x: &Regex<V>)
    requires
        x.wf(),
    ensures
        x.as_nfa().wf(),
        x.as_nfa().alphabet == x@.alphabet,
        forall|w: Seq<V>| x.as_nfa().accepts(w) <==> x@.matches(w),
        x.as_nfa().language() == x@.tree.matched(x@.alphabet),
{
    lemma_to_nfa_language(x@.tree, x@.alphabet, Seq::empty());
    assert forall|w: Seq<V>| x.as_nfa().accepts(w) <==> x@.matches(w) by {
        lemma_to_nfa_language(x@.tree, x@.alphabet, w);
    }
    assert forall|w: Seq<V>|
        #[trigger] x.as_nfa().language()(w) == x@.tree.matched(x@.alphabet)(w) by {
        lemma_to_nfa_language(x@.tree, x@.alphabet, w);
    }
    assert(x.as_nfa().language() =~= x@.tree.matched(x@.alphabet));
}

impl<V: Symbol> Buildable<V> for Regex<V> {
    fn unite(self, other: Self) -> (r: Self) {
        let ghost a = self@;
        let ghost b = other@;
        proof {
            lemma_regex_as_nfa(&self);
            lemma_regex_as_nfa(&other);
        }
        let r = Regex::unite(self, other);
        proof {
            lemma_to_nfa_language(r@.tree, r@.alphabet, Seq::empty());
            if a.to_nfa().alphabet == b.to_nfa().alphabet {
                assert forall|w: Seq<V>|
                    r@.to_nfa().accepts(w) <==> (a.to_nfa().accepts(w) || b.to_nfa().accepts(w)) by {
                    lemma_to_nfa_language(r@.tree, r@.alphabet, w);
                    lemma_to_nfa_language(a.tree, a.alphabet, w);
                    lemma_to_nfa_language(b.tree, b.alphabet, w);
                    assert(r@.matches(w) <==> (a.matches(w) || b.matches(w)));
                }
            }
        }
        r
    }

    fn concatenate(self, other: Self) -> (r: Self) {
        let ghost a = self@;
        let ghost b = other@;
        proof {
            lemma_regex_as_nfa(&self);
            lemma_regex_as_nfa(&other);
        }
        let r = Regex::concatenate(self, other);
        proof {
            lemma_to_nfa_language(r@.tree, r@.alphabet, Seq::empty());
            if a.to_nfa().alphabet == b.to_nfa().alphabet {
                assert forall|w: Seq<V>|
                    r@.to_nfa().accepts(w) <==> in_concat(
                        a.to_nfa().language(),
                        b.to_nfa().language(),
                        w,
                    ) by {
                    lemma_to_nfa_language(r@.tree, r@.alphabet, w);
                    assert(r@.matches(w) <==> in_concat(
                        a.tree.matched(a.alphabet),
                        b.tree.matched(b.alphabet),
                        w,
                    ));
                }
            }
        }
        r
    }

    fn kleene(self) -> (r: Self) {
        let ghost a = self@;
        proof {
            lemma_regex_as_nfa(&self);
        }
        let r = Regex::kleene(self);
        proof {
            lemma_to_nfa_language(r@.tree, r@.alphabet, Seq::empty());
            assert forall|w: Seq<V>|
                r@.to_nfa().accepts(w) <==> in_star(a.to_nfa().language(), w) by {
                lemma_to_nfa_language(r@.tree, r@.alphabet, w);
                assert(r@.matches(w) <==> in_star(a.tree.matched(a.alphabet), w));
            }
        }
        r
    }

    fn at_most(self, num: usize) -> (r: Self) {
        let ghost a = self@;
        proof {
            lemma_regex_as_nfa(&self);
        }
        let r = Regex::at_most(self, num);
        proof {
            lemma_to_nfa_language(r@.tree, r@.alphabet, Seq::empty());
            assert forall|w: Seq<V>|
                r@.to_nfa().accepts(w) <==> in_repeat(
                    a.to_nfa().language(),
                    0,
                    Some(num as nat),
                    w,
                ) by {
                lemma_to_nfa_language(r@.tree, r@.alphabet, w);
                assert(r@.matches(w) <==> in_repeat(
                    a.tree.matched(a.alphabet),
                    0,
                    Some(num as nat),
                    w,
                ));
            }
        }
        r
    }

    fn at_least(self, num: usize) -> (r: Self) {
        let ghost a = self@;
        proof {
            lemma_regex_as_nfa(&self);
        }
        let r = Regex::at_least(self, num);
        proof {
            lemma_to_nfa_language(r@.tree, r@.alphabet, Seq::empty());
            assert forall|w: Seq<V>|
                r@.to_nfa().accepts(w) <==> in_repeat(
                    a.to_nfa().language(),
                    num as nat,
                    None,
                    w,
                ) by {
                lemma_to_nfa_language(r@.tree, r@.alphabet, w);
                assert(r@.matches(w) <==> in_repeat(
                    a.tree.matched(a.alphabet),
                    num as nat,
                    None,
                    w,
                ));
            }
        }
        r
    }

    fn repeat(self, lo: usize, hi: Option<usize>) -> (r: Self) {
        let ghost a = self@;
        proof {
            lemma_regex_as_nfa(&self);
        }
        let r = Regex::repeat(self, lo, hi);
        proof {
            lemma_to_nfa_language(r@.tree, r@.alphabet, Seq::empty());
            assert forall|w: Seq<V>|
                r@.to_nfa().accepts(w) <==> in_repeat(
                    a.to_nfa().language(),
                    lo as nat,
                    bound(hi),
                    w,
                ) by {
                lemma_to_nfa_language(r@.tree, r@.alphabet, w);
                assert(r@.matches(w) <==> in_repeat(
                    a.tree.matched(a.alphabet),
                    lo as nat,
                    bound(hi),
                    w,
                ));
            }
        }
        r
    }
}

impl<V: Symbol> Automata<V> for NFA<V> {
    open spec fn given_by(&self, n: NfaModel<V>) -> bool {
        self@ == n
    }

    fn run(&self, word: &[V]) -> (r: bool) {
        NFA::run(self, word)
    }

    fn is_complete(&self) -> (r: bool) {
        NFA::is_complete(self)
    }

    fn is_reachable(&self) -> (r: bool) {
        NFA::is_reachable(self)
    }

    fn is_coreachable(&self) -> (r: bool) {
        NFA::is_coreachable(self)
    }

    fn is_trimmed(&self) -> (r: bool) {
        NFA::is_trimmed(self)
    }

    fn is_empty(&self) -> (r: bool) {
        NFA::is_empty(self)
    }

    fn is_full(&self) -> (r: bool) {
        NFA::is_full(self)
    }

    fn complete(self) -> (r: Self) {
        NFA::complete(self)
    }

    fn make_reachable(self) -> (r: Self) {
        proof {
            self.lemma_model_wf();
            crate::laws::trim::lemma_make_reachable_wf(self@);
        }
        NFA::make_reachable(self)
    }

    fn make_coreachable(self) -> (r: Self) {
        proof {
            self.lemma_model_wf();
            crate::laws::trim::lemma_make_coreachable_wf(self@);
        }
        NFA::make_coreachable(self)
    }

    fn trim(self) -> (r: Self) {
        proof {
            self.lemma_model_wf();
            crate::laws::trim::lemma_trim_wf(self@);
        }
        NFA::trim(self)
    }

    fn negate(self) -> (r: Self) {
        NFA::negate(self)
    }

    fn reverse(self) -> (r: Self) {
        NFA::reverse(self)
    }
}

impl<V: Symbol> Automata<V> for DFA<V> {
    open spec fn given_by(&self, n: NfaModel<V>) -> bool {
        crate::determinism::is_determinized(n, self@)
    }

    fn run(&self, word: &[V]) -> (r: bool) {
        DFA::run(self, word)
    }

    fn is_complete(&self) -> (r: bool) {
        proof {
            assert(self@.to_nfa().initials.contains(self@.initial));
        }
        DFA::is_complete(self)
    }

    fn is_reachable(&self) -> (r: bool) {
        DFA::is_reachable(self)
    }

    fn is_coreachable(&self) -> (r: bool) {
        DFA::is_coreachable(self)
    }

    fn is_trimmed(&self) -> (r: bool) {
        DFA::is_trimmed(self)
    }

    fn is_empty(&self) -> (r: bool) {
        DFA::is_empty(self)
    }

    fn is_full(&self) -> (r: bool) {
        DFA::is_full(self)
    }

    fn complete(self) -> (r: Self) {
        let ghost a = self@;
        proof {
            self.lemma_model_wf();
            crate::laws::complement::lemma_dfa_complete_as_nfa(self@);
        }
        let r = DFA::complete(self);
        proof {
            assert forall|w: Seq<V>| r@.to_nfa().accepts(w) <==> a.to_nfa().accepts(w) by {
                assert(r@.accepts(w) <==> a.accepts(w));
            }
        }
        r
    }

    fn make_reachable(self) -> (r: Self) {
        let ghost a = self@;
        let r = DFA::make_reachable(self);
        proof {
            assert forall|w: Seq<V>| r@.to_nfa().accepts(w) <==> a.to_nfa().accepts(w) by {
                assert(r@.accepts(w) <==> a.accepts(w));
            }
        }
        r
    }

    fn make_coreachable(self) -> (r: Self) {
        let ghost a = self@;
        let r = DFA::make_coreachable(self);
        proof {
            assert forall|w: Seq<V>| r@.to_nfa().accepts(w) <==> a.to_nfa().accepts(w) by {
                assert(r@.accepts(w) <==> a.accepts(w));
            }
        }
        r
    }

    fn trim(self) -> (r: Self) {
        let ghost a = self@;
        let r = DFA::trim(self);
        proof {
            assert forall|w: Seq<V>| r@.to_nfa().accepts(w) <==> a.to_nfa().accepts(w) by {
                assert(r@.accepts(w) <==> a.accepts(w));
            }
        }
        r
    }

    fn negate(self) -> (r: Self) {
        let ghost a = self@;
        let r = DFA::negate(self);
        proof {
            assert forall|w: Seq<V>| #[trigger]
                r@.to_nfa().accepts(w) <==> (crate::language::word_over(a.to_nfa().alphabet, w)
                    && !a.to_nfa().accepts(w)) by {
                assert(r@.accepts(w) <==> (crate::language::word_over(a.alphabet, w) && !a.accepts(
                    w,
                )));
            }
        }
        r
    }

    fn reverse(self) -> (r: Self) {
        let ghost a = self@;
        let r = DFA::reverse(self);
        proof {
            assert forall|w: Seq<V>|
                r@.to_nfa().accepts(w) <==> a.to_nfa().accepts(w.reverse()) by {
                assert(r@.accepts(w) <==> a.accepts(w.reverse()));
            }
        }
        r
    }
}

} // verus!
