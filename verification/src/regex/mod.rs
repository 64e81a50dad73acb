//! Regular expressions over an explicit alphabet.
use crate::dfa::DFA;
use crate::nfa::repeat::bound;
use crate::nfa::NFA;
use crate::regex::plainness::{lemma_plus_plain, lemma_times_plain, plain_or_empty};
use crate::regex::rules_language::plain;
use crate::regex::tree::{Operations, Tree};
use crate::sets::copy_symbols;
use crate::symbol::Symbol;
use crate::utils::append_hashset;
use vstd::prelude::*;

pub mod algebra;
pub mod order;
pub mod parse;
pub mod plainness;
pub mod readback;
pub mod readback_language;
pub mod readback_parse;
pub mod readback_text;
pub mod rules;
pub mod rules_language;
pub mod rules_reduced;
pub mod rules_wf;
pub mod show;
pub mod simplify;
pub mod texts;
pub mod to_nfa;
pub mod tree;

verus! {

/// A regular expression with its alphabet, as mathematics.
#[verifier::reject_recursive_types(V)]
pub struct RegexModel<V> {
    pub alphabet: Set<V>,
    pub tree: Tree<V>,
}

impl<V> RegexModel<V> {
    /// Every letter of the expression is in the alphabet, and no repetition
    /// has a second bound below its first.
    pub open spec fn wf(self) -> bool {
        self.tree.wf(self.alphabet)
    }

    /// Whether the expression matches `w`.
    pub open spec fn matches(self, w: Seq<V>) -> bool {
        self.tree.matches(self.alphabet, w)
    }
}

/// A regular expression over an alphabet.
#[derive(Debug)]
pub struct Regex<V: Symbol> {
    pub(crate) alphabet: Vec<V>,
    pub(crate) regex: Operations<V>,
}

impl<V: Symbol> View for Regex<V> {
    type V = RegexModel<V>;

    open(crate) spec fn view(&self) -> RegexModel<V> {
        RegexModel { alphabet: self.alphabet@.to_set(), tree: self.regex@ }
    }
}

impl<V: Symbol> Regex<V> {
    /// The invariant of the representation: no symbol is listed twice in the
    /// alphabet, every letter of the expression is in the alphabet, and no
    /// repetition has a second bound below its first.
    pub open(crate) spec fn wf(&self) -> bool {
        &&& self.alphabet@.no_duplicates()
        &&& self.regex@.wf(self.alphabet@.to_set())
    }

    /// A copy of the expression.
    pub fn to_regex(&self) -> (r: Regex<V>)
        requires
            self.wf(),
        ensures
            r.wf(),
            r@ == self@,
    {
        Regex { alphabet: copy_symbols(&self.alphabet), regex: self.regex.copy() }
    }

    /// An automaton that accepts the words that the expression matches.
    pub fn to_nfa(&self) -> (r: NFA<V>)
        requires
            self.wf(),
        ensures
            r.wf(),
            r@ == self@.tree.to_nfa(self@.alphabet),
            r@.alphabet == self@.alphabet,
            forall|w: Seq<V>| r@.accepts(w) <==> self@.matches(w),
    {
        proof {
            crate::regex::to_nfa::lemma_to_nfa_language(
                self@.tree,
                self@.alphabet,
                Seq::<V>::empty(),
            );
        }
        self.regex.to_nfa(&self.alphabet)
    }

    /// A deterministic automaton that accepts the words that the expression
    /// matches.
    pub fn to_dfa(&self) -> (r: DFA<V>)
        requires
            self.wf(),
        ensures
            r.wf(),
            r@.alphabet == self@.alphabet,
            forall|w: Seq<V>| r@.accepts(w) <==> self@.matches(w),
            crate::determinism::is_determinized(self@.tree.to_nfa(self@.alphabet), r@),
    {
        self.to_nfa().to_dfa()
    }

    /// The sum of two expressions, over both alphabets. Where the two have
    /// one alphabet, it matches what either matches.
    pub fn unite(self, other: Regex<V>) -> (r: Regex<V>)
        requires
            self.wf(),
            other.wf(),
        ensures
            r.wf(),
            r@.alphabet == self@.alphabet.union(other@.alphabet),
            r@.tree == self@.tree.plus(other@.tree),
            self@.alphabet == other@.alphabet ==> forall|w: Seq<V>|
                r@.matches(w) <==> (self@.matches(w) || other@.matches(w)),
            plain_or_empty(self@.tree) && plain_or_empty(other@.tree) ==> plain_or_empty(r@.tree),
    {
        let ghost a = self@;
        let ghost b = other@;
        let Regex { alphabet, regex } = self;
        let Regex { alphabet: o_alphabet, regex: o_regex } = other;
        let mut alphabet = alphabet;
        append_hashset(&mut alphabet, o_alphabet);
        let r = Regex { alphabet, regex: regex.plus(o_regex) };
        proof {
            let sigma = a.alphabet.union(b.alphabet);
            crate::regex::tree::lemma_wf_grows(a.tree, a.alphabet, sigma);
            crate::regex::tree::lemma_wf_grows(b.tree, b.alphabet, sigma);
            crate::regex::algebra::lemma_plus(a.tree, b.tree, sigma, Seq::<V>::empty());
            if plain_or_empty(a.tree) && plain_or_empty(b.tree) {
                lemma_plus_plain(a.tree, b.tree);
            }
            if a.alphabet == b.alphabet {
                assert(sigma =~= a.alphabet);
                assert forall|w: Seq<V>| r@.matches(w) <==> (a.matches(w) || b.matches(w)) by {
                    crate::regex::algebra::lemma_plus(a.tree, b.tree, sigma, w);
                }
            }
        }
        r
    }

    /// The product of two expressions, over both alphabets. Where the two
    /// have one alphabet, it matches a word of the first followed by a word of
    /// the second.
    pub fn concatenate(self, other: Regex<V>) -> (r: Regex<V>)
        requires
            self.wf(),
            other.wf(),
        ensures
            r.wf(),
            r@.alphabet == self@.alphabet.union(other@.alphabet),
            r@.tree == self@.tree.times(other@.tree),
            self@.alphabet == other@.alphabet ==> forall|w: Seq<V>|
                r@.matches(w) <==> crate::language::in_concat(
                    self@.tree.matched(self@.alphabet),
                    other@.tree.matched(other@.alphabet),
                    w,
                ),
            plain_or_empty(self@.tree) && plain_or_empty(other@.tree) ==> plain_or_empty(r@.tree),
    {
        let ghost a = self@;
        let ghost b = other@;
        let Regex { alphabet, regex } = self;
        let Regex { alphabet: o_alphabet, regex: o_regex } = other;
        let mut alphabet = alphabet;
        append_hashset(&mut alphabet, o_alphabet);
        let r = Regex { alphabet, regex: regex.times(o_regex) };
        proof {
            let sigma = a.alphabet.union(b.alphabet);
            crate::regex::tree::lemma_wf_grows(a.tree, a.alphabet, sigma);
            crate::regex::tree::lemma_wf_grows(b.tree, b.alphabet, sigma);
            crate::regex::algebra::lemma_times(a.tree, b.tree, sigma, Seq::<V>::empty());
            if plain_or_empty(a.tree) && plain_or_empty(b.tree) {
                lemma_times_plain(a.tree, b.tree);
            }
            if a.alphabet == b.alphabet {
                assert(sigma =~= a.alphabet);
                assert forall|w: Seq<V>|
                    r@.matches(w) <==> crate::language::in_concat(
                        a.tree.matched(a.alphabet),
                        b.tree.matched(b.alphabet),
                        w,
                    ) by {
                    crate::regex::algebra::lemma_times(a.tree, b.tree, sigma, w);
                }
            }
        }
        r
    }

    /// The expression any number of times.
    pub fn kleene(self) -> (r: Regex<V>)
        requires
            self.wf(),
        ensures
            r.wf(),
            r@.alphabet == self@.alphabet,
            r@.tree == Tree::Repeat(Box::new(self@.tree), 0, None),
            forall|w: Seq<V>|
                r@.matches(w) <==> crate::language::in_star(self@.tree.matched(self@.alphabet), w),
            plain(self@.tree) ==> plain(r@.tree),
    {
        let Regex { alphabet, regex } = self;
        Regex { alphabet, regex: Operations::Repeat(Box::new(regex), 0, None) }
    }

    /// The expression at most `k` times.
    pub fn at_most(self, k: usize) -> (r: Regex<V>)
        requires
            self.wf(),
        ensures
            r.wf(),
            r@.alphabet == self@.alphabet,
            r@.tree == Tree::Repeat(Box::new(self@.tree), 0, Some(k as nat)),
            forall|w: Seq<V>|
                r@.matches(w) <==> crate::language::in_repeat(
                    self@.tree.matched(self@.alphabet),
                    0,
                    Some(k as nat),
                    w,
                ),
    {
        let Regex { alphabet, regex } = self;
        Regex { alphabet, regex: Operations::Repeat(Box::new(regex), 0, Some(k)) }
    }

    /// The expression at least `k` times.
    pub fn at_least(self, k: usize) -> (r: Regex<V>)
        requires
            self.wf(),
        ensures
            r.wf(),
            r@.alphabet == self@.alphabet,
            r@.tree == Tree::Repeat(Box::new(self@.tree), k as nat, None),
            forall|w: Seq<V>|
                r@.matches(w) <==> crate::language::in_repeat(
                    self@.tree.matched(self@.alphabet),
                    k as nat,
                    None,
                    w,
                ),
    {
        let Regex { alphabet, regex } = self;
        Regex { alphabet, regex: Operations::Repeat(Box::new(regex), k, None) }
    }

    /// The expression between `lo` and `hi` times; without `hi`, `lo` times
    /// or more. Where `hi` is below `lo`, the expression that matches nothing.
    pub fn repeat(self, lo: usize, hi: Option<usize>) -> (r: Regex<V>)
        requires
            self.wf(),
        ensures
            r.wf(),
            r@.alphabet == self@.alphabet,
            r@.tree == if hi is Some && hi->0 < lo {
                Tree::Empty
            } else {
                Tree::Repeat(Box::new(self@.tree), lo as nat, bound(hi))
            },
            forall|w: Seq<V>|
                r@.matches(w) <==> crate::language::in_repeat(
                    self@.tree.matched(self@.alphabet),
                    lo as nat,
                    bound(hi),
                    w,
                ),
    {
        let ghost a = self@;
        let Regex { alphabet, regex } = self;
        let below = match hi {
            Some(h) => h < lo,
            None => false,
        };
        if below {
            proof {
                assert forall|w: Seq<V>|
                    !crate::language::in_repeat(
                        a.tree.matched(a.alphabet),
                        lo as nat,
                        bound(hi),
                        w,
                    ) by {
                    if crate::language::in_repeat(
                        a.tree.matched(a.alphabet),
                        lo as nat,
                        bound(hi),
                        w,
                    ) {
                        let m = choose|m: nat|
                            lo as nat <= m && (bound(hi) is Some ==> m <= bound(hi)->0)
                                && #[trigger] crate::language::in_power(
                                a.tree.matched(a.alphabet),
                                m,
                                w,
                            );
                    }
                }
            }
            Regex { alphabet, regex: Operations::Empty }
        } else {
            Regex { alphabet, regex: Operations::Repeat(Box::new(regex), lo, hi) }
        }
    }
}

} // verus!
