//! Ranges of counts, as the repetitions take them: each end included,
//! excluded or open.
use crate::dfa::DFA;
use crate::determinism::is_determinized;
use crate::language::{in_power, in_repeat, Language};
use crate::model::NfaModel;
use crate::nfa::repeat::bound;
use crate::nfa::NFA;
use crate::regex::tree::{Operations, Tree};
use crate::regex::Regex;
use crate::sets::copy_symbols;
use crate::symbol::Symbol;
use vstd::prelude::*;

verus! {

/// One end of a range of counts.
#[derive(Debug, Clone, Copy, PartialEq, Eq)]
pub enum Limit {
    /// The range goes up to, or starts at, this count.
    Included(usize),
    /// The range goes up to, or starts behind, this count, without it.
    Excluded(usize),
    /// The range has no end on this side.
    Unbounded,
}

/// Whether the count `n` is in the range from `start` to `end`.
pub open spec fn in_range(start: Limit, end: Limit, n: nat) -> bool {
    &&& match start {
        Limit::Included(a) => a <= n,
        Limit::Excluded(a) => a < n,
        Limit::Unbounded => true,
    }
    &&& match end {
        Limit::Included(b) => n <= b,
        Limit::Excluded(b) => n < b,
        Limit::Unbounded => true,
    }
}

/// Whether `w` is the concatenation of `n` words of `l` for some count `n`
/// in the range from `start` to `end`.
pub open spec fn in_span<V>(l: Language<V>, start: Limit, end: Limit, w: Seq<V>) -> bool {
    exists|n: nat| in_range(start, end, n) && #[trigger] in_power(l, n, w)
}

/// The first count of a range that starts with `start`.
pub open spec fn first_count(start: Limit) -> nat {
    match start {
        Limit::Included(a) => a as nat,
        Limit::Excluded(a) => (a + 1) as nat,
        Limit::Unbounded => 0,
    }
}

/// The first and the last count of the range from `start` to `end`, the
/// last one where the range ends; nothing where no count is in the range.
pub open spec fn counted(start: Limit, end: Limit) -> Option<(nat, Option<nat>)> {
    let lo = first_count(start);
    match end {
        Limit::Included(b) => if b < lo {
            None
        } else {
            Some((lo, Some(b as nat)))
        },
        Limit::Excluded(b) => if b <= lo {
            None
        } else {
            Some((lo, Some((b - 1) as nat)))
        },
        Limit::Unbounded => Some((lo, None)),
    }
}

/// The first and the last count of the range from `start` to `end`, the
/// last one where the range ends; nothing where no count is in the range.
pub fn counts(start: Limit, end: Limit) -> (r: Option<(usize, Option<usize>)>)
    requires
        start != Limit::Excluded(usize::MAX),
    ensures
        match r {
            Some((lo, hi)) => counted(start, end) == Some((lo as nat, bound(hi))),
            None => counted(start, end) is None,
        },
        match r {
            Some((lo, hi)) => (hi is Some ==> lo <= hi->0) && forall|n: nat|
                in_range(start, end, n) <==> (lo <= n && (hi is Some ==> n <= hi->0)),
            None => forall|n: nat| !in_range(start, end, n),
        },
{
    let lo = match start {
        Limit::Included(a) => a,
        Limit::Excluded(a) => a + 1,
        Limit::Unbounded => 0,
    };
    match end {
        Limit::Included(b) => {
            if b < lo {
                None
            } else {
                Some((lo, Some(b)))
            }
        },
        Limit::Excluded(b) => {
            if b <= lo {
                None
            } else {
                Some((lo, Some(b - 1)))
            }
        },
        Limit::Unbounded => Some((lo, None)),
    }
}

/// Counting by the first and the last count of a range is counting by the
/// range.
pub proof fn lemma_span_by_counts<V>(
    l: Language<V>,
    start: Limit,
    end: Limit,
    lo: nat,
    hi: Option<nat>,
    w: Seq<V>,
)
    requires
        forall|n: nat| in_range(start, end, n) <==> (lo <= n && (hi is Some ==> n <= hi->0)),
    ensures
        in_span(l, start, end, w) <==> in_repeat(l, lo, hi, w),
{
    if in_span(l, start, end, w) {
        let n = choose|n: nat| in_range(start, end, n) && #[trigger] in_power(l, n, w);
        assert(lo <= n && (hi is Some ==> n <= hi->0) && in_power(l, n, w));
    }
    if in_repeat(l, lo, hi, w) {
        let n = choose|n: nat| lo <= n && (hi is Some ==> n <= hi->0) && #[trigger] in_power(l, n, w);
        assert(in_range(start, end, n) && in_power(l, n, w));
    }
}

impl<V: Symbol> NFA<V> {
    /// The automaton that accepts a number of words of `self` in a row that
    /// lies in the range from `start` to `end`. Where no count lies in the
    /// range, it is the automaton without states.
    pub fn repeat_within(self, start: Limit, end: Limit) -> (r: NFA<V>)
        requires
            self.wf(),
            start != Limit::Excluded(usize::MAX),
        ensures
            r.wf(),
            r@.alphabet == self@.alphabet,
            r@ == match counted(start, end) {
                Some((lo, hi)) => self@.repeat(lo, hi),
                None => NfaModel::empty(self@.alphabet),
            },
            forall|w: Seq<V>| r@.accepts(w) <==> in_span(self@.language(), start, end, w),
    {
        let ghost l = self@.language();
        match counts(start, end) {
            Some((lo, hi)) => {
                proof {
                    self.lemma_model_wf();
                    crate::laws::repeat::lemma_repeat_language(
                        self@,
                        lo as nat,
                        bound(hi),
                        Seq::<V>::empty(),
                    );
                    assert forall|w: Seq<V>|
                        in_span(l, start, end, w) <==> in_repeat(l, lo as nat, bound(hi), w) by {
                        lemma_span_by_counts(l, start, end, lo as nat, bound(hi), w);
                    }
                }
                self.repeat(lo, hi)
            },
            None => {
                proof {
                    assert forall|w: Seq<V>| !in_span(l, start, end, w) by {
                        if in_span(l, start, end, w) {
                            let n = choose|n: nat|
                                in_range(start, end, n) && #[trigger] in_power(l, n, w);
                        }
                    }
                }
                NFA::new_empty(copy_symbols(&self.alphabet))
            },
        }
    }
}

impl<V: Symbol> DFA<V> {
    /// A deterministic automaton that accepts a number of words of `self` in
    /// a row that lies in the range from `start` to `end`.
    pub fn repeat_within(self, start: Limit, end: Limit) -> (r: DFA<V>)
        requires
            self.wf(),
            start != Limit::Excluded(usize::MAX),
        ensures
            r.wf(),
            r@.alphabet == self@.alphabet,
            forall|w: Seq<V>|
                r@.accepts(w) <==> in_span(self@.to_nfa().language(), start, end, w),
            is_determinized(
                match counted(start, end) {
                    Some((lo, hi)) => self@.to_nfa().repeat(lo, hi),
                    None => NfaModel::empty(self@.alphabet),
                },
                r@,
            ),
    {
        self.to_nfa().repeat_within(start, end).to_dfa()
    }
}

impl<V: Symbol> Regex<V> {
    /// The expression a number of times that lies in the range from `start`
    /// to `end`. Where no count lies in the range, it is the expression that
    /// matches nothing.
    pub fn repeat_within(self, start: Limit, end: Limit) -> (r: Regex<V>)
        requires
            self.wf(),
            start != Limit::Excluded(usize::MAX),
        ensures
            r.wf(),
            r@.alphabet == self@.alphabet,
            r@.tree == match counted(start, end) {
                Some((lo, hi)) => Tree::Repeat(Box::new(self@.tree), lo, hi),
                None => Tree::Empty,
            },
            forall|w: Seq<V>|
                r@.matches(w) <==> in_span(self@.tree.matched(self@.alphabet), start, end, w),
    {
        let ghost l = self@.tree.matched(self@.alphabet);
        match counts(start, end) {
            Some((lo, hi)) => {
                proof {
                    assert forall|w: Seq<V>|
                        in_span(l, start, end, w) <==> in_repeat(l, lo as nat, bound(hi), w) by {
                        lemma_span_by_counts(l, start, end, lo as nat, bound(hi), w);
                    }
                }
                self.repeat(lo, hi)
            },
            None => {
                proof {
                    assert forall|w: Seq<V>| !in_span(l, start, end, w) by {
                        if in_span(l, start, end, w) {
                            let n = choose|n: nat|
                                in_range(start, end, n) && #[trigger] in_power(l, n, w);
                        }
                    }
                }
                let Regex { alphabet, regex: _ } = self;
                Regex { alphabet, regex: Operations::Empty }
            },
        }
    }
}

} // verus!
