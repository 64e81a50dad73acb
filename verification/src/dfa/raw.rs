//! Building a deterministic automaton from raw parts, with validation.
use crate::automaton::FromRawError;
use crate::dfa::DFA;
use crate::model::DfaModel;
use crate::nfa::closure::leaves;
use crate::nfa::raw::{find_beyond, first_beyond, flags_of, lemma_none_beyond};
use crate::nfa::search::leaves_on;
use crate::sets::{distinct, has_symbol};
use crate::symbol::Symbol;
use vstd::prelude::*;

verus! {

/// The first symbol of the entries of `row` that is not in `alphabet`.
pub open spec fn first_strange<V>(alphabet: Set<V>, row: Seq<(V, usize)>) -> Option<V>
    decreases row.len(),
{
    if row.len() == 0 {
        None
    } else if !alphabet.contains(row[0].0) {
        Some(row[0].0)
    } else {
        first_strange(alphabet, row.drop_first())
    }
}

/// The first entry of `row` whose target is not below `n`.
pub open spec fn first_far<V>(row: Seq<(V, usize)>, n: nat) -> Option<(V, usize)>
    decreases row.len(),
{
    if row.len() == 0 {
        None
    } else if row[0].1 >= n {
        Some(row[0])
    } else {
        first_far(row.drop_first(), n)
    }
}

/// What is wrong with `row`, the row of state `q`: its first unknown symbol
/// or, without one, its first entry whose target is not a state.
pub open spec fn dfa_row_error<V>(alphabet: Set<V>, n: nat, q: usize, row: Seq<(V, usize)>) -> Option<
    FromRawError<V>,
> {
    match first_strange(alphabet, row) {
        Some(a) => Some(FromRawError::UnknownLetter(a)),
        None => match first_far(row, n) {
            Some(e) => Some(FromRawError::InvalidTransition(q, e.0, e.1)),
            None => None,
        },
    }
}

/// What is wrong with the rows from `from` on: the error of the first row
/// that has one.
pub open spec fn dfa_rows_error<V>(alphabet: Set<V>, rows: Seq<Vec<(V, usize)>>, from: int) -> Option<
    FromRawError<V>,
>
    decreases rows.len() - from,
{
    if from < 0 || from >= rows.len() {
        None
    } else {
        match dfa_row_error(alphabet, rows.len(), from as usize, rows[from]@) {
            Some(e) => Some(e),
            None => dfa_rows_error(alphabet, rows, from + 1),
        }
    }
}

/// What is wrong with the raw parts: the initial state where it is not a
/// state; else the first final state that is not a state; else the error of
/// the first row that has one.
pub open spec fn dfa_raw_error<V>(
    alphabet: Set<V>,
    initial: usize,
    finals: Seq<usize>,
    rows: Seq<Vec<(V, usize)>>,
) -> Option<FromRawError<V>> {
    if initial >= rows.len() {
        Some(FromRawError::InvalidInitial(initial))
    } else {
        match first_beyond(finals, rows.len()) {
            Some(s) => Some(FromRawError::InvalidFinal(s)),
            None => dfa_rows_error(alphabet, rows, 0),
        }
    }
}

/// The entries of `row` without those whose symbol stands in an earlier
/// entry.
pub open spec fn pruned<V>(row: Seq<(V, usize)>) -> Seq<(V, usize)>
    decreases row.len(),
{
    if row.len() == 0 {
        Seq::empty()
    } else {
        let before = pruned(row.drop_last());
        if leaves(before, row.last().0) {
            before
        } else {
            before.push(row.last())
        }
    }
}

/// The automaton that the raw parts describe: of the entries of a row with
/// one symbol, the first counts.
pub open spec fn raw_dfa_model<V>(
    alphabet: Set<V>,
    initial: usize,
    finals: Seq<usize>,
    rows: Seq<Vec<(V, usize)>>,
) -> DfaModel<V> {
    DfaModel {
        alphabet,
        size: rows.len(),
        initial: initial as int,
        finals: Set::new(|q: int| 0 <= q <= usize::MAX && finals.contains(q as usize)),
        edges: Set::new(
            |e: (int, V, int)|
                0 <= e.0 < rows.len() && 0 <= e.2 <= usize::MAX && pruned(rows[e.0]@).contains(
                    (e.1, e.2 as usize),
                ),
        ),
    }
}

/// The first symbol of the entries of `row` that is not in `alphabet`.
pub fn find_strange<V: Symbol>(alphabet: &Vec<V>, row: &Vec<(V, usize)>) -> (r: Option<V>)
    ensures
        r == first_strange(alphabet@.to_set(), row@),
        r is None ==> forall|k: int| 0 <= k < row.len() ==> alphabet@.contains((#[trigger] row[k]).0),
{
    let mut k: usize = 0;
    proof {
        assert(row@.skip(0) =~= row@);
    }
    while k < row.len()
        invariant
            k <= row.len(),
            first_strange(alphabet@.to_set(), row@) == first_strange(
                alphabet@.to_set(),
                row@.skip(k as int),
            ),
            forall|j: int| 0 <= j < k ==> alphabet@.contains((#[trigger] row[j]).0),
        decreases row.len() - k,
    {
        proof {
            assert(row@.skip(k as int).drop_first() =~= row@.skip(k as int + 1));
        }
        if !has_symbol(alphabet, row[k].0) {
            return Some(row[k].0);
        }
        k += 1;
    }
    None
}

/// The first entry of `row` whose target is not below `n`.
pub fn find_far<V: Symbol>(row: &Vec<(V, usize)>, n: usize) -> (r: Option<(V, usize)>)
    ensures
        r == first_far(row@, n as nat),
        r is None ==> forall|k: int| 0 <= k < row.len() ==> (#[trigger] row[k]).1 < n,
{
    let mut k: usize = 0;
    proof {
        assert(row@.skip(0) =~= row@);
    }
    while k < row.len()
        invariant
            k <= row.len(),
            first_far(row@, n as nat) == first_far(row@.skip(k as int), n as nat),
            forall|j: int| 0 <= j < k ==> (#[trigger] row[j]).1 < n,
        decreases row.len() - k,
    {
        proof {
            assert(row@.skip(k as int).drop_first() =~= row@.skip(k as int + 1));
        }
        if row[k].1 >= n {
            return Some(row[k]);
        }
        k += 1;
    }
    None
}

/// What `pruned` keeps was there, and no symbol is kept twice.
pub proof fn lemma_pruned<V>(row: Seq<(V, usize)>)
    ensures
        forall|k: int| 0 <= k < pruned(row).len() ==> row.contains(#[trigger] pruned(row)[k]),
        forall|j: int, k: int|
            0 <= j < pruned(row).len() && 0 <= k < pruned(row).len() && (#[trigger] pruned(row)[j]).0
                == (#[trigger] pruned(row)[k]).0 ==> j == k,
    decreases row.len(),
{
    if row.len() > 0 {
        let front = row.drop_last();
        lemma_pruned(front);
        let before = pruned(front);
        let p = pruned(row);
        assert forall|k: int| 0 <= k < p.len() implies row.contains(#[trigger] p[k]) by {
            if k < before.len() {
                assert(front.contains(before[k]));
                let i = choose|i: int| 0 <= i < front.len() && front[i] == before[k];
                assert(row[i] == before[k]);
            } else {
                assert(row[row.len() - 1] == p[k]);
            }
        }
        assert forall|j: int, k: int|
            0 <= j < p.len() && 0 <= k < p.len() && (#[trigger] p[j]).0 == (#[trigger] p[k]).0 implies j
            == k by {
            if j < before.len() && k < before.len() {
                assert(before[j].0 == before[k].0);
            } else if j < before.len() {
                assert(before[j].0 == row.last().0);
            } else if k < before.len() {
                assert(before[k].0 == row.last().0);
            }
        }
    }
}

/// The entries of `row` without those whose symbol stands in an earlier
/// entry.
pub fn prune<V: Symbol>(row: &Vec<(V, usize)>) -> (r: Vec<(V, usize)>)
    ensures
        r@ == pruned(row@),
{
    let mut r: Vec<(V, usize)> = Vec::new();
    let mut k: usize = 0;
    proof {
        assert(row@.take(0) =~= Seq::<(V, usize)>::empty());
    }
    while k < row.len()
        invariant
            k <= row.len(),
            r@ == pruned(row@.take(k as int)),
        decreases row.len() - k,
    {
        proof {
            assert(row@.take(k as int + 1).drop_last() =~= row@.take(k as int));
        }
        if !leaves_on(&r, row[k].0) {
            r.push(row[k]);
        }
        k += 1;
    }
    proof {
        assert(row@.take(row.len() as int) =~= row@);
    }
    r
}

impl<V: Symbol> DFA<V> {
    /// The automaton with the given alphabet, initial state, final states
    /// and rows, where `transitions[q]` holds, for some symbols, the
    /// successor of state `q` on the symbol; of two entries of a row with one
    /// symbol, the first counts.
    ///
    /// The parts are checked in this order, and the first fault is reported:
    /// the initial state, the final states, then row by row the symbols of
    /// the row and after them the targets of the row.
    pub fn from_raw(
        alphabet: Vec<V>,
        initial: usize,
        finals: Vec<usize>,
        transitions: Vec<Vec<(V, usize)>>,
    ) -> (r: Result<DFA<V>, FromRawError<V>>)
        ensures
            match r {
                Ok(dfa) => dfa_raw_error(alphabet@.to_set(), initial, finals@, transitions@) is None
                    && dfa.wf() && dfa@ == raw_dfa_model(
                    alphabet@.to_set(),
                    initial,
                    finals@,
                    transitions@,
                ),
                Err(e) => dfa_raw_error(alphabet@.to_set(), initial, finals@, transitions@) == Some(
                    e,
                ),
            },
    {
        let n = transitions.len();
        if initial >= n {
            return Err(FromRawError::InvalidInitial(initial));
        }
        match find_beyond(&finals, n) {
            Some(s) => {
                return Err(FromRawError::InvalidFinal(s));
            },
            None => {},
        }
        proof {
            lemma_none_beyond(finals@, n as nat);
        }
        let kept = distinct(&alphabet);
        let mut rows: Vec<Vec<(V, usize)>> = Vec::new();
        let mut q: usize = 0;
        while q < n
            invariant
                q <= n,
                n == transitions.len(),
                initial < n,
                kept@.to_set() == alphabet@.to_set(),
                first_beyond(finals@, n as nat) is None,
                rows.len() == q,
                dfa_rows_error(alphabet@.to_set(), transitions@, 0) == dfa_rows_error(
                    alphabet@.to_set(),
                    transitions@,
                    q as int,
                ),
                forall|s: int| 0 <= s < q ==> (#[trigger] rows[s])@ == pruned(transitions[s]@),
                forall|s: int, k: int|
                    0 <= s < q && 0 <= k < transitions[s].len() ==> (
                    #[trigger] transitions[s][k]).1 < n && kept@.contains(transitions[s][k].0),
            decreases n - q,
        {
            let row = &transitions[q];
            let ghost here = dfa_row_error(alphabet@.to_set(), n as nat, q, row@);
            proof {
                assert(dfa_rows_error(alphabet@.to_set(), transitions@, q as int) == match here {
                    Some(e) => Some(e),
                    None => dfa_rows_error(alphabet@.to_set(), transitions@, q as int + 1),
                });
            }
            match find_strange(&kept, row) {
                Some(a) => {
                    assert(here == Some(FromRawError::UnknownLetter(a)));
                    return Err(FromRawError::UnknownLetter(a));
                },
                None => {},
            }
            match find_far(row, n) {
                Some(e) => {
                    assert(here == Some(FromRawError::InvalidTransition(q, e.0, e.1)));
                    return Err(FromRawError::InvalidTransition(q, e.0, e.1));
                },
                None => {},
            }
            assert(here is None);
            rows.push(prune(row));
            q += 1;
        }
        let dfa = DFA { alphabet: kept, initial, finals: flags_of(&finals, n), transitions: rows };
        proof {
            let goal = raw_dfa_model(alphabet@.to_set(), initial, finals@, transitions@);
            assert forall|s: int| dfa@.finals.contains(s) <==> goal.finals.contains(s) by {
                if goal.finals.contains(s) {
                    let i = choose|i: int| 0 <= i < finals@.len() && finals@[i] == s as usize;
                }
            }
            assert(dfa@.finals =~= goal.finals);
            assert(dfa@.edges =~= goal.edges);
            assert forall|s: int, k: int|
                0 <= s < dfa.transitions.len() && 0 <= k < dfa.transitions[s].len() implies (
            #[trigger] dfa.transitions[s][k]).1 < dfa.transitions.len() && dfa.alphabet@.contains(
                dfa.transitions[s][k].0,
            ) by {
                lemma_pruned(transitions[s]@);
                let e = dfa.transitions[s][k];
                assert(transitions[s]@.contains(pruned(transitions[s]@)[k]));
                let i = choose|i: int| 0 <= i < transitions[s]@.len() && transitions[s]@[i] == e;
                assert(transitions[s][i].1 < n);
            }
            assert forall|s: int, j: int, k: int|
                0 <= s < dfa.transitions.len() && 0 <= j < dfa.transitions[s].len() && 0 <= k
                    < dfa.transitions[s].len() && (#[trigger] dfa.transitions[s][j]).0 == (
                #[trigger] dfa.transitions[s][k]).0 implies dfa.transitions[s][j].1
                == dfa.transitions[s][k].1 by {
                lemma_pruned(transitions[s]@);
                let p = pruned(transitions[s]@);
                assert(p[j].0 == p[k].0);
            }
        }
        Ok(dfa)
    }
}

} // verus!
