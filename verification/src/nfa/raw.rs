//! Building an automaton from raw parts, with validation.
use crate::automaton::FromRawError;
use crate::model::NfaModel;
use crate::nfa::NFA;
use crate::sets::{distinct, has_symbol, lemma_push_contains, no_states};
use crate::symbol::Symbol;
use vstd::prelude::*;

verus! {

/// The first number of `list` that is not below `n`.
pub open spec fn first_beyond(list: Seq<usize>, n: nat) -> Option<usize>
    decreases list.len(),
{
    if list.len() == 0 {
        None
    } else if list[0] >= n {
        Some(list[0])
    } else {
        first_beyond(list.drop_first(), n)
    }
}

/// Without a first number beyond `n`, every number is below `n`.
pub proof fn lemma_none_beyond(list: Seq<usize>, n: nat)
    requires
        first_beyond(list, n) is None,
    ensures
        forall|i: int| 0 <= i < list.len() ==> list[i] < n,
    decreases list.len(),
{
    if list.len() > 0 {
        lemma_none_beyond(list.drop_first(), n);
        assert forall|i: int| 0 <= i < list.len() implies list[i] < n by {
            if i > 0 {
                assert(list.drop_first()[i - 1] == list[i]);
            }
        }
    }
}

/// The first number of `list` that is not below `n`.
pub fn find_beyond(list: &Vec<usize>, n: usize) -> (r: Option<usize>)
    ensures
        r == first_beyond(list@, n as nat),
{
    let mut i: usize = 0;
    proof {
        assert(list@.skip(0) =~= list@);
    }
    while i < list.len()
        invariant
            i <= list.len(),
            first_beyond(list@, n as nat) == first_beyond(list@.skip(i as int), n as nat),
        decreases list.len() - i,
    {
        proof {
            assert(list@.skip(i as int).drop_first() =~= list@.skip(i as int + 1));
        }
        if list[i] >= n {
            return Some(list[i]);
        }
        i += 1;
    }
    None
}

/// The first symbol of the entries of `row` that is not in `alphabet`.
pub open spec fn first_unknown<V>(alphabet: Set<V>, row: Seq<(V, Vec<usize>)>) -> Option<V>
    decreases row.len(),
{
    if row.len() == 0 {
        None
    } else if !alphabet.contains(row[0].0) {
        Some(row[0].0)
    } else {
        first_unknown(alphabet, row.drop_first())
    }
}

/// The first edge of `row`, the row of state `q`, whose target is not below
/// `n`: the first such target of the first entry that has one.
pub open spec fn first_stray<V>(n: nat, q: usize, row: Seq<(V, Vec<usize>)>) -> Option<
    FromRawError<V>,
>
    decreases row.len(),
{
    if row.len() == 0 {
        None
    } else {
        match first_beyond(row[0].1@, n) {
            Some(t) => Some(FromRawError::InvalidTransition(q, row[0].0, t)),
            None => first_stray(n, q, row.drop_first()),
        }
    }
}

/// What is wrong with `row`, the row of state `q`: its first unknown symbol
/// or, without one, its first edge to a target that is not a state.
pub open spec fn row_error<V>(alphabet: Set<V>, n: nat, q: usize, row: Seq<(V, Vec<usize>)>) -> Option<
    FromRawError<V>,
> {
    match first_unknown(alphabet, row) {
        Some(a) => Some(FromRawError::UnknownLetter(a)),
        None => first_stray(n, q, row),
    }
}

/// What is wrong with the rows from `from` on: the error of the first row
/// that has one.
pub open spec fn rows_error<V>(
    alphabet: Set<V>,
    rows: Seq<Vec<(V, Vec<usize>)>>,
    from: int,
) -> Option<FromRawError<V>>
    decreases rows.len() - from,
{
    if from < 0 || from >= rows.len() {
        None
    } else {
        match row_error(alphabet, rows.len(), from as usize, rows[from]@) {
            Some(e) => Some(e),
            None => rows_error(alphabet, rows, from + 1),
        }
    }
}

/// What is wrong with the raw parts: the first initial state that is not a
/// state; without one, the first such final state; without one, the error of
/// the first row that has one.
pub open spec fn raw_error<V>(
    alphabet: Set<V>,
    initials: Seq<usize>,
    finals: Seq<usize>,
    rows: Seq<Vec<(V, Vec<usize>)>>,
) -> Option<FromRawError<V>> {
    match first_beyond(initials, rows.len()) {
        Some(s) => Some(FromRawError::InvalidInitial(s)),
        None => match first_beyond(finals, rows.len()) {
            Some(s) => Some(FromRawError::InvalidFinal(s)),
            None => rows_error(alphabet, rows, 0),
        },
    }
}

/// Whether an entry of `row` has the symbol `a` and the target `t`.
pub open spec fn raw_edge<V>(row: Seq<(V, Vec<usize>)>, a: V, t: int) -> bool {
    exists|k: int, j: int|
        0 <= k < row.len() && 0 <= j < row[k].1.len() && row[k].0 == a && #[trigger] row[k].1[j]
            == t
}

/// The automaton that the raw parts describe.
pub open spec fn raw_model<V>(
    alphabet: Set<V>,
    initials: Seq<usize>,
    finals: Seq<usize>,
    rows: Seq<Vec<(V, Vec<usize>)>>,
) -> NfaModel<V> {
    NfaModel {
        alphabet,
        size: rows.len(),
        initials: Set::new(|q: int| 0 <= q <= usize::MAX && initials.contains(q as usize)),
        finals: Set::new(|q: int| 0 <= q <= usize::MAX && finals.contains(q as usize)),
        edges: Set::new(|e: (int, V, int)| 0 <= e.0 < rows.len() && raw_edge(rows[e.0]@, e.1, e.2)),
    }
}

/// One flag per state, set for the states of `list`.
pub fn flags_of(list: &Vec<usize>, n: usize) -> (r: Vec<bool>)
    requires
        forall|i: int| 0 <= i < list.len() ==> list[i] < n,
    ensures
        r.len() == n,
        forall|q: int| 0 <= q < n ==> r[q] == list@.contains(q as usize),
{
    let mut r = no_states(n);
    let mut i: usize = 0;
    while i < list.len()
        invariant
            i <= list.len(),
            r.len() == n,
            forall|j: int| 0 <= j < list.len() ==> list[j] < n,
            forall|q: int| 0 <= q < n ==> r[q] == list@.take(i as int).contains(q as usize),
        decreases list.len() - i,
    {
        let ghost before = r@;
        r.set(list[i], true);
        proof {
            assert(list@.take(i as int + 1) =~= list@.take(i as int).push(list@[i as int]));
            assert forall|q: int| 0 <= q < n implies r[q] == list@.take(i as int + 1).contains(
                q as usize,
            ) by {
                lemma_push_contains(list@.take(i as int), list@[i as int], q as usize);
            }
        }
        i += 1;
    }
    proof {
        assert(list@.take(list.len() as int) =~= list@);
    }
    r
}

/// The first symbol of the entries of `row` that is not in `alphabet`.
pub fn find_unknown<V: Symbol>(alphabet: &Vec<V>, row: &Vec<(V, Vec<usize>)>) -> (r: Option<V>)
    ensures
        r == first_unknown(alphabet@.to_set(), row@),
        r is None ==> forall|k: int| 0 <= k < row.len() ==> alphabet@.contains((#[trigger] row[k]).0),
{
    let mut k: usize = 0;
    proof {
        assert(row@.skip(0) =~= row@);
    }
    while k < row.len()
        invariant
            k <= row.len(),
            first_unknown(alphabet@.to_set(), row@) == first_unknown(
                alphabet@.to_set(),
                row@.skip(k as int),
            ),
            forall|j: int| 0 <= j < k ==> alphabet@.contains((#[trigger] row[j]).0),
        decreases row.len() - k,
    {
        proof {
            assert(row@.skip(k as int).drop_first() =~= row@.skip(k as int + 1));
        }
        if !has_symbol(alphabet, row[k].0) {
            return Some(row[k].0);
        }
        k += 1;
    }
    None
}

/// The first edge of `row`, the row of state `q`, whose target is not below
/// `n`.
pub fn find_stray<V: Symbol>(n: usize, q: usize, row: &Vec<(V, Vec<usize>)>) -> (r: Option<
    FromRawError<V>,
>)
    ensures
        r == first_stray(n as nat, q, row@),
        r is None ==> forall|k: int, j: int|
            0 <= k < row.len() && 0 <= j < row[k].1.len() ==> #[trigger] row[k].1[j] < n,
{
    let mut k: usize = 0;
    proof {
        assert(row@.skip(0) =~= row@);
    }
    while k < row.len()
        invariant
            k <= row.len(),
            first_stray(n as nat, q, row@) == first_stray(n as nat, q, row@.skip(k as int)),
            forall|i: int, j: int|
                0 <= i < k && 0 <= j < row[i].1.len() ==> #[trigger] row[i].1[j] < n,
        decreases row.len() - k,
    {
        proof {
            assert(row@.skip(k as int).drop_first() =~= row@.skip(k as int + 1));
        }
        match find_beyond(&row[k].1, n) {
            Some(t) => {
                return Some(FromRawError::InvalidTransition(q, row[k].0, t));
            },
            None => {
                proof {
                    lemma_none_beyond(row[k as int].1@, n as nat);
                }
            },
        }
        k += 1;
    }
    None
}

/// The edges of the entries of `row`, one by one.
pub fn flatten<V: Symbol>(row: &Vec<(V, Vec<usize>)>) -> (r: Vec<(V, usize)>)
    ensures
        forall|a: V, t: usize| #[trigger] r@.contains((a, t)) <==> raw_edge(row@, a, t as int),
{
    let mut r: Vec<(V, usize)> = Vec::new();
    let mut k: usize = 0;
    while k < row.len()
        invariant
            k <= row.len(),
            forall|a: V, t: usize|
                #[trigger] r@.contains((a, t)) <==> raw_edge(row@.take(k as int), a, t as int),
        decreases row.len() - k,
    {
        let a = row[k].0;
        let targets = &row[k].1;
        let ghost at_entry = r@;
        let mut j: usize = 0;
        while j < targets.len()
            invariant
                k < row.len(),
                a == row[k as int].0,
                targets == row[k as int].1,
                j <= targets.len(),
                forall|x: V, t: usize|
                    #[trigger] r@.contains((x, t)) <==> (at_entry.contains((x, t)) || (x == a
                        && targets@.take(j as int).contains(t))),
            decreases targets.len() - j,
        {
            let ghost before = r@;
            let target = targets[j];
            r.push((a, target));
            proof {
                assert(targets@.take(j as int + 1) =~= targets@.take(j as int).push(target));
                assert forall|x: V, t: usize|
                    #[trigger] r@.contains((x, t)) <==> (at_entry.contains((x, t)) || (x == a
                        && targets@.take(j as int + 1).contains(t))) by {
                    lemma_push_contains(before, (a, target), (x, t));
                    lemma_push_contains(targets@.take(j as int), target, t);
                    assert(before.contains((x, t)) <==> (at_entry.contains((x, t)) || (x == a
                        && targets@.take(j as int).contains(t))));
                }
            }
            j += 1;
        }
        proof {
            assert(targets@.take(targets.len() as int) =~= targets@);
            assert forall|x: V, t: usize|
                #[trigger] r@.contains((x, t)) <==> raw_edge(
                    row@.take(k as int + 1),
                    x,
                    t as int,
                ) by {
                let short = row@.take(k as int);
                let long = row@.take(k as int + 1);
                if raw_edge(short, x, t as int) {
                    let (k0, j0) = choose|k0: int, j0: int|
                        0 <= k0 < short.len() && 0 <= j0 < short[k0].1.len() && short[k0].0 == x
                            && #[trigger] short[k0].1[j0] == t as int;
                    assert(long[k0].0 == x && long[k0].1[j0] == t as int);
                }
                if x == a && targets@.contains(t) {
                    let j0 = choose|j0: int| 0 <= j0 < targets@.len() && targets@[j0] == t;
                    assert(long[k as int].0 == x && long[k as int].1[j0] == t as int);
                }
                if raw_edge(long, x, t as int) {
                    let (k0, j0) = choose|k0: int, j0: int|
                        0 <= k0 < long.len() && 0 <= j0 < long[k0].1.len() && long[k0].0 == x
                            && #[trigger] long[k0].1[j0] == t as int;
                    if k0 < k {
                        assert(short[k0].0 == x && short[k0].1[j0] == t as int);
                    } else {
                        assert(targets@[j0] == t);
                    }
                }
            }
        }
        k += 1;
    }
    proof {
        assert(row@.take(row.len() as int) =~= row@);
    }
    r
}

impl<V: Symbol> NFA<V> {
    /// The automaton with the given alphabet, initial states, final states
    /// and rows, where `transitions[q]` holds, for some symbols, the list of
    /// the successors of state `q` on the symbol.
    ///
    /// The parts are checked in this order, and the first fault is reported:
    /// the initial states, the final states, then row by row the symbols of
    /// the row and after them the targets of the row.
    pub fn from_raw(
        alphabet: Vec<V>,
        initials: Vec<usize>,
        finals: Vec<usize>,
        transitions: Vec<Vec<(V, Vec<usize>)>>,
    ) -> (r: Result<NFA<V>, FromRawError<V>>)
        ensures
            match r {
                Ok(nfa) => raw_error(alphabet@.to_set(), initials@, finals@, transitions@) is None
                    && nfa.wf() && nfa@ == raw_model(
                    alphabet@.to_set(),
                    initials@,
                    finals@,
                    transitions@,
                ),
                Err(e) => raw_error(alphabet@.to_set(), initials@, finals@, transitions@) == Some(e),
            },
    {
        let n = transitions.len();
        match find_beyond(&initials, n) {
            Some(s) => {
                return Err(FromRawError::InvalidInitial(s));
            },
            None => {},
        }
        match find_beyond(&finals, n) {
            Some(s) => {
                return Err(FromRawError::InvalidFinal(s));
            },
            None => {},
        }
        proof {
            lemma_none_beyond(initials@, n as nat);
            lemma_none_beyond(finals@, n as nat);
        }
        let kept = distinct(&alphabet);
        let mut rows: Vec<Vec<(V, usize)>> = Vec::new();
        let mut q: usize = 0;
        while q < n
            invariant
                q <= n,
                n == transitions.len(),
                kept@.to_set() == alphabet@.to_set(),
                first_beyond(initials@, n as nat) is None,
                first_beyond(finals@, n as nat) is None,
                rows.len() == q,
                rows_error(alphabet@.to_set(), transitions@, 0) == rows_error(
                    alphabet@.to_set(),
                    transitions@,
                    q as int,
                ),
                forall|s: int, a: V, t: usize|
                    0 <= s < q ==> ((#[trigger] rows[s]@.contains((a, t))) <==> raw_edge(
                        transitions[s]@,
                        a,
                        t as int,
                    )),
                forall|s: int, a: V, t: usize|
                    0 <= s < q && #[trigger] rows[s]@.contains((a, t)) ==> t < n
                        && kept@.contains(a),
            decreases n - q,
        {
            let row = &transitions[q];
            let ghost here = row_error(alphabet@.to_set(), n as nat, q, row@);
            proof {
                assert(rows_error(alphabet@.to_set(), transitions@, q as int) == match here {
                    Some(e) => Some(e),
                    None => rows_error(alphabet@.to_set(), transitions@, q as int + 1),
                });
            }
            match find_unknown(&kept, row) {
                Some(a) => {
                    assert(here == Some(FromRawError::UnknownLetter(a)));
                    return Err(FromRawError::UnknownLetter(a));
                },
                None => {},
            }
            match find_stray(n, q, row) {
                Some(e) => {
                    assert(here == Some(e));
                    return Err(e);
                },
                None => {},
            }
            assert(here is None);
            let flat = flatten(row);
            proof {
                assert forall|a: V, t: usize| #[trigger] flat@.contains((a, t)) implies t < n
                    && kept@.contains(a) by {
                    let (k0, j0) = choose|k0: int, j0: int|
                        0 <= k0 < row@.len() && 0 <= j0 < row@[k0].1.len() && row@[k0].0 == a
                            && #[trigger] row@[k0].1[j0] == t as int;
                    assert(row[k0].1[j0] < n);
                    assert(kept@.contains(row[k0].0));
                }
            }
            rows.push(flat);
            q += 1;
        }
        let nfa = NFA {
            alphabet: kept,
            initials: flags_of(&initials, n),
            finals: flags_of(&finals, n),
            transitions: rows,
        };
        proof {
            let goal = raw_model(alphabet@.to_set(), initials@, finals@, transitions@);
            assert forall|s: int| nfa@.initials.contains(s) <==> goal.initials.contains(s) by {
                if goal.initials.contains(s) {
                    let i = choose|i: int| 0 <= i < initials@.len() && initials@[i] == s as usize;
                }
            }
            assert(nfa@.initials =~= goal.initials);
            assert forall|s: int| nfa@.finals.contains(s) <==> goal.finals.contains(s) by {
                if goal.finals.contains(s) {
                    let i = choose|i: int| 0 <= i < finals@.len() && finals@[i] == s as usize;
                }
            }
            assert(nfa@.finals =~= goal.finals);
            assert forall|e: (int, V, int)| nfa@.edges.contains(e) <==> goal.edges.contains(e) by {
                if 0 <= e.0 < n {
                    if 0 <= e.2 <= usize::MAX {
                        assert(nfa.transitions[e.0]@.contains((e.1, e.2 as usize)) <==> raw_edge(
                            transitions[e.0]@,
                            e.1,
                            e.2,
                        ));
                    } else if raw_edge(transitions[e.0]@, e.1, e.2) {
                        let row = transitions[e.0]@;
                        let (k0, j0) = choose|k0: int, j0: int|
                            0 <= k0 < row.len() && 0 <= j0 < row[k0].1.len() && row[k0].0 == e.1
                                && #[trigger] row[k0].1[j0] == e.2;
                    }
                }
            }
            assert(nfa@.edges =~= goal.edges);
            nfa.lemma_wf_by_rows(n as int);
        }
        Ok(nfa)
    }
}

} // verus!
