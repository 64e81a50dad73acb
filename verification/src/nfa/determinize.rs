//! Making an automaton deterministic by the subset construction.
use crate::determinism::{
    found_before, found_earlier, gives, in_discovery_order, inhabited, is_determinized,
    is_subset_automaton, numbered_by,
    lemma_empty_dfa_language, lemma_subset_automaton_wf, lemma_subset_language,
    lemma_subset_reachable, meets, pair_before,
};
use crate::dfa::DFA;
use crate::model::{DfaModel, NfaModel};
use crate::nfa::closure::leaves;
use crate::nfa::{edges_of, NFA};
use crate::sets::{any_marked, copy_flags, copy_symbols, marked, overlap};
use crate::subsets::{lemma_distinct_flags_bound, ListTable, Mask, MaskTable, SubsetTable};
use crate::symbol::Symbol;
use vstd::arithmetic::power2::pow2;
use vstd::prelude::*;

verus! {

/// Every edge of `row`, the row of state `j`, is labelled by a symbol of
/// `alphabet` and leads to the state whose subset is the set of the
/// successors of the subset of `j`, which is not empty.
#[verifier::opaque]
pub open spec fn row_sound<V>(
    m: NfaModel<V>,
    alphabet: Seq<V>,
    entries: Seq<Seq<bool>>,
    j: int,
    row: Seq<(V, usize)>,
) -> bool {
    forall|k: int|
        0 <= k < row.len() ==> {
            &&& alphabet.contains((#[trigger] row[k]).0)
            &&& row[k].1 < entries.len()
            &&& marked(entries[row[k].1 as int]) =~= m.step(marked(entries[j]), row[k].0)
            &&& inhabited(marked(entries[row[k].1 as int]))
        }
}

/// `row`, the row of state `j`, holds an edge for each of the first `upto`
/// symbols of `alphabet` on which the subset of `j` has a successor.
#[verifier::opaque]
pub open spec fn row_full<V>(
    m: NfaModel<V>,
    alphabet: Seq<V>,
    upto: int,
    entries: Seq<Seq<bool>>,
    j: int,
    row: Seq<(V, usize)>,
) -> bool {
    forall|i: int|
        0 <= i < upto && inhabited(m.step(marked(entries[j]), #[trigger] alphabet[i])) ==> leaves(
            row,
            alphabet[i],
        )
}

/// The subsets found so far: the table numbers them as `subsets` holds
/// them, each has one flag per state, no two are the same, the first is the
/// set of the initial states, and `finals` flags those that hold a final
/// state.
#[verifier::opaque]
pub open spec fn numbered<V>(
    m: NfaModel<V>,
    initials: Seq<bool>,
    entries: Seq<Seq<bool>>,
    subsets: Seq<Vec<bool>>,
    finals: Seq<bool>,
) -> bool {
    &&& entries.len() == subsets.len()
    &&& finals.len() == subsets.len()
    &&& entries.len() > 0
    &&& entries[0] == initials
    &&& forall|j: int| 0 <= j < subsets.len() ==> (#[trigger] subsets[j])@ == entries[j]
    &&& forall|j: int| 0 <= j < entries.len() ==> (#[trigger] entries[j]).len() == m.size
    &&& forall|i: int, j: int|
        0 <= i < j < entries.len() ==> #[trigger] entries[i] != #[trigger] entries[j]
    &&& forall|j: int| 0 <= j < finals.len() ==> #[trigger] finals[j] == meets(
        marked(entries[j]),
        m.finals,
    )
    &&& forall|t: int| 0 < t < entries.len() ==> #[trigger] found(m, entries, t)
}

/// The subset numbered `t` is not empty, and is the set of the successors,
/// on some symbol, of a subset with a lower number.
pub open spec fn found<V>(m: NfaModel<V>, entries: Seq<Seq<bool>>, t: int) -> bool {
    &&& inhabited(marked(entries[t]))
    &&& exists|j: int, a: V|
        0 <= j < t && m.alphabet.contains(a) && marked(entries[t]) =~= #[trigger] m.step(
            marked(entries[j]),
            a,
        )
}

/// The rows built so far are sound and full.
#[verifier::opaque]
pub open spec fn rows_done<V>(
    m: NfaModel<V>,
    alphabet: Seq<V>,
    entries: Seq<Seq<bool>>,
    rows: Seq<Vec<(V, usize)>>,
) -> bool {
    &&& rows.len() <= entries.len()
    &&& forall|j: int| 0 <= j < rows.len() ==> row_sound(m, alphabet, entries, j, (#[trigger] rows[j])@)
    &&& forall|j: int|
        0 <= j < rows.len() ==> row_full(
            m,
            alphabet,
            alphabet.len() as int,
            entries,
            j,
            (#[trigger] rows[j])@,
        )
}

/// The numbering after the first subset, that of the initial states.
pub proof fn lemma_numbered_first<V>(
    m: NfaModel<V>,
    initials: Seq<bool>,
    entries: Seq<Seq<bool>>,
    subsets: Seq<Vec<bool>>,
    finals: Seq<bool>,
)
    requires
        initials.len() == m.size,
        entries =~= seq![initials],
        subsets.len() == 1,
        subsets[0]@ == initials,
        finals =~= seq![meets(marked(initials), m.finals)],
    ensures
        numbered(m, initials, entries, subsets, finals),
        rows_done(m, Seq::<V>::empty(), entries, Seq::<Vec<(V, usize)>>::empty()),
{
    reveal(numbered);
    reveal(rows_done);
}

/// Before any row is built, the rows are done.
pub proof fn lemma_rows_done_none<V>(m: NfaModel<V>, alphabet: Seq<V>, entries: Seq<Seq<bool>>)
    ensures
        rows_done(m, alphabet, entries, Seq::<Vec<(V, usize)>>::empty()),
{
    reveal(rows_done);
}

/// What the numbering says of the subset numbered `j`.
pub proof fn lemma_numbered_use<V>(
    m: NfaModel<V>,
    initials: Seq<bool>,
    entries: Seq<Seq<bool>>,
    subsets: Seq<Vec<bool>>,
    finals: Seq<bool>,
    j: int,
)
    requires
        numbered(m, initials, entries, subsets, finals),
        0 <= j < subsets.len(),
    ensures
        entries.len() == subsets.len(),
        finals.len() == subsets.len(),
        subsets[j]@ == entries[j],
        entries[j].len() == m.size,
        entries.len() <= pow2(m.size),
{
    reveal(numbered);
    lemma_distinct_flags_bound(entries, m.size);
}

/// Every subset that is numbered has one flag per state, and no two are the
/// same.
pub proof fn lemma_numbered_all<V>(
    m: NfaModel<V>,
    initials: Seq<bool>,
    entries: Seq<Seq<bool>>,
    subsets: Seq<Vec<bool>>,
    finals: Seq<bool>,
)
    requires
        numbered(m, initials, entries, subsets, finals),
    ensures
        forall|j: int| 0 <= j < entries.len() ==> (#[trigger] entries[j]).len() == m.size,
{
    reveal(numbered);
}

/// The numbering after one more subset.
pub proof fn lemma_numbered_grow<V>(
    m: NfaModel<V>,
    initials: Seq<bool>,
    entries: Seq<Seq<bool>>,
    subsets: Seq<Vec<bool>>,
    finals: Seq<bool>,
    next: Vec<bool>,
    fin: bool,
)
    requires
        numbered(m, initials, entries, subsets, finals),
        next.len() == m.size,
        forall|j: int| 0 <= j < entries.len() ==> entries[j] != next@,
        fin == meets(marked(next@), m.finals),
        inhabited(marked(next@)),
        exists|j: int, a: V|
            0 <= j < entries.len() && m.alphabet.contains(a) && marked(next@) =~= #[trigger] m.step(
                marked(entries[j]),
                a,
            ),
    ensures
        numbered(m, initials, entries.push(next@), subsets.push(next), finals.push(fin)),
{
    reveal(numbered);
    let e2 = entries.push(next@);
    let s2 = subsets.push(next);
    let f2 = finals.push(fin);
    assert forall|t: int| 0 < t < e2.len() implies #[trigger] found(m, e2, t) by {
        if t < entries.len() {
            assert(found(m, entries, t));
            let (j, a) = choose|j: int, a: V|
                0 <= j < t && m.alphabet.contains(a) && marked(entries[t]) =~= #[trigger] m.step(
                    marked(entries[j]),
                    a,
                );
            assert(e2[j] == entries[j] && e2[t] == entries[t]);
            assert(0 <= j < t && m.alphabet.contains(a) && marked(e2[t]) =~= m.step(
                marked(e2[j]),
                a,
            ));
        } else {
            let (j, a) = choose|j: int, a: V|
                0 <= j < entries.len() && m.alphabet.contains(a) && marked(next@)
                    =~= #[trigger] m.step(marked(entries[j]), a);
            assert(e2[j] == entries[j]);
            assert(0 <= j < t && m.alphabet.contains(a) && marked(e2[t]) =~= m.step(
                marked(e2[j]),
                a,
            ));
        }
    }
    assert forall|j: int| 0 <= j < s2.len() implies (#[trigger] s2[j])@ == e2[j] by {
        if j < subsets.len() {
            assert(s2[j] == subsets[j]);
        }
    }
    assert forall|i: int, j: int| 0 <= i < j < e2.len() implies #[trigger] e2[i]
        != #[trigger] e2[j] by {
        if j < entries.len() {
            assert(entries[i] != entries[j]);
        }
    }
    assert forall|j: int| 0 <= j < f2.len() implies #[trigger] f2[j] == meets(
        marked(e2[j]),
        m.finals,
    ) by {
        if j < finals.len() {
            assert(f2[j] == finals[j]);
        }
    }
}

/// Rows that were done stay done when one more subset is numbered.
pub proof fn lemma_rows_done_grow<V>(
    m: NfaModel<V>,
    alphabet: Seq<V>,
    entries: Seq<Seq<bool>>,
    more: Seq<bool>,
    rows: Seq<Vec<(V, usize)>>,
)
    requires
        rows_done(m, alphabet, entries, rows),
    ensures
        rows_done(m, alphabet, entries.push(more), rows),
{
    reveal(rows_done);
    let grown = entries.push(more);
    assert forall|j: int| 0 <= j < rows.len() implies row_sound(
        m,
        alphabet,
        grown,
        j,
        (#[trigger] rows[j])@,
    ) by {
        lemma_row_sound_grow(m, alphabet, entries, more, j, rows[j]@);
    }
    assert forall|j: int| 0 <= j < rows.len() implies row_full(
        m,
        alphabet,
        alphabet.len() as int,
        grown,
        j,
        (#[trigger] rows[j])@,
    ) by {
        lemma_row_full_grow(m, alphabet, alphabet.len() as int, entries, more, j, rows[j]@);
    }
}

/// A row that was sound stays sound when one more subset is numbered.
pub proof fn lemma_row_sound_grow<V>(
    m: NfaModel<V>,
    alphabet: Seq<V>,
    entries: Seq<Seq<bool>>,
    more: Seq<bool>,
    j: int,
    row: Seq<(V, usize)>,
)
    requires
        0 <= j < entries.len(),
        row_sound(m, alphabet, entries, j, row),
    ensures
        row_sound(m, alphabet, entries.push(more), j, row),
{
    reveal(row_sound);
    let grown = entries.push(more);
    assert forall|k: int| 0 <= k < row.len() implies alphabet.contains((#[trigger] row[k]).0)
        && row[k].1 < grown.len() && marked(grown[row[k].1 as int]) =~= m.step(
        marked(grown[j]),
        row[k].0,
    ) && inhabited(marked(grown[row[k].1 as int])) by {
        assert(grown[row[k].1 as int] == entries[row[k].1 as int]);
        assert(grown[j] == entries[j]);
    }
}

/// A row that was full stays full when one more subset is numbered.
pub proof fn lemma_row_full_grow<V>(
    m: NfaModel<V>,
    alphabet: Seq<V>,
    upto: int,
    entries: Seq<Seq<bool>>,
    more: Seq<bool>,
    j: int,
    row: Seq<(V, usize)>,
)
    requires
        0 <= j < entries.len(),
        row_full(m, alphabet, upto, entries, j, row),
    ensures
        row_full(m, alphabet, upto, entries.push(more), j, row),
{
    reveal(row_full);
    assert(entries.push(more)[j] == entries[j]);
}

/// The row of `head` after the edge for the symbol at place `i` is pushed.
pub proof fn lemma_row_push<V>(
    m: NfaModel<V>,
    alphabet: Seq<V>,
    i: int,
    entries: Seq<Seq<bool>>,
    head: int,
    row: Seq<(V, usize)>,
    id: usize,
)
    requires
        0 <= i < alphabet.len(),
        row_sound(m, alphabet, entries, head, row),
        row_full(m, alphabet, i, entries, head, row),
        id < entries.len(),
        marked(entries[id as int]) =~= m.step(marked(entries[head]), alphabet[i]),
        inhabited(marked(entries[id as int])),
    ensures
        row_sound(m, alphabet, entries, head, row.push((alphabet[i], id))),
        row_full(m, alphabet, i + 1, entries, head, row.push((alphabet[i], id))),
{
    reveal(row_sound);
    reveal(row_full);
    let a = alphabet[i];
    let row2 = row.push((a, id));
    assert forall|k: int| 0 <= k < row2.len() implies alphabet.contains((#[trigger] row2[k]).0)
        && row2[k].1 < entries.len() && marked(entries[row2[k].1 as int]) =~= m.step(
        marked(entries[head]),
        row2[k].0,
    ) && inhabited(marked(entries[row2[k].1 as int])) by {
        if k < row.len() {
            assert(row2[k] == row[k]);
        }
    }
    assert forall|i2: int|
        0 <= i2 < i + 1 && inhabited(
            m.step(marked(entries[head]), #[trigger] alphabet[i2]),
        ) implies leaves(row2, alphabet[i2]) by {
        if i2 < i {
            assert(leaves(row, alphabet[i2]));
            let k = choose|k: int| 0 <= k < row.len() && (#[trigger] row[k]).0 == alphabet[i2];
            assert(row2[k].0 == alphabet[i2]);
        } else {
            assert(row2[row2.len() - 1].0 == a);
        }
    }
}

/// The row of `head` where the symbol at place `i` has no successor.
pub proof fn lemma_row_skip<V>(
    m: NfaModel<V>,
    alphabet: Seq<V>,
    i: int,
    entries: Seq<Seq<bool>>,
    head: int,
    row: Seq<(V, usize)>,
)
    requires
        0 <= i < alphabet.len(),
        row_full(m, alphabet, i, entries, head, row),
        !inhabited(m.step(marked(entries[head]), alphabet[i])),
    ensures
        row_full(m, alphabet, i + 1, entries, head, row),
{
    reveal(row_full);
}

/// The empty row is sound, and full for no symbol.
pub proof fn lemma_row_start<V>(
    m: NfaModel<V>,
    alphabet: Seq<V>,
    entries: Seq<Seq<bool>>,
    head: int,
)
    ensures
        row_sound(m, alphabet, entries, head, Seq::<(V, usize)>::empty()),
        row_full(m, alphabet, 0, entries, head, Seq::<(V, usize)>::empty()),
{
    reveal(row_sound);
    reveal(row_full);
}

/// The rows after the row of the next state is pushed.
pub proof fn lemma_rows_done_push<V>(
    m: NfaModel<V>,
    alphabet: Seq<V>,
    entries: Seq<Seq<bool>>,
    rows: Seq<Vec<(V, usize)>>,
    row: Vec<(V, usize)>,
)
    requires
        rows_done(m, alphabet, entries, rows),
        rows.len() < entries.len(),
        row_sound(m, alphabet, entries, rows.len() as int, row@),
        row_full(m, alphabet, alphabet.len() as int, entries, rows.len() as int, row@),
    ensures
        rows_done(m, alphabet, entries, rows.push(row)),
{
    reveal(rows_done);
    let rows2 = rows.push(row);
    assert forall|j: int| 0 <= j < rows2.len() implies row_sound(
        m,
        alphabet,
        entries,
        j,
        (#[trigger] rows2[j])@,
    ) by {
        if j < rows.len() {
            assert(rows2[j] == rows[j]);
        }
    }
    assert forall|j: int| 0 <= j < rows2.len() implies row_full(
        m,
        alphabet,
        alphabet.len() as int,
        entries,
        j,
        (#[trigger] rows2[j])@,
    ) by {
        if j < rows.len() {
            assert(rows2[j] == rows[j]);
        }
    }
}

/// Once every subset has its row, the rows and flags are those of the subset
/// automaton.
pub proof fn lemma_rows_are_subset_automaton<V>(
    m: NfaModel<V>,
    alphabet: Seq<V>,
    initials: Seq<bool>,
    entries: Seq<Seq<bool>>,
    subsets: Seq<Vec<bool>>,
    finals: Seq<bool>,
    rows: Seq<Vec<(V, usize)>>,
    d: DfaModel<V>,
) -> (subs: Seq<Set<int>>)
    requires
        m.wf(),
        m.alphabet == alphabet.to_set(),
        m.initials == marked(initials),
        numbered(m, initials, entries, subsets, finals),
        rows_done(m, alphabet, entries, rows),
        rows.len() == entries.len(),
        d.alphabet == m.alphabet,
        d.size == rows.len(),
        d.initial == 0,
        d.finals == marked(finals),
        d.edges == edges_of(rows),
    ensures
        is_subset_automaton(m, d, subs),
        subs.len() == entries.len(),
        forall|t: int| 0 <= t < subs.len() ==> #[trigger] subs[t] == marked(entries[t]),
{
    reveal(numbered);
    reveal(rows_done);
    reveal(row_sound);
    reveal(row_full);
    let n = m.size;
    let subs = Seq::new(entries.len(), |j: int| marked(entries[j]));
    assert forall|i: int, j: int| 0 <= i < j < subs.len() implies !(#[trigger] subs[i]
        =~= #[trigger] subs[j]) by {
        if subs[i] =~= subs[j] {
            assert(entries[i].len() == n && entries[j].len() == n);
            assert forall|q: int| 0 <= q < n implies entries[i][q] == entries[j][q] by {
                assert(marked(entries[i]).contains(q) == marked(entries[j]).contains(q));
            }
            assert(entries[i] =~= entries[j]);
            assert(entries[i] != entries[j]);
        }
    }
    assert forall|j: int, a: V, t: int| #[trigger] d.edges.contains((j, a, t)) implies 0 <= j
        < subs.len() && 0 <= t < subs.len() && m.alphabet.contains(a) && subs[t] =~= m.step(
        subs[j],
        a,
    ) && inhabited(subs[t]) by {
        let row = rows[j]@;
        let k = choose|k: int| 0 <= k < row.len() && row[k] == (a, t as usize);
        assert(row_sound(m, alphabet, entries, j, row));
        assert(alphabet.contains(row[k].0));
    }
    assert forall|j: int, a: V|
        0 <= j < subs.len() && inhabited(#[trigger] m.step(subs[j], a)) implies d.to_nfa().has_successor(
        j,
        a,
    ) by {
        let row = rows[j]@;
        let q = choose|q: int| m.step(subs[j], a).contains(q);
        let p = choose|p: int| subs[j].contains(p) && #[trigger] m.edges.contains((p, a, q));
        assert(m.alphabet.contains(a));
        assert(alphabet.contains(a));
        let i = choose|i: int| 0 <= i < alphabet.len() && alphabet[i] == a;
        assert(row_full(m, alphabet, alphabet.len() as int, entries, j, row));
        assert(subs[j] == marked(entries[j]));
        assert(inhabited(m.step(marked(entries[j]), alphabet[i])));
        assert(leaves(row, alphabet[i]));
        let k = choose|k: int| 0 <= k < row.len() && (#[trigger] row[k]).0 == a;
        assert(row_sound(m, alphabet, entries, j, row));
        let t = row[k].1;
        assert(row[k] == (a, t));
        assert(row.contains((a, t)));
        assert(d.edges.contains((j, a, t as int)));
        assert(d.to_nfa().edges.contains((j, a, t as int)));
    }
    assert forall|j: int| #[trigger]
        d.finals.contains(j) <==> 0 <= j < subs.len() && meets(subs[j], m.finals) by {
        if 0 <= j < subs.len() {
            assert(finals[j] == meets(marked(entries[j]), m.finals));
        }
    }
    assert(subs[0] =~= m.initials);
    assert forall|t: int| 0 < t < subs.len() implies #[trigger] found_earlier(m, subs, t) by {
        assert(found(m, entries, t));
        let (j, a) = choose|j: int, a: V|
            0 <= j < t && m.alphabet.contains(a) && marked(entries[t]) =~= #[trigger] m.step(
                marked(entries[j]),
                a,
            );
        assert(0 <= j < t && m.alphabet.contains(a) && subs[t] =~= m.step(subs[j], a));
    }
    subs
}

/// The subsets are numbered in the order in which they were found, up to
/// the pair of the subset `head` and the place `at`, which is the next to be
/// tried: `origins` holds, for each subset but the first, the pair that gave
/// it; that pair comes before the next one, no pair before it gives the
/// subset, and the pairs of the subsets come in the order of the numbers.
#[verifier::opaque]
pub open spec fn ordered<V>(
    m: NfaModel<V>,
    letters: Seq<V>,
    entries: Seq<Seq<bool>>,
    origins: Seq<(int, int)>,
    head: int,
    at: int,
) -> bool {
    &&& origins.len() == entries.len()
    &&& forall|t: int|
        0 < t < entries.len() ==> {
            &&& 0 <= (#[trigger] origins[t]).0 < t
            &&& 0 <= origins[t].1 < letters.len()
            &&& marked(entries[t]) =~= m.step(marked(entries[origins[t].0]), letters[origins[t].1])
            &&& pair_before(origins[t].0, origins[t].1, head, at)
        }
    &&& forall|s: int, t: int|
        0 < s < t < entries.len() ==> pair_before(
            (#[trigger] origins[s]).0,
            origins[s].1,
            (#[trigger] origins[t]).0,
            origins[t].1,
        )
    &&& forall|t: int, j: int, i: int|
        0 < t < entries.len() && 0 <= j && 0 <= i < letters.len() && pair_before(
            j,
            i,
            origins[t].0,
            origins[t].1,
        ) ==> !#[trigger] given_by(m, letters, entries, t, j, i)
}

/// The subset numbered `t` is the set of the successors of the subset
/// numbered `j` on the symbol at place `i`.
pub open spec fn given_by<V>(
    m: NfaModel<V>,
    letters: Seq<V>,
    entries: Seq<Seq<bool>>,
    t: int,
    j: int,
    i: int,
) -> bool {
    marked(entries[t]) =~= m.step(marked(entries[j]), letters[i])
}

/// The successors that the pairs before the pair of `head` and `at` give
/// are numbered where there are any.
pub open spec fn all_known<V>(
    m: NfaModel<V>,
    letters: Seq<V>,
    entries: Seq<Seq<bool>>,
    head: int,
    at: int,
) -> bool {
    forall|j: int, i: int|
        0 <= j && 0 <= i < letters.len() && pair_before(j, i, head, at) && inhabited(
            #[trigger] m.step(marked(entries[j]), letters[i]),
        ) ==> exists|t: int|
            0 <= t < entries.len() && #[trigger] marked(entries[t]) =~= m.step(
                marked(entries[j]),
                letters[i],
            )
}

/// With the first subset alone, the numbering is in order.
pub proof fn lemma_ordered_first<V>(m: NfaModel<V>, letters: Seq<V>, entries: Seq<Seq<bool>>)
    requires
        entries.len() == 1,
    ensures
        ordered(m, letters, entries, seq![(0int, 0int)], 0, 0),
{
    reveal(ordered);
}

/// A numbering in order stays in order when a later pair is the next.
pub proof fn lemma_ordered_advance<V>(
    m: NfaModel<V>,
    letters: Seq<V>,
    entries: Seq<Seq<bool>>,
    origins: Seq<(int, int)>,
    head: int,
    at: int,
    head2: int,
    at2: int,
)
    requires
        ordered(m, letters, entries, origins, head, at),
        pair_before(head, at, head2, at2) || (head == head2 && at == at2),
    ensures
        ordered(m, letters, entries, origins, head2, at2),
{
    reveal(ordered);
}

/// The successors that earlier pairs give are numbered: those of the rows
/// that are done, and those of the row in the making up to the place `at`.
pub proof fn lemma_all_known<V>(
    m: NfaModel<V>,
    letters: Seq<V>,
    entries: Seq<Seq<bool>>,
    rows: Seq<Vec<(V, usize)>>,
    row: Seq<(V, usize)>,
    at: int,
)
    requires
        rows_done(m, letters, entries, rows),
        rows.len() < entries.len(),
        0 <= at <= letters.len(),
        row_sound(m, letters, entries, rows.len() as int, row),
        row_full(m, letters, at, entries, rows.len() as int, row),
    ensures
        all_known(m, letters, entries, rows.len() as int, at),
{
    reveal(rows_done);
    reveal(row_sound);
    reveal(row_full);
    let head = rows.len() as int;
    assert forall|j: int, i: int|
        0 <= j && 0 <= i < letters.len() && pair_before(j, i, head, at) && inhabited(
            #[trigger] m.step(marked(entries[j]), letters[i]),
        ) implies exists|t: int|
        0 <= t < entries.len() && #[trigger] marked(entries[t]) =~= m.step(
            marked(entries[j]),
            letters[i],
        ) by {
        let r = if j < head {
            rows[j]@
        } else {
            row
        };
        if j < head {
            assert(row_full(m, letters, letters.len() as int, entries, j, rows[j]@));
            assert(row_sound(m, letters, entries, j, rows[j]@));
        }
        assert(inhabited(m.step(marked(entries[j]), letters[i])));
        assert(leaves(r, letters[i]));
        let k = choose|k: int| 0 <= k < r.len() && (#[trigger] r[k]).0 == letters[i];
        let t = r[k].1 as int;
        assert(marked(entries[t]) =~= m.step(marked(entries[j]), r[k].0));
    }
}

/// A numbering in order after one more subset, found by the pair of `head`
/// and `at`.
pub proof fn lemma_ordered_grow<V>(
    m: NfaModel<V>,
    letters: Seq<V>,
    entries: Seq<Seq<bool>>,
    origins: Seq<(int, int)>,
    head: int,
    at: int,
    next: Seq<bool>,
)
    requires
        ordered(m, letters, entries, origins, head, at),
        all_known(m, letters, entries, head, at),
        0 <= head < entries.len(),
        0 <= at < letters.len(),
        forall|j: int| 0 <= j < entries.len() ==> (#[trigger] entries[j]).len() == next.len(),
        forall|j: int| 0 <= j < entries.len() ==> entries[j] != next,
        inhabited(marked(next)),
        marked(next) =~= m.step(marked(entries[head]), letters[at]),
    ensures
        ordered(m, letters, entries.push(next), origins.push((head, at)), head, at + 1),
{
    reveal(ordered);
    let e2 = entries.push(next);
    let o2 = origins.push((head, at));
    let new = entries.len() as int;
    assert forall|t: int| 0 < t < e2.len() implies 0 <= (#[trigger] o2[t]).0 < t && 0 <= o2[t].1
        < letters.len() && marked(e2[t]) =~= m.step(marked(e2[o2[t].0]), letters[o2[t].1])
        && pair_before(o2[t].0, o2[t].1, head, at + 1) by {
        if t < new {
            assert(o2[t] == origins[t]);
            assert(e2[t] == entries[t]);
            assert(e2[origins[t].0] == entries[origins[t].0]);
        } else {
            assert(e2[head] == entries[head]);
        }
    }
    assert forall|s: int, t: int| 0 < s < t < e2.len() implies pair_before(
        (#[trigger] o2[s]).0,
        o2[s].1,
        (#[trigger] o2[t]).0,
        o2[t].1,
    ) by {
        assert(o2[s] == origins[s]);
        if t < new {
            assert(o2[t] == origins[t]);
        }
    }
    assert forall|t: int, j: int, i: int|
        0 < t < e2.len() && 0 <= j && 0 <= i < letters.len() && pair_before(
            j,
            i,
            o2[t].0,
            o2[t].1,
        ) implies !#[trigger] given_by(m, letters, e2, t, j, i) by {
        if t < new {
            assert(o2[t] == origins[t]);
            assert(e2[t] == entries[t]);
            assert(e2[j] == entries[j]);
            assert(!given_by(m, letters, entries, t, j, i));
        } else {
            assert(e2[j] == entries[j]);
            if marked(next) =~= m.step(marked(entries[j]), letters[i]) {
                assert(inhabited(m.step(marked(entries[j]), letters[i])));
                let x = choose|x: int|
                    0 <= x < entries.len() && #[trigger] marked(entries[x]) =~= m.step(
                        marked(entries[j]),
                        letters[i],
                    );
                assert forall|q: int| 0 <= q < next.len() implies entries[x][q] == next[q] by {
                    assert(marked(entries[x]).contains(q) == marked(next).contains(q));
                }
                assert(entries[x] =~= next);
            }
        }
    }
}

/// A numbering in order, once every pair has been tried, is the order of
/// discovery.
pub proof fn lemma_ordered_final<V>(
    m: NfaModel<V>,
    letters: Seq<V>,
    entries: Seq<Seq<bool>>,
    origins: Seq<(int, int)>,
    subs: Seq<Set<int>>,
)
    requires
        ordered(m, letters, entries, origins, entries.len() as int, 0),
        subs.len() == entries.len(),
        forall|t: int| 0 <= t < subs.len() ==> #[trigger] subs[t] == marked(entries[t]),
    ensures
        in_discovery_order(m, letters, subs),
{
    reveal(ordered);
    assert forall|s: int, t: int| 0 < s < t < subs.len() implies #[trigger] found_before(
        m,
        letters,
        subs,
        s,
        t,
    ) by {
        let j = origins[s].0;
        let i = origins[s].1;
        assert(subs[j] == marked(entries[j]));
        assert(gives(m, letters, subs, j, i, s));
        assert forall|j2: int, i2: int| #[trigger] gives(m, letters, subs, j2, i2, t) implies pair_before(
            j,
            i,
            j2,
            i2,
        ) by {
            assert(subs[j2] == marked(entries[j2]));
            assert(pair_before(origins[s].0, origins[s].1, origins[t].0, origins[t].1));
            if pair_before(j2, i2, origins[t].0, origins[t].1) {
                assert(!given_by(m, letters, entries, t, j2, i2));
            }
        }
    }
}

impl<V: Symbol> NFA<V> {
    /// The subset automaton of `self`, built with `table` to tell the
    /// subsets apart.
    ///
    /// The subset of the initial states gets the number 0. The subsets are
    /// then taken in the order of their numbers; for each symbol of the
    /// alphabet, in its order, the set of the successors is computed, and gets
    /// the next number where it is not empty and has none yet.
    pub fn determinize<T: SubsetTable>(&self, table: T) -> (d: DFA<V>)
        requires
            self.wf(),
            table.inv(),
            table.states() == self@.size,
            table.entries().len() == 0,
        ensures
            d.wf(),
            exists|subs: Seq<Set<int>>| numbered_by(self@, d@, self.letters(), subs),
            forall|w: Seq<V>| d@.accepts(w) <==> self@.accepts(w),
            d@.to_nfa().is_reachable(),
    {
        let ghost m = self@;
        let n = self.transitions.len();
        let mut table = table;
        let mut subsets: Vec<Vec<bool>> = Vec::new();
        let mut finals: Vec<bool> = Vec::new();
        let mut rows: Vec<Vec<(V, usize)>> = Vec::new();
        let first = copy_flags(&self.initials);
        table.add(&first, 0);
        finals.push(overlap(&first, &self.finals));
        subsets.push(first);
        let ghost mut origins: Seq<(int, int)> = seq![(0int, 0int)];
        proof {
            lemma_numbered_first(m, self.initials@, table.entries(), subsets@, finals@);
            lemma_rows_done_none(m, self.alphabet@, table.entries());
            assert(rows@ =~= Seq::<Vec<(V, usize)>>::empty());
            lemma_ordered_first(m, self.alphabet@, table.entries());
        }
        let mut head: usize = 0;
        while head < subsets.len()
            invariant
                self.wf(),
                m == self@,
                n == self.transitions.len(),
                table.inv(),
                table.states() == n,
                numbered(m, self.initials@, table.entries(), subsets@, finals@),
                rows_done(m, self.alphabet@, table.entries(), rows@),
                rows.len() == head,
                head <= subsets.len(),
                0 < subsets.len(),
                subsets.len() == table.entries().len(),
                ordered(m, self.alphabet@, table.entries(), origins, head as int, 0),
            decreases pow2(n as nat) - head,
        {
            proof {
                lemma_numbered_use(
                    m,
                    self.initials@,
                    table.entries(),
                    subsets@,
                    finals@,
                    head as int,
                );
                lemma_row_start(m, self.alphabet@, table.entries(), head as int);
            }
            let mut row: Vec<(V, usize)> = Vec::new();
            let mut i: usize = 0;
            while i < self.alphabet.len()
                invariant
                    self.wf(),
                    m == self@,
                    n == self.transitions.len(),
                    table.inv(),
                    table.states() == n,
                    numbered(m, self.initials@, table.entries(), subsets@, finals@),
                    rows_done(m, self.alphabet@, table.entries(), rows@),
                    rows.len() == head,
                    head < subsets.len(),
                    subsets.len() == table.entries().len(),
                    i <= self.alphabet.len(),
                    row_sound(m, self.alphabet@, table.entries(), head as int, row@),
                    row_full(m, self.alphabet@, i as int, table.entries(), head as int, row@),
                    ordered(m, self.alphabet@, table.entries(), origins, head as int, i as int),
                decreases self.alphabet.len() - i,
            {
                let a = self.alphabet[i];
                proof {
                    lemma_numbered_use(
                        m,
                        self.initials@,
                        table.entries(),
                        subsets@,
                        finals@,
                        head as int,
                    );
                }
                let next = self.advance(&subsets[head], a);
                let ghost entries_before = table.entries();
                if any_marked(&next) {
                    proof {
                        let q = choose|q: int| marked(next@).contains(q);
                        assert(inhabited(marked(next@)));
                    }
                    let id = match table.find(&next) {
                        Some(j) => j,
                        None => {
                            let j = subsets.len();
                            let fin = overlap(&next, &self.finals);
                            table.add(&next, j);
                            proof {
                                assert(self.alphabet@.contains(a));
                                assert(m.alphabet.contains(a));
                                assert(0 <= head < entries_before.len() && m.alphabet.contains(a)
                                    && marked(next@) =~= m.step(
                                    marked(entries_before[head as int]),
                                    a,
                                ));
                                lemma_numbered_grow(
                                    m,
                                    self.initials@,
                                    entries_before,
                                    subsets@,
                                    finals@,
                                    next,
                                    fin,
                                );
                                lemma_rows_done_grow(
                                    m,
                                    self.alphabet@,
                                    entries_before,
                                    next@,
                                    rows@,
                                );
                                lemma_row_sound_grow(
                                    m,
                                    self.alphabet@,
                                    entries_before,
                                    next@,
                                    head as int,
                                    row@,
                                );
                                lemma_row_full_grow(
                                    m,
                                    self.alphabet@,
                                    i as int,
                                    entries_before,
                                    next@,
                                    head as int,
                                    row@,
                                );
                                lemma_all_known(
                                    m,
                                    self.alphabet@,
                                    entries_before,
                                    rows@,
                                    row@,
                                    i as int,
                                );
                                lemma_numbered_all(
                                    m,
                                    self.initials@,
                                    entries_before,
                                    subsets@,
                                    finals@,
                                );
                                lemma_ordered_grow(
                                    m,
                                    self.alphabet@,
                                    entries_before,
                                    origins,
                                    head as int,
                                    i as int,
                                    next@,
                                );
                                origins = origins.push((head as int, i as int));
                            }
                            finals.push(fin);
                            subsets.push(next);
                            j
                        },
                    };
                    proof {
                        let entries = table.entries();
                        assert(entries[head as int] == entries_before[head as int]);
                        lemma_row_push(m, self.alphabet@, i as int, entries, head as int, row@, id);
                        lemma_ordered_advance(
                            m,
                            self.alphabet@,
                            entries,
                            origins,
                            head as int,
                            if entries.len() == entries_before.len() {
                                i as int
                            } else {
                                i as int + 1
                            },
                            head as int,
                            i as int + 1,
                        );
                    }
                    row.push((a, id));
                } else {
                    proof {
                        let entries = table.entries();
                        if inhabited(m.step(marked(entries[head as int]), a)) {
                            let q = choose|q: int|
                                m.step(marked(entries[head as int]), a).contains(q);
                            assert(marked(next@).contains(q));
                        }
                        lemma_row_skip(m, self.alphabet@, i as int, entries, head as int, row@);
                        lemma_ordered_advance(
                            m,
                            self.alphabet@,
                            entries,
                            origins,
                            head as int,
                            i as int,
                            head as int,
                            i as int + 1,
                        );
                    }
                }
                i += 1;
            }
            proof {
                lemma_rows_done_push(m, self.alphabet@, table.entries(), rows@, row);
                lemma_ordered_advance(
                    m,
                    self.alphabet@,
                    table.entries(),
                    origins,
                    head as int,
                    self.alphabet@.len() as int,
                    head as int + 1,
                    0,
                );
            }
            rows.push(row);
            head += 1;
        }
        let d = DFA { alphabet: copy_symbols(&self.alphabet), initial: 0, finals, transitions: rows };
        proof {
            self.lemma_model_wf();
            lemma_numbered_use(m, self.initials@, table.entries(), subsets@, d.finals@, 0);
            let subs = lemma_rows_are_subset_automaton(
                m,
                self.alphabet@,
                self.initials@,
                table.entries(),
                subsets@,
                d.finals@,
                d.transitions@,
                d@,
            );
            lemma_subset_automaton_wf(m, d@, subs);
            lemma_ordered_final(m, self.alphabet@, table.entries(), origins, subs);
            assert(numbered_by(self@, d@, self.letters(), subs));
            d.lemma_wf_by_model();
            assert forall|w: Seq<V>| d@.accepts(w) <==> m.accepts(w) by {
                lemma_subset_language(m, d@, subs, w);
            }
            assert forall|t: int| 0 <= t < d@.to_nfa().size implies d@.to_nfa().reachable().contains(
                t,
            ) by {
                lemma_subset_reachable(m, d@, subs, t);
            }
        }
        d
    }

    /// The subset automaton of an automaton with no more states than `M` has
    /// bits, the subsets told apart by their masks.
    pub fn small_to_dfa<M: Mask>(&self) -> (d: DFA<V>)
        requires
            self.wf(),
            self@.size <= M::width(),
        ensures
            d.wf(),
            exists|subs: Seq<Set<int>>| numbered_by(self@, d@, self.letters(), subs),
            forall|w: Seq<V>| d@.accepts(w) <==> self@.accepts(w),
            d@.to_nfa().is_reachable(),
    {
        let table: MaskTable<M> = MaskTable::new(self.transitions.len());
        self.determinize(table)
    }

    /// The subset automaton of an automaton of any size, the subsets told
    /// apart by the lists of their states.
    pub fn big_to_dfa(&self) -> (d: DFA<V>)
        requires
            self.wf(),
        ensures
            d.wf(),
            exists|subs: Seq<Set<int>>| numbered_by(self@, d@, self.letters(), subs),
            forall|w: Seq<V>| d@.accepts(w) <==> self@.accepts(w),
            d@.to_nfa().is_reachable(),
    {
        let table = ListTable::new(self.transitions.len());
        self.determinize(table)
    }

    /// A deterministic automaton that accepts the words of `self`.
    ///
    /// Where `self` accepts no word, the result has one state, which is not
    /// final, and no edge. Otherwise it is the subset automaton of `self`; the
    /// subsets are told apart by masks of 32, 64 or 128 bits, the narrowest
    /// that has more bits than `self` has states, and by the lists of their
    /// states where `self` has 128 states or more.
    pub fn to_dfa(&self) -> (d: DFA<V>)
        requires
            self.wf(),
        ensures
            d.wf(),
            d@.alphabet == self@.alphabet,
            forall|w: Seq<V>| d@.accepts(w) <==> self@.accepts(w),
            is_determinized(self@, d@),
            !self@.is_empty() ==> exists|subs: Seq<Set<int>>|
                numbered_by(self@, d@, self.letters(), subs),
            d@.to_nfa().is_reachable(),
    {
        let n = self.transitions.len();
        if self.is_empty() {
            let d = DFA::new_empty(&self.alphabet);
            proof {
                assert forall|w: Seq<V>| d@.accepts(w) <==> self@.accepts(w) by {
                    lemma_empty_dfa_language(self@.alphabet, w);
                }
                crate::model::lemma_links_self(d@.to_nfa(), 0);
                assert(d@.to_nfa().initials.contains(0));
                assert(d@.to_nfa().reachable().contains(0));
            }
            d
        } else if n < 32 {
            self.small_to_dfa::<u32>()
        } else if n < 64 {
            self.small_to_dfa::<u64>()
        } else if n < 128 {
            self.small_to_dfa::<u128>()
        } else {
            self.big_to_dfa()
        }
    }
}

} // verus!
