//! Helpers that merge and renumber the parts of automata.
use crate::model::shifted_edges;
use crate::nfa::closure::push_edges;
use crate::nfa::{edges_of, NFA};
use crate::sets::{has_symbol, lemma_push_contains, marked, no_states, shifted};
use crate::symbol::Symbol;
use vstd::prelude::*;

verus! {

/// Adds to `a` the symbols of `b` that it does not hold yet, in their order.
pub fn append_hashset<V: Symbol>(a: &mut Vec<V>, b: Vec<V>)
    ensures
        final(a)@.to_set() == old(a)@.to_set().union(b@.to_set()),
        old(a)@.no_duplicates() ==> final(a)@.no_duplicates(),
        old(a)@.is_prefix_of(final(a)@),
{
    let mut i: usize = 0;
    while i < b.len()
        invariant
            i <= b.len(),
            old(a)@.no_duplicates() ==> a@.no_duplicates(),
            old(a)@.is_prefix_of(a@),
            forall|x: V| a@.contains(x) <==> (old(a)@.contains(x) || b@.take(i as int).contains(x)),
        decreases b.len() - i,
    {
        let x = b[i];
        let ghost before = a@;
        if !has_symbol(a, x) {
            a.push(x);
        }
        proof {
            assert(b@.take(i as int + 1) =~= b@.take(i as int).push(x));
            assert forall|y: V|
                a@.contains(y) <==> (old(a)@.contains(y) || b@.take(i as int + 1).contains(y)) by {
                lemma_push_contains(before, x, y);
                lemma_push_contains(b@.take(i as int), x, y);
            }
        }
        i += 1;
    }
    proof {
        assert(b@.take(b.len() as int) =~= b@);
        assert(a@.to_set() =~= old(a)@.to_set().union(b@.to_set()));
    }
}

/// Moves every state of the set up by `l`: puts `l` clear flags in front.
pub fn shift_hashset(a: &mut Vec<bool>, l: usize)
    requires
        old(a).len() + l <= usize::MAX,
    ensures
        final(a).len() == old(a).len() + l,
        marked(final(a)@) == shifted(marked(old(a)@), l as int),
{
    let mut r = no_states(l);
    let mut i: usize = 0;
    while i < a.len()
        invariant
            i <= a.len(),
            a.len() + l <= usize::MAX,
            r.len() == l + i,
            forall|q: int| 0 <= q < l ==> !r[q],
            forall|q: int| 0 <= q < i ==> r[l + q] == a[q],
        decreases a.len() - i,
    {
        r.push(a[i]);
        i += 1;
    }
    proof {
        assert forall|q: int| marked(r@).contains(q) <==> shifted(marked(a@), l as int).contains(
            q,
        ) by {
            if l <= q < l + a.len() {
                assert(r[l + (q - l)] == a[q - l]);
            }
        }
        assert(marked(r@) =~= shifted(marked(a@), l as int));
    }
    *a = r;
}

/// Adds to the set `a` the states of `b`, each moved up by `l`.
pub fn append_shift_hashset(a: &mut Vec<bool>, b: Vec<bool>, l: usize)
    requires
        l + b.len() <= usize::MAX,
    ensures
        final(a).len() >= old(a).len(),
        final(a).len() >= l + b.len(),
        marked(final(a)@) == marked(old(a)@).union(shifted(marked(b@), l as int)),
{
    let total = l + b.len();
    while a.len() < total
        invariant
            total == l + b.len(),
            a.len() >= old(a).len(),
            forall|q: int| 0 <= q < old(a).len() ==> a[q] == old(a)[q],
            forall|q: int| old(a).len() <= q < a.len() ==> !a[q],
        decreases total - a.len(),
    {
        a.push(false);
    }
    let ghost padded = a@;
    let mut i: usize = 0;
    while i < b.len()
        invariant
            i <= b.len(),
            total == l + b.len(),
            a.len() == padded.len(),
            a.len() >= total,
            padded.len() >= old(a).len(),
            forall|q: int| 0 <= q < old(a).len() ==> padded[q] == old(a)[q],
            forall|q: int| old(a).len() <= q < padded.len() ==> !padded[q],
            forall|q: int|
                0 <= q < a.len() ==> #[trigger] a[q] == (padded[q] || (l <= q < l + i && b[q
                    - l])),
        decreases b.len() - i,
    {
        let ghost before = a@;
        if b[i] {
            a.set(l + i, true);
        }
        proof {
            assert forall|q: int| 0 <= q < a.len() implies #[trigger] a[q] == (padded[q] || (l
                <= q < l + i + 1 && b[q - l])) by {
                assert(before[q] == (padded[q] || (l <= q < l + i && b[q - l])));
            }
        }
        i += 1;
    }
    proof {
        assert forall|q: int|
            marked(a@).contains(q) <==> marked(old(a)@).union(
                shifted(marked(b@), l as int),
            ).contains(q) by {
            if 0 <= q < a.len() {
                assert(a[q] == (padded[q] || (l <= q < l + b.len() && b[q - l])));
            }
        }
        assert(marked(a@) =~= marked(old(a)@).union(shifted(marked(b@), l as int)));
    }
}

/// Moves the target of every edge up by `l`.
pub fn shift_transitions<V: Symbol>(a: &mut Vec<Vec<(V, usize)>>, l: usize)
    requires
        forall|q: int, k: int|
            0 <= q < old(a).len() && 0 <= k < old(a)[q].len() ==> (#[trigger] old(a)[q][k]).1 + l
                <= usize::MAX,
    ensures
        final(a).len() == old(a).len(),
        forall|q: int, x: V, t: usize|
            0 <= q < old(a).len() ==> ((#[trigger] final(a)[q]@.contains((x, t))) <==> (t >= l
                && old(a)[q]@.contains((x, (t - l) as usize)))),
{
    let mut r: Vec<Vec<(V, usize)>> = Vec::new();
    let mut q: usize = 0;
    while q < a.len()
        invariant
            q <= a.len(),
            r.len() == q,
            forall|s: int, k: int|
                0 <= s < a.len() && 0 <= k < a[s].len() ==> (#[trigger] a[s][k]).1 + l
                    <= usize::MAX,
            forall|s: int, x: V, t: usize|
                0 <= s < q ==> ((#[trigger] r[s]@.contains((x, t))) <==> (t >= l
                    && a[s]@.contains((x, (t - l) as usize)))),
        decreases a.len() - q,
    {
        let mut row: Vec<(V, usize)> = Vec::new();
        proof {
            assert forall|k: int| 0 <= k < a[q as int].len() implies (#[trigger] a[q as int][k]).1
                + l <= usize::MAX by {}
        }
        push_edges(&mut row, &a[q], l);
        r.push(row);
        q += 1;
    }
    *a = r;
}

/// Appends the rows of `b` to those of `a`, the targets of their edges
/// moved up by the number of rows of `a`.
pub fn append_shift_transitions<V: Symbol>(
    a: &mut Vec<Vec<(V, usize)>>,
    b: Vec<Vec<(V, usize)>>,
)
    requires
        forall|q: int, k: int|
            0 <= q < b.len() && 0 <= k < b[q].len() ==> (#[trigger] b[q][k]).1 + old(a).len()
                <= usize::MAX,
    ensures
        final(a).len() == old(a).len() + b.len(),
        edges_of(final(a)@) == edges_of(old(a)@).union(
            shifted_edges(edges_of(b@), old(a).len() as int),
        ),
{
    let n = a.len();
    let ghost given = b@;
    let mut b = b;
    shift_transitions(&mut b, n);
    let ghost moved = b@;
    a.append(&mut b);
    proof {
        let goal = edges_of(old(a)@).union(shifted_edges(edges_of(given), n as int));
        assert forall|e: (int, V, int)| edges_of(a@).contains(e) <==> goal.contains(e) by {
            if 0 <= e.0 < n {
                assert(a@[e.0] == old(a)@[e.0]);
            } else if n <= e.0 < n + moved.len() {
                let s = e.0 - n;
                assert(a@[e.0] == moved[s]);
                if 0 <= e.2 <= usize::MAX {
                    let t = e.2 as usize;
                    assert(moved[s]@.contains((e.1, t)) <==> (t >= n && given[s]@.contains(
                        (e.1, (t - n) as usize),
                    )));
                }
            }
        }
        assert(edges_of(a@) =~= goal);
    }
}

/// Renumbers the states of the automaton: puts `l` states without edges in
/// front, and moves its own states up behind them.
pub fn shift_fnda<V: Symbol>(a: &mut NFA<V>, l: usize)
    requires
        old(a).wf(),
        old(a)@.size + l <= usize::MAX,
    ensures
        final(a).wf(),
        final(a)@ == old(a)@.shifted(l as nat),
{
    let n = a.transitions.len();
    proof {
        a.lemma_rows_by_wf();
    }
    let mut rows: Vec<Vec<(V, usize)>> = Vec::new();
    let mut q: usize = 0;
    while q < l
        invariant
            q <= l,
            rows.len() == q,
            forall|s: int| 0 <= s < q ==> (#[trigger] rows[s])@ == Seq::<(V, usize)>::empty(),
        decreases l - q,
    {
        rows.push(Vec::new());
        q += 1;
    }
    let mut q: usize = 0;
    while q < n
        invariant
            q <= n,
            n + l <= usize::MAX,
            n == a.transitions.len(),
            a.wf(),
            *a == *old(a),
            rows.len() == l + q,
            forall|s: int| 0 <= s < l ==> (#[trigger] rows[s])@ == Seq::<(V, usize)>::empty(),
            forall|s: int, x: V, t: usize|
                0 <= s < q ==> ((#[trigger] rows[l + s]@.contains((x, t))) <==> (t >= l
                    && a.transitions[s]@.contains((x, (t - l) as usize)))),
        decreases n - q,
    {
        let mut row: Vec<(V, usize)> = Vec::new();
        proof {
            assert forall|k: int| 0 <= k < a.transitions[q as int].len() implies (
            #[trigger] a.transitions[q as int][k]).1 + l <= usize::MAX by {
                assert(a.transitions[q as int][k].1 < n);
            }
        }
        push_edges(&mut row, &a.transitions[q], l);
        rows.push(row);
        q += 1;
    }
    let ghost before = *a;
    shift_hashset(&mut a.initials, l);
    shift_hashset(&mut a.finals, l);
    a.transitions = rows;
    proof {
        let goal = before@.shifted(l as nat);
        assert forall|e: (int, V, int)| a@.edges.contains(e) <==> goal.edges.contains(e) by {
            if 0 <= e.0 < l {
                if a@.edges.contains(e) {
                    let k = choose|k: int|
                        0 <= k < a.transitions[e.0]@.len() && a.transitions[e.0]@[k] == (
                            e.1,
                            e.2 as usize,
                        );
                }
                if goal.edges.contains(e) {
                    assert(before@.edges.contains((e.0 - l, e.1, e.2 - l)));
                }
            } else if l <= e.0 < l + n {
                let s = e.0 - l;
                if 0 <= e.2 <= usize::MAX {
                    let t = e.2 as usize;
                    assert(a.transitions[l + s]@.contains((e.1, t)) <==> (t >= l
                        && before.transitions[s]@.contains((e.1, (t - l) as usize))));
                }
                if goal.edges.contains(e) {
                    assert(before@.edges.contains((e.0 - l, e.1, e.2 - l)));
                    assert(before.transitions[s]@.contains((e.1, (e.2 - l) as usize)));
                    let k = choose|k: int|
                        0 <= k < before.transitions[s]@.len() && before.transitions[s]@[k] == (
                            e.1,
                            (e.2 - l) as usize,
                        );
                    assert(before.transitions[s][k].1 < n);
                }
            } else {
                if goal.edges.contains(e) {
                    assert(before@.edges.contains((e.0 - l, e.1, e.2 - l)));
                }
            }
        }
        assert(a@.edges =~= goal.edges);
        assert forall|s: int, x: V, t: usize|
            0 <= s < n + l && #[trigger] a.transitions[s]@.contains((x, t)) implies t < n + l
            && a.alphabet@.contains(x) by {
            if s < l {
                let k = choose|k: int|
                    0 <= k < a.transitions[s]@.len() && a.transitions[s]@[k] == (x, t);
            } else {
                assert(a.transitions[l + (s - l)]@.contains((x, t)));
                assert(before.transitions[s - l]@.contains((x, (t - l) as usize)));
            }
        }
        a.lemma_wf_by_rows((n + l) as int);
    }
}

} // verus!
