//! Eliminating the states of an automaton gives an expression that matches
//! the words of the automaton.
use crate::language::{in_concat, in_power, in_repeat, in_star, Language};
use crate::laws::walks::lemma_walk_join;
use crate::model::NfaModel;
use crate::nfa::edges_of;
use crate::nfa::to_regex::{direct, from_initials, through, to_finals};
use crate::regex::algebra::{lemma_plus, lemma_times};
use crate::regex::tree::Tree;
use crate::sets::marked;
use vstd::prelude::*;

verus! {

/// `p` is a walk that reads `w` and passes, between its ends, states below
/// `k` alone.
pub open spec fn walk_below<V>(m: NfaModel<V>, k: int, p: Seq<int>, w: Seq<V>) -> bool {
    &&& m.is_walk(p, w)
    &&& forall|x: int| 0 < x < w.len() ==> #[trigger] p[x] < k
}

/// Some walk from `i` to `j` reads `w` and passes, between its ends, states
/// below `k` alone.
pub open spec fn links_below<V>(m: NfaModel<V>, k: int, i: int, w: Seq<V>, j: int) -> bool {
    exists|p: Seq<int>| #[trigger] walk_below(m, k, p, w) && p[0] == i && p.last() == j
}

/// The words that lead from `i` to `j` through the states below `k`.
pub open spec fn below<V>(m: NfaModel<V>, k: int, i: int, j: int) -> Language<V> {
    |w: Seq<V>| links_below(m, k, i, w, j)
}

/// One of the first `upto` edges of `row` is labelled `a` and leads to `j`.
pub open spec fn edge_within<V>(row: Seq<(V, usize)>, a: V, j: int, upto: int) -> bool {
    exists|k: int| 0 <= k < upto && (#[trigger] row[k]).0 == a && row[k].1 == j
}

/// What leads at once from `i` to `j` matches the empty word where the two
/// are the same, and the symbols of the edges from `i` to `j`.
pub proof fn lemma_direct_matches<V>(
    row: Seq<(V, usize)>,
    alphabet: Set<V>,
    i: int,
    j: int,
    upto: int,
    w: Seq<V>,
)
    requires
        0 <= upto <= row.len(),
    ensures
        direct(row, i, j, upto).matches(alphabet, w) <==> ((i == j && w.len() == 0) || (w.len()
            == 1 && edge_within(row, w[0], j, upto))),
    decreases upto,
{
    if upto > 0 {
        lemma_direct_matches(row, alphabet, i, j, upto - 1, w);
        let before = direct(row, i, j, upto - 1);
        let e = row[upto - 1];
        if e.1 == j {
            lemma_plus(before, Tree::Letter(e.0), alphabet, w);
            if w =~= seq![e.0] {
                assert(row[upto - 1].0 == w[0] && row[upto - 1].1 == j);
            }
        }
        if w.len() == 1 && edge_within(row, w[0], j, upto) {
            let k = choose|k: int| 0 <= k < upto && (#[trigger] row[k]).0 == w[0] && row[k].1 == j;
            if k < upto - 1 {
                assert(edge_within(row, w[0], j, upto - 1));
            } else {
                assert(w =~= seq![e.0]);
            }
        }
        if w.len() == 1 && edge_within(row, w[0], j, upto - 1) {
            let k = choose|k: int|
                0 <= k < upto - 1 && (#[trigger] row[k]).0 == w[0] && row[k].1 == j;
            assert(row[k].0 == w[0] && row[k].1 == j);
        }
    }
}

/// Without states to pass, a walk is a state or an edge.
pub proof fn lemma_links_below_none<V>(m: NfaModel<V>, i: int, w: Seq<V>, j: int)
    requires
        m.wf(),
    ensures
        links_below(m, 0, i, w, j) <==> ((i == j && w.len() == 0) || (w.len() == 1
            && m.edges.contains((i, w[0], j)))),
{
    if links_below(m, 0, i, w, j) {
        let p = choose|p: Seq<int>| #[trigger] walk_below(m, 0, p, w) && p[0] == i && p.last() == j;
        if w.len() >= 2 {
            assert(m.edges.contains((p[0], w[0], p[0int + 1])));
            assert(p[1] < 0);
        }
        if w.len() == 1 {
            assert(m.edges.contains((p[0], w[0], p[0int + 1])));
        }
    }
    if i == j && w.len() == 0 {
        let p = seq![i];
        assert(walk_below(m, 0, p, w));
    }
    if w.len() == 1 && m.edges.contains((i, w[0], j)) {
        let p = seq![i, j];
        assert(walk_below(m, 0, p, w));
    }
}

/// A walk below `k` is a walk below `k + 1`.
pub proof fn lemma_below_weaken<V>(m: NfaModel<V>, k: int, i: int, w: Seq<V>, j: int)
    requires
        links_below(m, k, i, w, j),
    ensures
        links_below(m, k + 1, i, w, j),
{
    let p = choose|p: Seq<int>| #[trigger] walk_below(m, k, p, w) && p[0] == i && p.last() == j;
    assert(walk_below(m, k + 1, p, w));
}

/// Two walks below `k`, joined in a state below `k`, make a walk below `k`.
pub proof fn lemma_below_join<V>(
    m: NfaModel<V>,
    k: int,
    i: int,
    w1: Seq<V>,
    mid: int,
    w2: Seq<V>,
    j: int,
)
    requires
        links_below(m, k, i, w1, mid),
        links_below(m, k, mid, w2, j),
        mid < k,
    ensures
        links_below(m, k, i, w1 + w2, j),
{
    let p1 = choose|p: Seq<int>| #[trigger] walk_below(m, k, p, w1) && p[0] == i && p.last() == mid;
    let p2 = choose|p: Seq<int>| #[trigger] walk_below(m, k, p, w2) && p[0] == mid && p.last() == j;
    lemma_walk_join(m, p1, w1, p2, w2);
    let p = p1 + p2.skip(1);
    let w = w1 + w2;
    assert forall|x: int| 0 < x < w.len() implies #[trigger] p[x] < k by {
        if x < w1.len() {
            assert(p[x] == p1[x]);
        } else if x == w1.len() {
            assert(p[x] == p1[x]);
        } else {
            assert(p[x] == p2[x - w1.len()]);
        }
    }
    assert(walk_below(m, k, p, w));
}

/// A concatenation of loops at `k` below `k` is a loop at `k` below `k + 1`.
pub proof fn lemma_loops_join<V>(m: NfaModel<V>, k: int, n: nat, v: Seq<V>)
    requires
        in_power(below(m, k, k, k), n, v),
    ensures
        links_below(m, k + 1, k, v, k),
    decreases n,
{
    if n == 0 {
        let p = seq![k];
        assert(walk_below(m, k + 1, p, v));
    } else {
        let c = choose|c: int|
            0 <= c <= v.len() && in_power(below(m, k, k, k), (n - 1) as nat, #[trigger] v.take(c))
                && below(m, k, k, k)(v.skip(c));
        lemma_loops_join(m, k, (n - 1) as nat, v.take(c));
        lemma_below_weaken(m, k, k, v.skip(c), k);
        lemma_below_join(m, k + 1, k, v.take(c), k, v.skip(c), k);
        assert(v.take(c) + v.skip(c) =~= v);
    }
}

/// The last place between the ends, below `hi`, at which the walk is in
/// `k`; 0 where there is none.
pub proof fn lemma_last_hit(p: Seq<int>, k: int, hi: int) -> (c: int)
    requires
        0 < hi <= p.len(),
    ensures
        0 <= c < hi,
        c > 0 ==> p[c] == k,
        forall|x: int| c < x < hi ==> p[x] != k,
    decreases hi,
{
    if hi == 1 {
        0
    } else if p[hi - 1] == k {
        hi - 1
    } else {
        lemma_last_hit(p, k, hi - 1)
    }
}

/// The first place between the ends, from `lo` on, at which the walk is in
/// `k`; `hi` where there is none.
pub proof fn lemma_first_hit(p: Seq<int>, k: int, lo: int, hi: int) -> (c: int)
    requires
        0 < lo <= hi <= p.len(),
    ensures
        lo <= c <= hi,
        c < hi ==> p[c] == k,
        forall|x: int| lo <= x < c ==> p[x] != k,
    decreases hi - lo,
{
    if lo == hi {
        hi
    } else if p[lo] == k {
        lo
    } else {
        lemma_first_hit(p, k, lo + 1, hi)
    }
}

/// A part of a walk below `k + 1` that is nowhere in `k` between its ends is
/// a walk below `k`.
pub proof fn lemma_part_below<V>(m: NfaModel<V>, k: int, p: Seq<int>, w: Seq<V>, a: int, b: int)
    requires
        walk_below(m, k + 1, p, w),
        0 <= a <= b <= w.len(),
        forall|x: int| a < x < b ==> p[x] != k,
    ensures
        walk_below(m, k, p.subrange(a, b + 1), w.subrange(a, b)),
        links_below(m, k, p[a], w.subrange(a, b), p[b]),
{
    let p2 = p.subrange(a, b + 1);
    let w2 = w.subrange(a, b);
    assert forall|x: int| 0 <= x < w2.len() implies m.edges.contains(
        (p2[x], #[trigger] w2[x], p2[x + 1]),
    ) by {
        assert(m.edges.contains((p[a + x], w[a + x], p[a + x + 1])));
    }
    assert forall|x: int| 0 < x < w2.len() implies #[trigger] p2[x] < k by {
        assert(p[a + x] < k + 1);
        assert(p[a + x] != k);
    }
    assert(p2[0] == p[a] && p2.last() == p[b]);
}

/// A part of a walk below `k` is a walk below `k`.
pub proof fn lemma_part_same<V>(m: NfaModel<V>, k: int, p: Seq<int>, w: Seq<V>, a: int, b: int)
    requires
        walk_below(m, k, p, w),
        0 <= a <= b <= w.len(),
    ensures
        walk_below(m, k, p.subrange(a, b + 1), w.subrange(a, b)),
        links_below(m, k, p[a], w.subrange(a, b), p[b]),
{
    let p2 = p.subrange(a, b + 1);
    let w2 = w.subrange(a, b);
    assert forall|x: int| 0 <= x < w2.len() implies m.edges.contains(
        (p2[x], #[trigger] w2[x], p2[x + 1]),
    ) by {
        assert(m.edges.contains((p[a + x], w[a + x], p[a + x + 1])));
    }
    assert forall|x: int| 0 < x < w2.len() implies #[trigger] p2[x] < k by {
        assert(p[a + x] < k);
    }
    assert(p2[0] == p[a] && p2.last() == p[b]);
}

/// A loop at `k` below `k + 1` is a concatenation of loops at `k` below `k`.
pub proof fn lemma_loop_splits<V>(m: NfaModel<V>, k: int, p: Seq<int>, v: Seq<V>)
    requires
        walk_below(m, k + 1, p, v),
        p[0] == k,
        p.last() == k,
    ensures
        in_star(below(m, k, k, k), v),
    decreases v.len(),
{
    let l = below(m, k, k, k);
    if v.len() == 0 {
        assert(in_power(l, 0, v));
    } else {
        let c = lemma_last_hit(p, k, v.len() as int);
        lemma_part_below(m, k, p, v, c, v.len() as int);
        assert(v.subrange(c, v.len() as int) =~= v.skip(c));
        assert(l(v.skip(c)));
        if c == 0 {
            assert(v.take(0) =~= Seq::<V>::empty());
            assert(in_power(l, 0, v.take(0)));
            assert(v.skip(0) =~= v);
            assert(in_power(l, 1, v));
        } else {
            lemma_part_same(m, k + 1, p, v, 0, c);
            assert(v.subrange(0, c) =~= v.take(c));
            let p1 = p.subrange(0, c + 1);
            lemma_loop_splits(m, k, p1, v.take(c));
            let n = choose|n: nat| #[trigger] in_power(l, n, v.take(c));
            assert(in_power(l, n + 1, v));
        }
    }
}

/// The words of the product that lets `k` in as a state to pass.
pub open spec fn round<V>(m: NfaModel<V>, k: int, i: int, j: int) -> Language<V> {
    |w: Seq<V>|
        in_concat(
            |y: Seq<V>| in_concat(below(m, k, i, k), |v: Seq<V>| in_star(below(m, k, k, k), v), y),
            below(m, k, k, j),
            w,
        )
}

/// A walk below `k + 1` is a walk below `k`, or goes to `k`, round it and
/// on; and the other way round.
pub proof fn lemma_below_step<V>(m: NfaModel<V>, k: int, i: int, w: Seq<V>, j: int)
    requires
        m.wf(),
        0 <= k < m.size,
    ensures
        links_below(m, k + 1, i, w, j) <==> (links_below(m, k, i, w, j) || round(m, k, i, j)(w)),
{
    let star = |v: Seq<V>| in_star(below(m, k, k, k), v);
    let front = |y: Seq<V>| in_concat(below(m, k, i, k), star, y);
    if links_below(m, k, i, w, j) {
        lemma_below_weaken(m, k, i, w, j);
    }
    if round(m, k, i, j)(w) {
        let b = choose|b: int|
            0 <= b <= w.len() && front(#[trigger] w.take(b)) && below(m, k, k, j)(w.skip(b));
        let y = w.take(b);
        let a = choose|a: int|
            0 <= a <= y.len() && below(m, k, i, k)(#[trigger] y.take(a)) && star(y.skip(a));
        let n = choose|n: nat| #[trigger] in_power(below(m, k, k, k), n, y.skip(a));
        lemma_loops_join(m, k, n, y.skip(a));
        lemma_below_weaken(m, k, i, y.take(a), k);
        lemma_below_join(m, k + 1, i, y.take(a), k, y.skip(a), k);
        assert(y.take(a) + y.skip(a) =~= y);
        lemma_below_weaken(m, k, k, w.skip(b), j);
        lemma_below_join(m, k + 1, i, y, k, w.skip(b), j);
        assert(y + w.skip(b) =~= w);
    }
    if links_below(m, k + 1, i, w, j) {
        let p = choose|p: Seq<int>| #[trigger]
            walk_below(m, k + 1, p, w) && p[0] == i && p.last() == j;
        let len = w.len() as int;
        if len == 0 {
            assert(walk_below(m, k, p, w));
        } else {
            let a = lemma_first_hit(p, k, 1, len);
            if a == len {
                assert(walk_below(m, k, p, w));
            } else {
                let b = lemma_last_hit(p, k, len);
                assert(b >= a);
                lemma_part_below(m, k, p, w, 0, a);
                lemma_part_below(m, k, p, w, b, len);
                lemma_part_same(m, k + 1, p, w, a, b);
                lemma_loop_splits(m, k, p.subrange(a, b + 1), w.subrange(a, b));
                let y = w.take(b);
                assert(w.subrange(0, a) =~= y.take(a));
                assert(w.subrange(a, b) =~= y.skip(a));
                assert(w.subrange(b, len) =~= w.skip(b));
                assert(below(m, k, i, k)(y.take(a)) && star(y.skip(a)));
                assert(front(y));
                assert(front(w.take(b)) && below(m, k, k, j)(w.skip(b)));
            }
        }
    }
}

/// What leads from `i` to `j` through the states below `k` matches the
/// words that a walk from `i` to `j` through those states reads.
pub proof fn lemma_through_language<V>(
    rows: Seq<Vec<(V, usize)>>,
    m: NfaModel<V>,
    k: nat,
    i: int,
    j: int,
    w: Seq<V>,
)
    requires
        m.wf(),
        m.size == rows.len(),
        m.edges == edges_of(rows),
        k <= rows.len(),
        0 <= i < rows.len(),
        0 <= j < rows.len(),
    ensures
        through(rows, k, i, j).matches(m.alphabet, w) <==> links_below(m, k as int, i, w, j),
    decreases k,
{
    let sigma = m.alphabet;
    if k == 0 {
        lemma_direct_matches(rows[i]@, sigma, i, j, rows[i].len() as int, w);
        lemma_links_below_none(m, i, w, j);
        if w.len() == 1 {
            let row = rows[i]@;
            if edge_within(row, w[0], j, row.len() as int) {
                let x = choose|x: int|
                    0 <= x < row.len() && (#[trigger] row[x]).0 == w[0] && row[x].1 == j;
                assert(row[x] == (w[0], j as usize));
                assert(row.contains((w[0], j as usize)));
            }
            if m.edges.contains((i, w[0], j)) {
                let x = choose|x: int| 0 <= x < row.len() && row[x] == (w[0], j as usize);
                assert(row[x].0 == w[0] && row[x].1 == j);
            }
        }
    } else {
        let c = (k - 1) as nat;
        let ci = c as int;
        let t_ij = through(rows, c, i, j);
        let t_ic = through(rows, c, i, ci);
        let t_cc = through(rows, c, ci, ci);
        let t_cj = through(rows, c, ci, j);
        let star = Tree::Repeat(Box::new(t_cc), 0, None);
        let half = t_ic.times(star);
        lemma_through_language(rows, m, c, i, j, w);
        assert forall|y: Seq<V>| #[trigger] t_ic.matched(sigma)(y) == below(m, ci, i, ci)(y) by {
            lemma_through_language(rows, m, c, i, ci, y);
        }
        assert(t_ic.matched(sigma) =~= below(m, ci, i, ci));
        assert forall|y: Seq<V>| #[trigger] t_cc.matched(sigma)(y) == below(m, ci, ci, ci)(y) by {
            lemma_through_language(rows, m, c, ci, ci, y);
        }
        assert(t_cc.matched(sigma) =~= below(m, ci, ci, ci));
        assert forall|y: Seq<V>| #[trigger] t_cj.matched(sigma)(y) == below(m, ci, ci, j)(y) by {
            lemma_through_language(rows, m, c, ci, j, y);
        }
        assert(t_cj.matched(sigma) =~= below(m, ci, ci, j));
        let star_lang = |v: Seq<V>| in_star(below(m, ci, ci, ci), v);
        assert forall|v: Seq<V>| #[trigger] star.matched(sigma)(v) == star_lang(v) by {
            lemma_star_matches(t_cc, sigma, v);
        }
        assert(star.matched(sigma) =~= star_lang);
        let front = |y: Seq<V>| in_concat(below(m, ci, i, ci), star_lang, y);
        assert forall|y: Seq<V>| #[trigger] half.matched(sigma)(y) == front(y) by {
            lemma_times(t_ic, star, sigma, y);
        }
        assert(half.matched(sigma) =~= front);
        lemma_times(half, t_cj, sigma, w);
        lemma_plus(t_ij, half.times(t_cj), sigma, w);
        lemma_below_step(m, ci, i, w, j);
        assert(round(m, ci, i, j)(w) == in_concat(front, below(m, ci, ci, j), w));
    }
}

/// A repetition without bounds matches the concatenations of words that its
/// operand matches.
pub proof fn lemma_star_matches<V>(t: Tree<V>, alphabet: Set<V>, w: Seq<V>)
    ensures
        Tree::Repeat(Box::new(t), 0, None).matches(alphabet, w) <==> in_star(
            t.matched(alphabet),
            w,
        ),
{
    let l = t.matched(alphabet);
    if in_star(l, w) {
        let n = choose|n: nat| #[trigger] in_power(l, n, w);
        assert(0 <= n && (None::<nat> is Some ==> n <= None::<nat>->0) && in_power(l, n, w));
        assert(in_repeat(l, 0, None, w));
    }
    if in_repeat(l, 0, None, w) {
        let n = choose|n: nat|
            0 <= n && (None::<nat> is Some ==> n <= None::<nat>->0) && #[trigger] in_power(l, n, w);
        assert(in_power(l, n, w));
    }
}

/// Where every state is below `size`, a walk below `size` is any walk.
pub proof fn lemma_below_all<V>(m: NfaModel<V>, i: int, w: Seq<V>, j: int)
    requires
        m.wf(),
        0 <= i < m.size,
    ensures
        links_below(m, m.size as int, i, w, j) <==> m.links(i, w, j),
{
    if m.links(i, w, j) {
        let p = choose|p: Seq<int>| #[trigger] m.is_walk(p, w) && p[0] == i && p.last() == j;
        crate::laws::walks::lemma_walk_in_bounds(m, p, w);
        assert(walk_below(m, m.size as int, p, w));
    }
    if links_below(m, m.size as int, i, w, j) {
        let p = choose|p: Seq<int>| #[trigger]
            walk_below(m, m.size as int, p, w) && p[0] == i && p.last() == j;
        assert(m.is_walk(p, w));
    }
}

/// What leads from `s` to the first `upto` final states matches what the
/// sum so far matches and the words that lead from `s` to one of them.
pub proof fn lemma_to_finals_language<V>(
    rows: Seq<Vec<(V, usize)>>,
    m: NfaModel<V>,
    finals: Seq<bool>,
    s: int,
    upto: int,
    acc: Tree<V>,
    w: Seq<V>,
)
    requires
        m.wf(),
        m.size == rows.len(),
        m.edges == edges_of(rows),
        m.finals == marked(finals),
        finals.len() == rows.len(),
        0 <= s < rows.len(),
        0 <= upto <= rows.len(),
    ensures
        to_finals(rows, finals, s, upto, acc).matches(m.alphabet, w) <==> (acc.matches(
            m.alphabet,
            w,
        ) || exists|f: int| 0 <= f < upto && m.finals.contains(f) && #[trigger] m.links(s, w, f)),
    decreases upto,
{
    if upto > 0 {
        let f0 = upto - 1;
        lemma_to_finals_language(rows, m, finals, s, f0, acc, w);
        let before = to_finals(rows, finals, s, f0, acc);
        if finals[f0] {
            let t = through(rows, rows.len(), s, f0);
            lemma_plus(before, t, m.alphabet, w);
            lemma_through_language(rows, m, rows.len(), s, f0, w);
            lemma_below_all(m, s, w, f0);
            if t.matches(m.alphabet, w) {
                assert(m.finals.contains(f0) && m.links(s, w, f0));
            }
        }
        if exists|f: int| 0 <= f < upto && m.finals.contains(f) && #[trigger] m.links(s, w, f) {
            let f = choose|f: int|
                0 <= f < upto && m.finals.contains(f) && #[trigger] m.links(s, w, f);
            if f < f0 {
                assert(m.finals.contains(f) && m.links(s, w, f));
            }
        }
        if exists|f: int| 0 <= f < f0 && m.finals.contains(f) && #[trigger] m.links(s, w, f) {
            let f = choose|f: int|
                0 <= f < f0 && m.finals.contains(f) && #[trigger] m.links(s, w, f);
            assert(0 <= f < upto && m.finals.contains(f) && m.links(s, w, f));
        }
    }
}

/// Some walk from one of the first `upto` states that is initial to a final
/// state reads `w`.
pub open spec fn accepted_from<V>(m: NfaModel<V>, upto: int, w: Seq<V>) -> bool {
    exists|s: int, f: int|
        0 <= s < upto && m.initials.contains(s) && m.finals.contains(f) && #[trigger] m.links(
            s,
            w,
            f,
        )
}

/// What leads from the first `upto` initial states to the final states
/// matches the words that lead from one of them to a final state.
pub proof fn lemma_from_initials_language<V>(
    rows: Seq<Vec<(V, usize)>>,
    m: NfaModel<V>,
    initials: Seq<bool>,
    finals: Seq<bool>,
    upto: int,
    w: Seq<V>,
)
    requires
        m.wf(),
        m.size == rows.len(),
        m.edges == edges_of(rows),
        m.initials == marked(initials),
        m.finals == marked(finals),
        initials.len() == rows.len(),
        finals.len() == rows.len(),
        0 <= upto <= rows.len(),
    ensures
        from_initials(rows, initials, finals, upto).matches(m.alphabet, w) <==> accepted_from(
            m,
            upto,
            w,
        ),
    decreases upto,
{
    if upto > 0 {
        let s0 = upto - 1;
        lemma_from_initials_language(rows, m, initials, finals, s0, w);
        let before = from_initials(rows, initials, finals, s0);
        if initials[s0] {
            lemma_to_finals_language(rows, m, finals, s0, rows.len() as int, before, w);
            if exists|f: int|
                0 <= f < rows.len() && m.finals.contains(f) && #[trigger] m.links(s0, w, f) {
                let f = choose|f: int|
                    0 <= f < rows.len() && m.finals.contains(f) && #[trigger] m.links(s0, w, f);
                assert(0 <= s0 < upto && m.initials.contains(s0) && m.finals.contains(f)
                    && m.links(s0, w, f));
            }
        }
        if accepted_from(m, s0, w) {
            let (s, f) = choose|s: int, f: int|
                0 <= s < s0 && m.initials.contains(s) && m.finals.contains(f) && #[trigger] m.links(
                    s,
                    w,
                    f,
                );
            assert(0 <= s < upto && m.initials.contains(s) && m.finals.contains(f) && m.links(
                s,
                w,
                f,
            ));
        }
        if accepted_from(m, upto, w) {
            let (s, f) = choose|s: int, f: int|
                0 <= s < upto && m.initials.contains(s) && m.finals.contains(f)
                    && #[trigger] m.links(s, w, f);
            if s < s0 {
                assert(accepted_from(m, s0, w));
            } else {
                assert(0 <= f < rows.len() && m.finals.contains(f) && m.links(s0, w, f));
            }
        }
    }
}

/// The expression that eliminating the states gives matches the words of
/// the automaton.
pub proof fn lemma_elimination_language<V>(
    rows: Seq<Vec<(V, usize)>>,
    m: NfaModel<V>,
    initials: Seq<bool>,
    finals: Seq<bool>,
    w: Seq<V>,
)
    requires
        m.wf(),
        m.size == rows.len(),
        m.edges == edges_of(rows),
        m.initials == marked(initials),
        m.finals == marked(finals),
        initials.len() == rows.len(),
        finals.len() == rows.len(),
    ensures
        from_initials(rows, initials, finals, rows.len() as int).matches(m.alphabet, w)
            <==> m.accepts(w),
{
    lemma_from_initials_language(rows, m, initials, finals, rows.len() as int, w);
    if m.accepts(w) {
        let p = choose|p: Seq<int>| #[trigger]
            m.is_walk(p, w) && m.initials.contains(p[0]) && m.finals.contains(p.last());
        assert(m.links(p[0], w, p.last()));
    }
    if accepted_from(m, rows.len() as int, w) {
        let (s, f) = choose|s: int, f: int|
            0 <= s < rows.len() && m.initials.contains(s) && m.finals.contains(f)
                && #[trigger] m.links(s, w, f);
        let p = choose|p: Seq<int>| #[trigger] m.is_walk(p, w) && p[0] == s && p.last() == f;
        assert(m.is_walk(p, w) && m.initials.contains(p[0]) && m.finals.contains(p.last()));
    }
}

} // verus!
