//! From an automaton to an expression, by eliminating the states one by one.

use crate::model::NfaModel;
use crate::nfa::{edges_of, NFA};
use crate::regex::algebra::{lemma_plus, lemma_times};
use crate::regex::plainness::{lemma_plus_plain, lemma_times_plain, plain_or_empty};
use crate::regex::rules_language::plain;
use crate::regex::tree::{Operations, Tree};
use crate::regex::Regex;
use crate::sets::copy_symbols;
use crate::symbol::Symbol;
use vstd::prelude::*;

verus! {

/// What leads from `i` to `j` at once: the empty word where the two are the
/// same state, and the letters of the first `upto` edges of `row`, the row of
/// `i`, that lead to `j`.
pub open spec fn direct<V>(row: Seq<(V, usize)>, i: int, j: int, upto: int) -> Tree<V>
    decreases upto,
{
    if upto <= 0 {
        if i == j {
            Tree::Epsilon
        } else {
            Tree::Empty
        }
    } else {
        let before = direct(row, i, j, upto - 1);
        if row[upto - 1].1 == j {
            before.plus(Tree::Letter(row[upto - 1].0))
        } else {
            before
        }
    }
}

/// What leads from `i` to `j` through the states below `k` alone.
pub open spec fn through<V>(rows: Seq<Vec<(V, usize)>>, k: nat, i: int, j: int) -> Tree<V>
    decreases k,
{
    if k == 0 {
        direct(rows[i]@, i, j, rows[i].len() as int)
    } else {
        let m = (k - 1) as nat;
        through(rows, m, i, j).plus(
            through(rows, m, i, m as int).times(
                Tree::Repeat(Box::new(through(rows, m, m as int, m as int)), 0, None),
            ).times(through(rows, m, m as int, j)),
        )
    }
}

/// What leads from `s` to one of the first `upto` states that is flagged in
/// `finals`, added to `acc`.
pub open spec fn to_finals<V>(
    rows: Seq<Vec<(V, usize)>>,
    finals: Seq<bool>,
    s: int,
    upto: int,
    acc: Tree<V>,
) -> Tree<V>
    decreases upto,
{
    if upto <= 0 {
        acc
    } else {
        let before = to_finals(rows, finals, s, upto - 1, acc);
        if finals[upto - 1] {
            before.plus(through(rows, rows.len(), s, upto - 1))
        } else {
            before
        }
    }
}

/// What leads from one of the first `upto` states that is flagged in
/// `initials` to a state that is flagged in `finals`.
pub open spec fn from_initials<V>(
    rows: Seq<Vec<(V, usize)>>,
    initials: Seq<bool>,
    finals: Seq<bool>,
    upto: int,
) -> Tree<V>
    decreases upto,
{
    if upto <= 0 {
        Tree::Empty
    } else {
        let before = from_initials(rows, initials, finals, upto - 1);
        if initials[upto - 1] {
            to_finals(rows, finals, upto - 1, rows.len() as int, before)
        } else {
            before
        }
    }
}

/// The rows are those of a well-formed automaton over `alphabet`.
pub open spec fn rows_wf<V>(rows: Seq<Vec<(V, usize)>>, alphabet: Set<V>) -> bool {
    forall|q: int, k: int|
        0 <= q < rows.len() && 0 <= k < rows[q].len() ==> (#[trigger] rows[q][k]).1 < rows.len()
            && alphabet.contains(rows[q][k].0)
}

/// What leads at once from one state to another is well formed.
pub proof fn lemma_direct_wf<V>(row: Seq<(V, usize)>, alphabet: Set<V>, i: int, j: int, upto: int)
    requires
        0 <= upto <= row.len(),
        forall|k: int| 0 <= k < row.len() ==> alphabet.contains((#[trigger] row[k]).0),
    ensures
        direct(row, i, j, upto).wf(alphabet),
    decreases upto,
{
    if upto > 0 {
        lemma_direct_wf(row, alphabet, i, j, upto - 1);
        assert(alphabet.contains(row[upto - 1].0));
        lemma_plus(
            direct(row, i, j, upto - 1),
            Tree::Letter(row[upto - 1].0),
            alphabet,
            Seq::empty(),
        );
    }
}

/// What leads from one state to another through the states below `k` is
/// well formed.
pub proof fn lemma_through_wf<V>(
    rows: Seq<Vec<(V, usize)>>,
    alphabet: Set<V>,
    k: nat,
    i: int,
    j: int,
)
    requires
        rows_wf(rows, alphabet),
        k <= rows.len(),
        0 <= i < rows.len(),
    ensures
        through(rows, k, i, j).wf(alphabet),
    decreases k,
{
    if k == 0 {
        assert forall|x: int| 0 <= x < rows[i]@.len() implies alphabet.contains(
            (#[trigger] rows[i]@[x]).0,
        ) by {
            assert(alphabet.contains(rows[i][x].0));
        }
        lemma_direct_wf(rows[i]@, alphabet, i, j, rows[i].len() as int);
    } else {
        let m = (k - 1) as nat;
        lemma_through_wf(rows, alphabet, m, i, j);
        lemma_through_wf(rows, alphabet, m, i, m as int);
        lemma_through_wf(rows, alphabet, m, m as int, m as int);
        lemma_through_wf(rows, alphabet, m, m as int, j);
        let a = through(rows, m, i, m as int);
        let star = Tree::Repeat(Box::new(through(rows, m, m as int, m as int)), 0, None);
        let b = through(rows, m, m as int, j);
        assert(star.wf(alphabet));
        lemma_times(a, star, alphabet, Seq::empty());
        lemma_times(a.times(star), b, alphabet, Seq::empty());
        lemma_plus(through(rows, m, i, j), a.times(star).times(b), alphabet, Seq::empty());
    }
}

/// What leads from a state to the final states is well formed.
pub proof fn lemma_to_finals_wf<V>(
    rows: Seq<Vec<(V, usize)>>,
    alphabet: Set<V>,
    finals: Seq<bool>,
    s: int,
    upto: int,
    acc: Tree<V>,
)
    requires
        rows_wf(rows, alphabet),
        0 <= s < rows.len(),
        0 <= upto <= rows.len(),
        acc.wf(alphabet),
    ensures
        to_finals(rows, finals, s, upto, acc).wf(alphabet),
    decreases upto,
{
    if upto > 0 {
        lemma_to_finals_wf(rows, alphabet, finals, s, upto - 1, acc);
        lemma_through_wf(rows, alphabet, rows.len(), s, upto - 1);
        lemma_plus(
            to_finals(rows, finals, s, upto - 1, acc),
            through(rows, rows.len(), s, upto - 1),
            alphabet,
            Seq::empty(),
        );
    }
}

/// What leads from the initial states to the final states is well formed.
pub proof fn lemma_from_initials_wf<V>(
    rows: Seq<Vec<(V, usize)>>,
    alphabet: Set<V>,
    initials: Seq<bool>,
    finals: Seq<bool>,
    upto: int,
)
    requires
        rows_wf(rows, alphabet),
        0 <= upto <= rows.len(),
    ensures
        from_initials(rows, initials, finals, upto).wf(alphabet),
    decreases upto,
{
    if upto > 0 {
        lemma_from_initials_wf(rows, alphabet, initials, finals, upto - 1);
        lemma_to_finals_wf(
            rows,
            alphabet,
            finals,
            upto - 1,
            rows.len() as int,
            from_initials(rows, initials, finals, upto - 1),
        );
    }
}

/// What leads at once from one state to another is plain or the leaf that
/// matches nothing, and plain from a state to itself.
pub proof fn lemma_direct_plain<V>(row: Seq<(V, usize)>, i: int, j: int, upto: int)
    ensures
        plain_or_empty(direct(row, i, j, upto)),
        i == j ==> plain(direct(row, i, j, upto)),
    decreases upto,
{
    if upto > 0 {
        lemma_direct_plain(row, i, j, upto - 1);
        lemma_plus_plain(direct(row, i, j, upto - 1), Tree::Letter(row[upto - 1].0));
    }
}

/// What leads from one state to another through the states below `k` is
/// plain or the leaf that matches nothing, and plain from a state to itself.
pub proof fn lemma_through_plain<V>(rows: Seq<Vec<(V, usize)>>, k: nat, i: int, j: int)
    ensures
        plain_or_empty(through(rows, k, i, j)),
        i == j ==> plain(through(rows, k, i, j)),
    decreases k,
{
    if k == 0 {
        lemma_direct_plain(rows[i]@, i, j, rows[i].len() as int);
    } else {
        let m = (k - 1) as nat;
        lemma_through_plain(rows, m, i, j);
        lemma_through_plain(rows, m, i, m as int);
        lemma_through_plain(rows, m, m as int, m as int);
        lemma_through_plain(rows, m, m as int, j);
        let a = through(rows, m, i, m as int);
        let star = Tree::Repeat(Box::new(through(rows, m, m as int, m as int)), 0, None);
        let b = through(rows, m, m as int, j);
        assert(plain(star));
        lemma_times_plain(a, star);
        lemma_times_plain(a.times(star), b);
        lemma_plus_plain(through(rows, m, i, j), a.times(star).times(b));
    }
}

/// What leads from a state to the final states, added to an expression that
/// is plain or the leaf that matches nothing, is so too.
pub proof fn lemma_to_finals_plain<V>(
    rows: Seq<Vec<(V, usize)>>,
    finals: Seq<bool>,
    s: int,
    upto: int,
    acc: Tree<V>,
)
    requires
        plain_or_empty(acc),
    ensures
        plain_or_empty(to_finals(rows, finals, s, upto, acc)),
    decreases upto,
{
    if upto > 0 {
        lemma_to_finals_plain(rows, finals, s, upto - 1, acc);
        lemma_through_plain(rows, rows.len(), s, upto - 1);
        lemma_plus_plain(
            to_finals(rows, finals, s, upto - 1, acc),
            through(rows, rows.len(), s, upto - 1),
        );
    }
}

/// What leads from the initial states to the final states is plain or the
/// leaf that matches nothing.
pub proof fn lemma_from_initials_plain<V>(
    rows: Seq<Vec<(V, usize)>>,
    initials: Seq<bool>,
    finals: Seq<bool>,
    upto: int,
)
    ensures
        plain_or_empty(from_initials(rows, initials, finals, upto)),
    decreases upto,
{
    if upto > 0 {
        lemma_from_initials_plain(rows, initials, finals, upto - 1);
        lemma_to_finals_plain(
            rows,
            finals,
            upto - 1,
            rows.len() as int,
            from_initials(rows, initials, finals, upto - 1),
        );
    }
}

/// `t` is what eliminating the states of the automaton `m` gives, for some
/// lists that hold, state by state, the edges of `m`.
pub open spec fn is_elimination<V>(m: NfaModel<V>, t: Tree<V>) -> bool {
    exists|rows: Seq<Vec<(V, usize)>>|
        rows.len() == m.size && #[trigger] edges_of(rows) == m.edges && t == from_initials(
            rows,
            Seq::new(m.size, |q: int| m.initials.contains(q)),
            Seq::new(m.size, |q: int| m.finals.contains(q)),
            m.size as int,
        )
}

/// What leads at once from state `i` to state `j`.
pub fn direct_of<V: Symbol>(row: &Vec<(V, usize)>, i: usize, j: usize) -> (r: Operations<V>)
    ensures
        r@ == direct(row@, i as int, j as int, row.len() as int),
{
    let mut r = if i == j {
        Operations::Epsilon
    } else {
        Operations::Empty
    };
    let mut k: usize = 0;
    while k < row.len()
        invariant
            k <= row.len(),
            r@ == direct(row@, i as int, j as int, k as int),
        decreases row.len() - k,
    {
        if row[k].1 == j {
            r = r.plus(Operations::Letter(row[k].0));
        }
        k += 1;
    }
    r
}

/// The expressions of `mat` are what leads from state to state through the
/// states below `k`.
pub open spec fn table_at<V: Symbol>(
    mat: Seq<Vec<Operations<V>>>,
    rows: Seq<Vec<(V, usize)>>,
    k: nat,
) -> bool {
    &&& mat.len() == rows.len()
    &&& forall|i: int| 0 <= i < mat.len() ==> (#[trigger] mat[i]).len() == rows.len()
    &&& forall|i: int, j: int|
        0 <= i < rows.len() && 0 <= j < rows.len() ==> (#[trigger] mat[i][j]).model() == through(
            rows,
            k,
            i,
            j,
        )
}

impl<V: Symbol> NFA<V> {
    /// The table of what leads from state to state at once.
    fn first_table(&self) -> (mat: Vec<Vec<Operations<V>>>)
        requires
            self.wf(),
        ensures
            table_at(mat@, self.transitions@, 0),
    {
        let n = self.transitions.len();
        let mut mat: Vec<Vec<Operations<V>>> = Vec::new();
        let mut i: usize = 0;
        while i < n
            invariant
                i <= n,
                n == self.transitions.len(),
                mat.len() == i,
                forall|x: int| 0 <= x < i ==> (#[trigger] mat[x]).len() == n,
                forall|x: int, y: int|
                    0 <= x < i && 0 <= y < n ==> (#[trigger] mat[x][y]).model() == through(
                        self.transitions@,
                        0,
                        x,
                        y,
                    ),
            decreases n - i,
        {
            let mut line: Vec<Operations<V>> = Vec::new();
            let mut j: usize = 0;
            while j < n
                invariant
                    j <= n,
                    i < n,
                    n == self.transitions.len(),
                    line.len() == j,
                    forall|y: int|
                        0 <= y < j ==> (#[trigger] line[y]).model() == through(
                            self.transitions@,
                            0,
                            i as int,
                            y,
                        ),
                decreases n - j,
            {
                line.push(direct_of(&self.transitions[i], i, j));
                j += 1;
            }
            mat.push(line);
            i += 1;
        }
        mat
    }

    /// The table of what leads from state to state through the states below
    /// `k + 1`, from the table for the states below `k`.
    fn next_table(&self, mat: &Vec<Vec<Operations<V>>>, k: usize) -> (next: Vec<
        Vec<Operations<V>>,
    >)
        requires
            self.wf(),
            k < self.transitions.len(),
            table_at(mat@, self.transitions@, k as nat),
        ensures
            table_at(next@, self.transitions@, (k + 1) as nat),
    {
        let n = self.transitions.len();
        let mut next: Vec<Vec<Operations<V>>> = Vec::new();
        let mut i: usize = 0;
        while i < n
            invariant
                i <= n,
                k < n,
                n == self.transitions.len(),
                table_at(mat@, self.transitions@, k as nat),
                next.len() == i,
                forall|x: int| 0 <= x < i ==> (#[trigger] next[x]).len() == n,
                forall|x: int, y: int|
                    0 <= x < i && 0 <= y < n ==> (#[trigger] next[x][y]).model() == through(
                        self.transitions@,
                        (k + 1) as nat,
                        x,
                        y,
                    ),
            decreases n - i,
        {
            let mut line: Vec<Operations<V>> = Vec::new();
            let mut j: usize = 0;
            while j < n
                invariant
                    j <= n,
                    i < n,
                    k < n,
                    n == self.transitions.len(),
                    table_at(mat@, self.transitions@, k as nat),
                    line.len() == j,
                    forall|y: int|
                        0 <= y < j ==> (#[trigger] line[y]).model() == through(
                            self.transitions@,
                            (k + 1) as nat,
                            i as int,
                            y,
                        ),
                decreases n - j,
            {
                proof {
                    assert(mat@[i as int].len() == n);
                    assert(mat@[k as int].len() == n);
                    assert(mat@[i as int][j as int].model() == through(
                        self.transitions@,
                        k as nat,
                        i as int,
                        j as int,
                    ));
                    assert(mat@[i as int][k as int].model() == through(
                        self.transitions@,
                        k as nat,
                        i as int,
                        k as int,
                    ));
                    assert(mat@[k as int][k as int].model() == through(
                        self.transitions@,
                        k as nat,
                        k as int,
                        k as int,
                    ));
                    assert(mat@[k as int][j as int].model() == through(
                        self.transitions@,
                        k as nat,
                        k as int,
                        j as int,
                    ));
                }
                let star = Operations::Repeat(Box::new(mat[k][k].copy()), 0, None);
                let round = mat[i][k].copy().times(star).times(mat[k][j].copy());
                line.push(mat[i][j].copy().plus(round));
                j += 1;
            }
            next.push(line);
            i += 1;
        }
        next
    }

    /// An expression that matches the words that the automaton accepts.
    ///
    /// A table holds, for each pair of states, what leads from the first to
    /// the second: at first the letters of the edges between them, and the
    /// empty word from a state to itself. The states are then let in one by
    /// one as states to pass through. The result is the sum of what leads
    /// from an initial state to a final state; for the automaton without
    /// states it is the expression that matches nothing.
    pub fn to_regex(&self) -> (r: Regex<V>)
        requires
            self.wf(),
        ensures
            r.wf(),
            r@.alphabet == self@.alphabet,
            r@.tree == self.elimination(),
            is_elimination(self@, r@.tree),
            plain_or_empty(r@.tree),
            forall|w: Seq<V>| r@.matches(w) <==> self@.accepts(w),
    {
        let n = self.transitions.len();
        let ghost rows = self.transitions@;
        let ghost sigma = self.alphabet@.to_set();
        let mut mat = self.first_table();
        let mut k: usize = 0;
        while k < n
            invariant
                k <= n,
                self.wf(),
                n == self.transitions.len(),
                rows == self.transitions@,
                table_at(mat@, rows, k as nat),
            decreases n - k,
        {
            mat = self.next_table(&mat, k);
            k += 1;
        }
        let mut res = Operations::Empty;
        let mut s: usize = 0;
        while s < n
            invariant
                s <= n,
                self.wf(),
                n == self.transitions.len(),
                rows == self.transitions@,
                table_at(mat@, rows, n as nat),
                res@ == from_initials(rows, self.initials@, self.finals@, s as int),
            decreases n - s,
        {
            if self.initials[s] {
                let ghost before = res@;
                let mut f: usize = 0;
                while f < n
                    invariant
                        f <= n,
                        s < n,
                        self.wf(),
                        n == self.transitions.len(),
                        rows == self.transitions@,
                        table_at(mat@, rows, n as nat),
                        res@ == to_finals(rows, self.finals@, s as int, f as int, before),
                    decreases n - f,
                {
                    if self.finals[f] {
                        proof {
                            assert(mat@[s as int].len() == n);
                            assert(mat@[s as int][f as int].model() == through(
                                rows,
                                n as nat,
                                s as int,
                                f as int,
                            ));
                        }
                        res = res.plus(mat[s][f].copy());
                    }
                    f += 1;
                }
            }
            s += 1;
        }
        proof {
            assert(rows_wf(rows, sigma)) by {
                assert forall|q: int, x: int|
                    0 <= q < rows.len() && 0 <= x < rows[q].len() implies (#[trigger] rows[q][x]).1
                    < rows.len() && sigma.contains(rows[q][x].0) by {
                    assert(self.transitions[q][x].1 < self.transitions.len());
                    assert(self.alphabet@.contains(self.transitions[q][x].0));
                }
            }
            lemma_from_initials_wf(rows, sigma, self.initials@, self.finals@, n as int);
            lemma_from_initials_plain(rows, self.initials@, self.finals@, n as int);
            let m = self@;
            assert(self.initials@ =~= Seq::new(m.size, |q: int| m.initials.contains(q)));
            assert(self.finals@ =~= Seq::new(m.size, |q: int| m.finals.contains(q)));
            assert(edges_of(rows) == m.edges);
            self.lemma_model_wf();
            assert forall|w: Seq<V>|
                from_initials(rows, self.initials@, self.finals@, n as int).matches(sigma, w)
                    <==> self@.accepts(w) by {
                crate::laws::kleene::lemma_elimination_language(
                    rows,
                    self@,
                    self.initials@,
                    self.finals@,
                    w,
                );
            }
        }
        Regex { alphabet: copy_symbols(&self.alphabet), regex: res }
    }

    /// The expression that eliminating the states of the automaton gives.
    pub open(crate) spec fn elimination(&self) -> Tree<V> {
        from_initials(
            self.transitions@,
            self.initials@,
            self.finals@,
            self.transitions.len() as int,
        )
    }
}

} // verus!
