//! The description of an automaton as a graph, in the dot language.
use crate::nfa::basic::only_state;
use crate::model::NfaModel;
use crate::nfa::{edges_of, NFA};
use crate::sets::any_marked;
use crate::symbol::Symbol;
use crate::text::{decimal, decimal_of, push_all, push_str, string_of};
use vstd::prelude::*;

verus! {

/// `s` without its last two characters.
pub open spec fn chopped_twice(s: Seq<char>) -> Seq<char> {
    if s.len() >= 2 {
        s.take(s.len() - 2)
    } else {
        Seq::empty()
    }
}

/// The names of the first `upto` states that are flagged, each behind a
/// blank and `prefix`.
pub open spec fn dot_names(flags: Seq<bool>, prefix: Seq<char>, upto: int) -> Seq<char>
    decreases upto,
{
    if upto <= 0 {
        Seq::empty()
    } else {
        let before = dot_names(flags, prefix, upto - 1);
        if flags[upto - 1] {
            before + seq![' '] + prefix + decimal((upto - 1) as nat)
        } else {
            before
        }
    }
}

/// The symbols of the first `upto` edges of `row` that lead to `target`, each
/// with a comma and a blank behind it.
pub open spec fn dot_symbols<V: Symbol>(row: Seq<(V, usize)>, target: int, upto: int) -> Seq<char>
    decreases upto,
{
    if upto <= 0 {
        Seq::empty()
    } else {
        let before = dot_symbols(row, target, upto - 1);
        if row[upto - 1].1 == target {
            before + row[upto - 1].0.spelled() + seq![',', ' ']
        } else {
            before
        }
    }
}

/// Whether one of the first `upto` edges of `row` leads to `target`.
pub open spec fn leads_to<V>(row: Seq<(V, usize)>, target: int, upto: int) -> bool {
    exists|k: int| 0 <= k < upto && (#[trigger] row[k]).1 == target
}

/// The arrow from state `from` to state `target`, labelled with the symbols
/// of the edges of `row` that lead there.
pub open spec fn dot_arrow<V: Symbol>(row: Seq<(V, usize)>, from: int, target: int) -> Seq<char> {
    "    S_"@ + decimal(from as nat) + " -> S_"@ + decimal(target as nat) + " [label = \""@
        + chopped_twice(dot_symbols(row, target, row.len() as int)) + "\"];"@
}

/// The arrows from state `from` to those of the first `upto` states to which
/// an edge of `row` leads.
pub open spec fn dot_arrows<V: Symbol>(row: Seq<(V, usize)>, from: int, upto: int) -> Seq<char>
    decreases upto,
{
    if upto <= 0 {
        Seq::empty()
    } else {
        let before = dot_arrows(row, from, upto - 1);
        if leads_to(row, upto - 1, row.len() as int) {
            before + dot_arrow(row, from, upto - 1)
        } else {
            before
        }
    }
}

/// The first `upto` states: a state without edges by its name, the others by
/// their arrows.
pub open spec fn dot_states<V: Symbol>(rows: Seq<Vec<(V, usize)>>, upto: int) -> Seq<char>
    decreases upto,
{
    if upto <= 0 {
        Seq::empty()
    } else {
        let before = dot_states(rows, upto - 1);
        let row = rows[upto - 1]@;
        if row.len() == 0 {
            before + "    S_"@ + decimal((upto - 1) as nat) + ";"@
        } else {
            before + dot_arrows(row, upto - 1, rows.len() as int)
        }
    }
}

/// The arrows into the first `upto` states that are initial, each from a
/// point of its own.
pub open spec fn dot_entries(initials: Seq<bool>, upto: int) -> Seq<char>
    decreases upto,
{
    if upto <= 0 {
        Seq::empty()
    } else {
        let before = dot_entries(initials, upto - 1);
        if initials[upto - 1] {
            before + "    I_"@ + decimal((upto - 1) as nat) + " -> S_"@ + decimal((upto - 1) as nat)
                + ";"@
        } else {
            before
        }
    }
}

/// The names of the flagged states behind `head`, and a semicolon; nothing
/// where no state is flagged.
pub open spec fn dot_group(flags: Seq<bool>, head: Seq<char>, prefix: Seq<char>) -> Seq<char> {
    if exists|q: int| crate::sets::marked(flags).contains(q) {
        head + dot_names(flags, prefix, flags.len() as int) + ";"@
    } else {
        Seq::empty()
    }
}

/// The description of the graph with the given flags and rows.
pub open spec fn dot_text<V: Symbol>(
    initials: Seq<bool>,
    finals: Seq<bool>,
    rows: Seq<Vec<(V, usize)>>,
) -> Seq<char> {
    "digraph {"@ + dot_group(finals, "    node [shape = doublecircle];"@, "S_"@) + dot_group(
        initials,
        "    node [shape = point];"@,
        "I_"@,
    ) + "    node [shape = circle];"@ + dot_states(rows, rows.len() as int) + dot_entries(
        initials,
        initials.len() as int,
    ) + "}"@
}

/// `text` describes the automaton `m` as a graph: it is the description for
/// the initial and the final states of `m` and for some lists that hold,
/// state by state, the edges of `m`.
pub open spec fn is_drawing<V: Symbol>(m: NfaModel<V>, text: Seq<char>) -> bool {
    exists|rows: Seq<Vec<(V, usize)>>|
        rows.len() == m.size && #[trigger] edges_of(rows) == m.edges && text == dot_text(
            Seq::new(m.size, |q: int| m.initials.contains(q)),
            Seq::new(m.size, |q: int| m.finals.contains(q)),
            rows,
        )
}

/// Appends the names of the flagged states behind `head`, and a semicolon.
pub fn push_group(out: &mut Vec<char>, flags: &Vec<bool>, head: &str, prefix: &str)
    ensures
        final(out)@ == old(out)@ + dot_group(flags@, head@, prefix@),
{
    if any_marked(flags) {
        let ghost start = out@;
        push_str(out, head);
        let mut q: usize = 0;
        while q < flags.len()
            invariant
                q <= flags.len(),
                out@ == start + head@ + dot_names(flags@, prefix@, q as int),
            decreases flags.len() - q,
        {
            if flags[q] {
                out.push(' ');
                push_str(out, prefix);
                let digits = decimal_of(q as u64);
                push_all(out, &digits);
                proof {
                    assert(out@ =~= start + head@ + (dot_names(flags@, prefix@, q as int)
                        + seq![' '] + prefix@ + decimal(q as nat)));
                }
            }
            q += 1;
        }
        push_str(out, ";");
        proof {
            assert(out@ =~= start + (head@ + dot_names(flags@, prefix@, flags.len() as int)
                + ";"@));
        }
    } else {
        proof {
            assert(out@ =~= old(out)@ + Seq::<char>::empty());
        }
    }
}

/// Appends the arrow from state `from` to state `target`.
pub fn push_arrow<V: Symbol>(out: &mut Vec<char>, row: &Vec<(V, usize)>, from: usize, target: usize)
    ensures
        final(out)@ == old(out)@ + dot_arrow(row@, from as int, target as int),
{
    let ghost start = out@;
    let mut label: Vec<char> = Vec::new();
    let mut k: usize = 0;
    while k < row.len()
        invariant
            k <= row.len(),
            label@ == dot_symbols(row@, target as int, k as int),
        decreases row.len() - k,
    {
        if row[k].1 == target {
            let name = row[k].0.spell();
            push_all(&mut label, &name);
            label.push(',');
            label.push(' ');
            proof {
                assert(label@ =~= dot_symbols(row@, target as int, k as int)
                    + row@[k as int].0.spelled() + seq![',', ' ']);
            }
        }
        k += 1;
    }
    let ghost full = label@;
    label.pop();
    label.pop();
    proof {
        assert(label@ =~= chopped_twice(full));
    }
    push_str(out, "    S_");
    push_all(out, &decimal_of(from as u64));
    push_str(out, " -> S_");
    push_all(out, &decimal_of(target as u64));
    push_str(out, " [label = \"");
    push_all(out, &label);
    push_str(out, "\"];");
    proof {
        assert(out@ =~= start + dot_arrow(row@, from as int, target as int));
    }
}

/// Whether an edge of `row` leads to `target`.
pub fn has_edge_to<V: Symbol>(row: &Vec<(V, usize)>, target: usize) -> (r: bool)
    ensures
        r == leads_to(row@, target as int, row.len() as int),
{
    let mut k: usize = 0;
    while k < row.len()
        invariant
            k <= row.len(),
            !leads_to(row@, target as int, k as int),
        decreases row.len() - k,
    {
        if row[k].1 == target {
            proof {
                assert(row@[k as int].1 == target);
            }
            return true;
        }
        proof {
            if leads_to(row@, target as int, k as int + 1) {
                let j = choose|j: int| 0 <= j < k + 1 && (#[trigger] row@[j]).1 == target as int;
                assert(row@[j].1 == target as int);
                assert(leads_to(row@, target as int, k as int));
            }
        }
        k += 1;
    }
    false
}

/// The description, as a graph in the dot language, of the automaton with
/// the given flags and rows.
pub fn draw<V: Symbol>(initials: &Vec<bool>, finals: &Vec<bool>, rows: &Vec<Vec<(V, usize)>>) -> (r:
    String)
    ensures
        r@ == dot_text(initials@, finals@, rows@),
{
    let n = rows.len();
    let mut out: Vec<char> = Vec::new();
    push_str(&mut out, "digraph {");
    push_group(&mut out, &finals, "    node [shape = doublecircle];", "S_");
    push_group(&mut out, &initials, "    node [shape = point];", "I_");
    push_str(&mut out, "    node [shape = circle];");
    let ghost head = out@;
    let mut i: usize = 0;
    while i < n
        invariant
            i <= n,
            n == rows.len(),
            out@ == head + dot_states(rows@, i as int),
        decreases n - i,
    {
        let row = &rows[i];
        if row.len() == 0 {
            push_str(&mut out, "    S_");
            push_all(&mut out, &decimal_of(i as u64));
            push_str(&mut out, ";");
            proof {
                assert(out@ =~= head + (dot_states(rows@, i as int) + "    S_"@
                    + decimal(i as nat) + ";"@));
            }
        } else {
            let ghost before = out@;
            let mut e: usize = 0;
            while e < n
                invariant
                    e <= n,
                    i < n,
                    n == rows.len(),
                    row == rows[i as int],
                    out@ == before + dot_arrows(row@, i as int, e as int),
                decreases n - e,
            {
                if has_edge_to(row, e) {
                    push_arrow(&mut out, row, i, e);
                    proof {
                        assert(out@ =~= before + (dot_arrows(row@, i as int, e as int)
                            + dot_arrow(row@, i as int, e as int)));
                    }
                }
                e += 1;
            }
            proof {
                assert(out@ =~= head + (dot_states(rows@, i as int) + dot_arrows(
                    row@,
                    i as int,
                    n as int,
                )));
            }
        }
        i += 1;
    }
    let ghost body = out@;
    let mut q: usize = 0;
    while q < initials.len()
        invariant
            q <= initials.len(),
            out@ == body + dot_entries(initials@, q as int),
        decreases initials.len() - q,
    {
        if initials[q] {
            push_str(&mut out, "    I_");
            push_all(&mut out, &decimal_of(q as u64));
            push_str(&mut out, " -> S_");
            push_all(&mut out, &decimal_of(q as u64));
            push_str(&mut out, ";");
            proof {
                assert(out@ =~= body + (dot_entries(initials@, q as int) + "    I_"@
                    + decimal(q as nat) + " -> S_"@ + decimal(q as nat) + ";"@));
            }
        }
        q += 1;
    }
    push_str(&mut out, "}");
    proof {
        assert(out@ =~= dot_text(initials@, finals@, rows@));
    }
    string_of(&out)
}

impl<V: Symbol> NFA<V> {
    /// The description of the automaton as the model of its representation
    /// gives it.
    pub open(crate) spec fn dot(&self) -> Seq<char> {
        dot_text(self.initials@, self.finals@, self.transitions@)
    }

    /// The description of the automaton as a graph in the dot language.
    ///
    /// The final states are drawn as double circles and the others as
    /// circles. A state without edges is named; between two states one arrow
    /// stands for all edges, labelled with their symbols. Every initial state
    /// is entered by an arrow from a point of its own.
    pub fn to_dot(&self) -> (r: String)
        requires
            self.wf(),
        ensures
            r@ == self.dot(),
            is_drawing(self@, r@),
    {
        proof {
            let m = self@;
            assert(self.initials@ =~= Seq::new(m.size, |q: int| m.initials.contains(q)));
            assert(self.finals@ =~= Seq::new(m.size, |q: int| m.finals.contains(q)));
            assert(edges_of(self.transitions@) == m.edges);
        }
        draw(&self.initials, &self.finals, &self.transitions)
    }
}

impl<V: Symbol> crate::dfa::DFA<V> {
    /// The description of the automaton as the model of its representation
    /// gives it: that of the same automaton seen as a nondeterministic one.
    pub open(crate) spec fn dot(&self) -> Seq<char> {
        dot_text(
            Seq::new(self.transitions@.len(), |q: int| q == self.initial),
            self.finals@,
            self.transitions@,
        )
    }

    /// The description of the automaton as a graph in the dot language: that
    /// of the same automaton seen as a nondeterministic one.
    pub fn to_dot(&self) -> (r: String)
        requires
            self.wf(),
        ensures
            r@ == self.dot(),
            is_drawing(self@.to_nfa(), r@),
    {
        let initials = only_state(self.transitions.len(), self.initial);
        proof {
            let m = self@.to_nfa();
            assert(Seq::new(self.transitions@.len(), |q: int| q == self.initial) =~= Seq::new(
                m.size,
                |q: int| m.initials.contains(q),
            ));
            assert(self.finals@ =~= Seq::new(m.size, |q: int| m.finals.contains(q)));
            assert(edges_of(self.transitions@) == m.edges);
            assert(initials@ =~= Seq::new(self.transitions@.len(), |q: int| q == self.initial)) by {
                assert forall|q: int| 0 <= q < initials.len() implies initials[q] == (q
                    == self.initial) by {
                    assert(crate::sets::marked(initials@).contains(q) <==> q == self.initial);
                }
            }
        }
        draw(&initials, &self.finals, &self.transitions)
    }
}

} // verus!
