//! The mathematical models of the automata, and what it means for one to
//! accept a word.
use vstd::prelude::*;

verus! {

/// A nondeterministic automaton as mathematics: states are the integers
/// below `size`, and `edges` holds `(q, a, t)` where `t` is a successor of `q`
/// on the symbol `a`.
#[verifier::reject_recursive_types(V)]
pub struct NfaModel<V> {
    pub alphabet: Set<V>,
    pub size: nat,
    pub initials: Set<int>,
    pub finals: Set<int>,
    pub edges: Set<(int, V, int)>,
}

impl<V> NfaModel<V> {
    /// Initial states, final states and both ends of every edge are states,
    /// and every edge is labelled by a symbol of the alphabet.
    pub open spec fn wf(self) -> bool {
        &&& forall|q: int| #[trigger] self.initials.contains(q) ==> 0 <= q < self.size
        &&& forall|q: int| #[trigger] self.finals.contains(q) ==> 0 <= q < self.size
        &&& forall|q: int, a: V, t: int| #[trigger]
            self.edges.contains((q, a, t)) ==> 0 <= q < self.size && 0 <= t < self.size
                && self.alphabet.contains(a)
    }

    /// `p` is a walk through the automaton that reads `w`: one state more
    /// than symbols, and an edge for each symbol between neighbours.
    pub open spec fn is_walk(self, p: Seq<int>, w: Seq<V>) -> bool {
        &&& p.len() == w.len() + 1
        &&& forall|i: int|
            0 <= i < w.len() ==> self.edges.contains((p[i], #[trigger] w[i], p[i + 1]))
    }

    /// Some walk from `q` to `t` reads `w`.
    pub open spec fn links(self, q: int, w: Seq<V>, t: int) -> bool {
        exists|p: Seq<int>| #[trigger] self.is_walk(p, w) && p[0] == q && p.last() == t
    }

    /// The automaton accepts `w`: some walk from an initial state to a final
    /// state reads it.
    pub open spec fn accepts(self, w: Seq<V>) -> bool {
        exists|p: Seq<int>| #[trigger]
            self.is_walk(p, w) && self.initials.contains(p[0]) && self.finals.contains(p.last())
    }

    /// The states reached from a state of `s` by one edge labelled `a`.
    pub open spec fn step(self, s: Set<int>, a: V) -> Set<int> {
        Set::new(|t: int| exists|q: int| s.contains(q) && #[trigger] self.edges.contains((q, a, t)))
    }

    /// The states reached from a state of `s` by reading `w`.
    pub open spec fn after(self, s: Set<int>, w: Seq<V>) -> Set<int>
        decreases w.len(),
    {
        if w.len() == 0 {
            s
        } else {
            self.step(self.after(s, w.drop_last()), w.last())
        }
    }

    /// The language of the automaton.
    pub open spec fn language(self) -> spec_fn(Seq<V>) -> bool {
        |w: Seq<V>| self.accepts(w)
    }
}

/// Extending a walk by one edge gives a walk.
pub proof fn lemma_walk_push<V>(m: NfaModel<V>, p: Seq<int>, w: Seq<V>, a: V, t: int)
    requires
        m.is_walk(p, w),
        m.edges.contains((p.last(), a, t)),
    ensures
        m.is_walk(p.push(t), w.push(a)),
        p.push(t)[0] == p[0],
        p.push(t).last() == t,
{
    let p2 = p.push(t);
    let w2 = w.push(a);
    assert forall|i: int| 0 <= i < w2.len() implies m.edges.contains(
        (p2[i], #[trigger] w2[i], p2[i + 1]),
    ) by {
        if i < w.len() {
            assert(w2[i] == w[i]);
        }
    }
}

/// Dropping the last edge of a walk gives a walk.
pub proof fn lemma_walk_pop<V>(m: NfaModel<V>, p: Seq<int>, w: Seq<V>)
    requires
        m.is_walk(p, w),
        w.len() > 0,
    ensures
        m.is_walk(p.drop_last(), w.drop_last()),
        m.edges.contains((p.drop_last().last(), w.last(), p.last())),
        p.drop_last()[0] == p[0],
{
    let p2 = p.drop_last();
    let w2 = w.drop_last();
    assert forall|i: int| 0 <= i < w2.len() implies m.edges.contains(
        (p2[i], #[trigger] w2[i], p2[i + 1]),
    ) by {
        assert(w2[i] == w[i]);
    }
    assert(w[w.len() - 1] == w.last());
}

/// `after` holds exactly the ends of the walks that start in the set.
pub proof fn lemma_after_is_walks<V>(m: NfaModel<V>, s: Set<int>, w: Seq<V>, t: int)
    ensures
        m.after(s, w).contains(t) <==> exists|q: int| s.contains(q) && #[trigger] m.links(q, w, t),
    decreases w.len(),
{
    if w.len() == 0 {
        if s.contains(t) {
            let p = seq![t];
            assert(m.is_walk(p, w));
            assert(m.links(t, w, t));
        }
        if exists|q: int| s.contains(q) && #[trigger] m.links(q, w, t) {
            let q = choose|q: int| s.contains(q) && #[trigger] m.links(q, w, t);
            let p = choose|p: Seq<int>| #[trigger] m.is_walk(p, w) && p[0] == q && p.last() == t;
            assert(q == t);
        }
    } else {
        let w0 = w.drop_last();
        let a = w.last();
        if m.after(s, w).contains(t) {
            let mid = choose|mid: int|
                m.after(s, w0).contains(mid) && #[trigger] m.edges.contains((mid, a, t));
            lemma_after_is_walks(m, s, w0, mid);
            let q = choose|q: int| s.contains(q) && #[trigger] m.links(q, w0, mid);
            let p = choose|p: Seq<int>| #[trigger]
                m.is_walk(p, w0) && p[0] == q && p.last() == mid;
            lemma_walk_push(m, p, w0, a, t);
            assert(w0.push(a) =~= w);
            assert(m.links(q, w, t));
        }
        if exists|q: int| s.contains(q) && #[trigger] m.links(q, w, t) {
            let q = choose|q: int| s.contains(q) && #[trigger] m.links(q, w, t);
            let p = choose|p: Seq<int>| #[trigger] m.is_walk(p, w) && p[0] == q && p.last() == t;
            lemma_walk_pop(m, p, w);
            let mid = p.drop_last().last();
            assert(m.links(q, w0, mid));
            lemma_after_is_walks(m, s, w0, mid);
            assert(m.after(s, w0).contains(mid));
            assert(m.edges.contains((mid, a, t)));
        }
    }
}

/// A word is accepted exactly when reading it from the initial states can
/// end in a final state.
pub proof fn lemma_accepts_by_after<V>(m: NfaModel<V>, w: Seq<V>)
    ensures
        m.accepts(w) <==> exists|t: int| #[trigger]
            m.after(m.initials, w).contains(t) && m.finals.contains(t),
{
    if m.accepts(w) {
        let p = choose|p: Seq<int>| #[trigger]
            m.is_walk(p, w) && m.initials.contains(p[0]) && m.finals.contains(p.last());
        assert(m.links(p[0], w, p.last()));
        lemma_after_is_walks(m, m.initials, w, p.last());
    }
    if exists|t: int| #[trigger] m.after(m.initials, w).contains(t) && m.finals.contains(t) {
        let t = choose|t: int| #[trigger]
            m.after(m.initials, w).contains(t) && m.finals.contains(t);
        lemma_after_is_walks(m, m.initials, w, t);
        let q = choose|q: int| m.initials.contains(q) && #[trigger] m.links(q, w, t);
        let p = choose|p: Seq<int>| #[trigger] m.is_walk(p, w) && p[0] == q && p.last() == t;
        assert(m.is_walk(p, w) && m.initials.contains(p[0]) && m.finals.contains(p.last()));
    }
}

impl<V> NfaModel<V> {
    /// The automaton without states.
    pub open spec fn empty(alphabet: Set<V>) -> Self {
        NfaModel {
            alphabet,
            size: 0,
            initials: Set::empty(),
            finals: Set::empty(),
            edges: Set::empty(),
        }
    }

    /// One state, initial and final, and no edge.
    pub open spec fn empty_word(alphabet: Set<V>) -> Self {
        NfaModel {
            alphabet,
            size: 1,
            initials: set![0int],
            finals: set![0int],
            edges: Set::empty(),
        }
    }

    /// One state, initial and final, with a loop on every symbol.
    pub open spec fn full(alphabet: Set<V>) -> Self {
        NfaModel {
            alphabet,
            size: 1,
            initials: set![0int],
            finals: set![0int],
            edges: Set::new(|e: (int, V, int)| e.0 == 0 && e.2 == 0 && alphabet.contains(e.1)),
        }
    }

    /// A line of `len + 1` states, each but the last leading to the next on
    /// every symbol; the first is initial and the last is final.
    pub open spec fn length(alphabet: Set<V>, len: nat) -> Self {
        NfaModel {
            alphabet,
            size: len + 1,
            initials: set![0int],
            finals: set![len as int],
            edges: Set::new(
                |e: (int, V, int)| 0 <= e.0 < len && e.2 == e.0 + 1 && alphabet.contains(e.1),
            ),
        }
    }

    /// A line of `word.len() + 1` states, state `i` leading to the next on
    /// `word[i]` alone; the first is initial and the last is final.
    pub open spec fn matching(alphabet: Set<V>, word: Seq<V>) -> Self {
        NfaModel {
            alphabet,
            size: word.len() + 1,
            initials: set![0int],
            finals: set![word.len() as int],
            edges: Set::new(
                |e: (int, V, int)| 0 <= e.0 < word.len() && e.2 == e.0 + 1 && e.1 == word[e.0],
            ),
        }
    }
}

/// Where every edge leads from a state to the next one, a walk counts up.
pub proof fn lemma_walk_counts_up<V>(m: NfaModel<V>, p: Seq<int>, w: Seq<V>, i: int)
    requires
        m.is_walk(p, w),
        forall|q: int, a: V, t: int| #[trigger] m.edges.contains((q, a, t)) ==> t == q + 1,
        0 <= i <= w.len(),
    ensures
        p[i] == p[0] + i,
    decreases i,
{
    if i > 0 {
        lemma_walk_counts_up(m, p, w, i - 1);
        assert(m.edges.contains((p[i - 1], w[i - 1], p[i - 1 + 1])));
    }
}

/// The automaton without states accepts no word.
pub proof fn lemma_empty_language<V>(alphabet: Set<V>, w: Seq<V>)
    ensures
        !NfaModel::empty(alphabet).accepts(w),
{
}

/// The one-state automaton without edges accepts the empty word alone.
pub proof fn lemma_empty_word_language<V>(alphabet: Set<V>, w: Seq<V>)
    ensures
        NfaModel::empty_word(alphabet).accepts(w) <==> w.len() == 0,
{
    let m = NfaModel::empty_word(alphabet);
    if w.len() == 0 {
        let p = seq![0int];
        assert(m.is_walk(p, w));
    }
    if m.accepts(w) && w.len() > 0 {
        let p = choose|p: Seq<int>| #[trigger]
            m.is_walk(p, w) && m.initials.contains(p[0]) && m.finals.contains(p.last());
        assert(m.edges.contains((p[0], w[0], p[0int + 1])));
    }
}

/// The one-state automaton with all loops accepts every word over its
/// alphabet, and no other.
pub proof fn lemma_full_language<V>(alphabet: Set<V>, w: Seq<V>)
    ensures
        NfaModel::full(alphabet).accepts(w) <==> crate::language::word_over(alphabet, w),
{
    let m = NfaModel::full(alphabet);
    if crate::language::word_over(alphabet, w) {
        let p = Seq::new(w.len() + 1, |i: int| 0int);
        assert(m.is_walk(p, w));
    }
    if m.accepts(w) {
        let p = choose|p: Seq<int>| #[trigger]
            m.is_walk(p, w) && m.initials.contains(p[0]) && m.finals.contains(p.last());
        assert forall|i: int| 0 <= i < w.len() implies alphabet.contains(#[trigger] w[i]) by {
            assert(m.edges.contains((p[i], w[i], p[i + 1])));
        }
    }
}

/// The line over all symbols accepts the words of its length over its
/// alphabet, and no other.
pub proof fn lemma_length_language<V>(alphabet: Set<V>, len: nat, w: Seq<V>)
    ensures
        NfaModel::length(alphabet, len).accepts(w) <==> (w.len() == len
            && crate::language::word_over(alphabet, w)),
{
    let m = NfaModel::length(alphabet, len);
    if w.len() == len && crate::language::word_over(alphabet, w) {
        let p = Seq::new(w.len() + 1, |i: int| i);
        assert(m.is_walk(p, w));
    }
    if m.accepts(w) {
        let p = choose|p: Seq<int>| #[trigger]
            m.is_walk(p, w) && m.initials.contains(p[0]) && m.finals.contains(p.last());
        lemma_walk_counts_up(m, p, w, w.len() as int);
        assert forall|i: int| 0 <= i < w.len() implies alphabet.contains(#[trigger] w[i]) by {
            assert(m.edges.contains((p[i], w[i], p[i + 1])));
        }
    }
}

/// The line that spells `word` accepts `word` and no other word.
pub proof fn lemma_matching_language<V>(alphabet: Set<V>, word: Seq<V>, w: Seq<V>)
    ensures
        NfaModel::matching(alphabet, word).accepts(w) <==> w == word,
{
    let m = NfaModel::matching(alphabet, word);
    if w == word {
        let p = Seq::new(w.len() + 1, |i: int| i);
        assert(m.is_walk(p, w));
    }
    if m.accepts(w) {
        let p = choose|p: Seq<int>| #[trigger]
            m.is_walk(p, w) && m.initials.contains(p[0]) && m.finals.contains(p.last());
        lemma_walk_counts_up(m, p, w, w.len() as int);
        assert forall|i: int| 0 <= i < w.len() implies w[i] == word[i] by {
            lemma_walk_counts_up(m, p, w, i);
            assert(m.edges.contains((p[i], w[i], p[i + 1])));
        }
        assert(w =~= word);
    }
}

impl<V> NfaModel<V> {
    /// The states that some walk from a state of `s` ends in.
    pub open spec fn reach_from(self, s: Set<int>) -> Set<int> {
        Set::new(|t: int| exists|q: int, w: Seq<V>| s.contains(q) && #[trigger] self.links(q, w, t))
    }

    /// The states that some walk from an initial state ends in.
    pub open spec fn reachable(self) -> Set<int> {
        self.reach_from(self.initials)
    }

    /// Every state is reached by some walk from an initial state.
    pub open spec fn is_reachable(self) -> bool {
        forall|q: int| 0 <= q < self.size ==> self.reachable().contains(q)
    }

    /// There is an initial state, and every state has a successor on every
    /// symbol of the alphabet.
    pub open spec fn is_complete(self) -> bool {
        &&& exists|q: int| self.initials.contains(q)
        &&& forall|q: int, a: V|
            0 <= q < self.size && self.alphabet.contains(a) ==> #[trigger] self.has_successor(q, a)
    }

    /// Some edge labelled `a` leaves `q`.
    pub open spec fn has_successor(self, q: int, a: V) -> bool {
        exists|t: int| #[trigger] self.edges.contains((q, a, t))
    }
}

/// Every state links to itself by the empty word.
pub proof fn lemma_links_self<V>(m: NfaModel<V>, q: int)
    ensures
        m.links(q, Seq::<V>::empty(), q),
{
    let p = seq![q];
    assert(m.is_walk(p, Seq::<V>::empty()));
}

/// A link followed by an edge is a link.
pub proof fn lemma_links_push<V>(m: NfaModel<V>, q: int, w: Seq<V>, mid: int, a: V, t: int)
    requires
        m.links(q, w, mid),
        m.edges.contains((mid, a, t)),
    ensures
        m.links(q, w.push(a), t),
{
    let p = choose|p: Seq<int>| #[trigger] m.is_walk(p, w) && p[0] == q && p.last() == mid;
    lemma_walk_push(m, p, w, a, t);
}

/// A set that is closed under the edges holds every state that a walk from
/// one of its states passes.
pub proof fn lemma_closed_holds_walk<V>(
    m: NfaModel<V>,
    closed: Set<int>,
    p: Seq<int>,
    w: Seq<V>,
    i: int,
)
    requires
        m.is_walk(p, w),
        closed.contains(p[0]),
        forall|q: int, a: V, t: int|
            closed.contains(q) && #[trigger] m.edges.contains((q, a, t)) ==> closed.contains(t),
        0 <= i <= w.len(),
    ensures
        closed.contains(p[i]),
    decreases i,
{
    if i > 0 {
        lemma_closed_holds_walk(m, closed, p, w, i - 1);
        assert(m.edges.contains((p[i - 1], w[i - 1], p[i - 1 + 1])));
    }
}

/// A set of reached states that holds the start and is closed under the edges
/// is the set of all reached states.
pub proof fn lemma_closed_is_reach<V>(m: NfaModel<V>, s: Set<int>, closed: Set<int>)
    requires
        s.subset_of(closed),
        closed.subset_of(m.reach_from(s)),
        forall|q: int, a: V, t: int|
            closed.contains(q) && #[trigger] m.edges.contains((q, a, t)) ==> closed.contains(t),
    ensures
        closed =~= m.reach_from(s),
{
    assert forall|t: int| m.reach_from(s).contains(t) implies closed.contains(t) by {
        let (q, w) = choose|q: int, w: Seq<V>| s.contains(q) && #[trigger] m.links(q, w, t);
        let p = choose|p: Seq<int>| #[trigger] m.is_walk(p, w) && p[0] == q && p.last() == t;
        lemma_closed_holds_walk(m, closed, p, w, w.len() as int);
    }
}

impl<V> NfaModel<V> {
    /// The automaton accepts no word.
    pub open spec fn is_empty(self) -> bool {
        forall|w: Seq<V>| !self.accepts(w)
    }

    /// Some initial state is final, and every state that a walk from an
    /// initial state ends in is final.
    pub open spec fn is_full(self) -> bool {
        &&& exists|q: int| self.initials.contains(q) && self.finals.contains(q)
        &&& forall|t: int| self.reachable().contains(t) ==> self.finals.contains(t)
    }
}

/// An automaton accepts some word exactly when a walk from an initial state
/// ends in a final state.
pub proof fn lemma_empty_by_reach<V>(m: NfaModel<V>)
    ensures
        m.is_empty() <==> forall|t: int| m.reachable().contains(t) ==> !m.finals.contains(t),
{
    if !m.is_empty() {
        let w = choose|w: Seq<V>| m.accepts(w);
        let p = choose|p: Seq<int>| #[trigger]
            m.is_walk(p, w) && m.initials.contains(p[0]) && m.finals.contains(p.last());
        assert(m.links(p[0], w, p.last()));
        assert(m.reachable().contains(p.last()));
    }
    if !(forall|t: int| m.reachable().contains(t) ==> !m.finals.contains(t)) {
        let t = choose|t: int| m.reachable().contains(t) && m.finals.contains(t);
        let (q, w) = choose|q: int, w: Seq<V>|
            m.initials.contains(q) && #[trigger] m.links(q, w, t);
        let p = choose|p: Seq<int>| #[trigger] m.is_walk(p, w) && p[0] == q && p.last() == t;
        assert(m.accepts(w));
    }
}

/// The edges of `e` with both ends moved up by `by`.
pub open spec fn shifted_edges<V>(e: Set<(int, V, int)>, by: int) -> Set<(int, V, int)> {
    Set::new(|x: (int, V, int)| e.contains((x.0 - by, x.1, x.2 - by)))
}

impl<V> NfaModel<V> {
    /// Some initial state is final.
    pub open spec fn accepts_empty(self) -> bool {
        exists|q: int| self.initials.contains(q) && self.finals.contains(q)
    }

    /// Some edge labelled `a` leads from an initial state to `t`.
    pub open spec fn starts_on(self, a: V, t: int) -> bool {
        exists|i: int| self.initials.contains(i) && #[trigger] self.edges.contains((i, a, t))
    }

    /// The two automata side by side: the states of `o` come after those of
    /// `self`, and nothing links the two.
    pub open spec fn unite(self, o: Self) -> Self {
        let n = self.size as int;
        NfaModel {
            alphabet: self.alphabet.union(o.alphabet),
            size: self.size + o.size,
            initials: self.initials.union(crate::sets::shifted(o.initials, n)),
            finals: self.finals.union(crate::sets::shifted(o.finals, n)),
            edges: self.edges.union(shifted_edges(o.edges, n)),
        }
    }

    /// `self` followed by `o`: the states of `o` come after those of `self`,
    /// and every final state of `self` gets the edges that leave the initial
    /// states of `o`. The final states of `self` stay final only where `o`
    /// accepts the empty word.
    pub open spec fn concatenate(self, o: Self) -> Self {
        let n = self.size as int;
        NfaModel {
            alphabet: self.alphabet.union(o.alphabet),
            size: self.size + o.size,
            initials: self.initials,
            finals: if o.accepts_empty() {
                self.finals.union(crate::sets::shifted(o.finals, n))
            } else {
                crate::sets::shifted(o.finals, n)
            },
            edges: self.edges.union(shifted_edges(o.edges, n)).union(
                Set::new(
                    |x: (int, V, int)| self.finals.contains(x.0) && o.starts_on(x.1, x.2 - n),
                ),
            ),
        }
    }

    /// The star of `self`: one more state, which is the only initial state
    /// and is final; it and every final state get the edges that leave the
    /// initial states of `self`.
    pub open spec fn kleene(self) -> Self {
        let n = self.size as int;
        NfaModel {
            alphabet: self.alphabet,
            size: self.size + 1,
            initials: set![n],
            finals: self.finals.insert(n),
            edges: self.edges.union(
                Set::new(
                    |x: (int, V, int)|
                        (x.0 == n || self.finals.contains(x.0)) && self.starts_on(x.1, x.2),
                ),
            ),
        }
    }

    /// Every edge turned round, and the initial and final states exchanged.
    pub open spec fn reverse(self) -> Self {
        NfaModel {
            alphabet: self.alphabet,
            size: self.size,
            initials: self.finals,
            finals: self.initials,
            edges: Set::new(|x: (int, V, int)| self.edges.contains((x.2, x.1, x.0))),
        }
    }

    /// `self` where it is complete. Otherwise one more state, the sink, to
    /// which every state, the sink too, leads on each symbol on which it had
    /// no successor; the sink is initial where there was no initial state.
    pub open spec fn complete(self) -> Self {
        let n = self.size as int;
        if self.is_complete() {
            self
        } else {
            NfaModel {
                alphabet: self.alphabet,
                size: self.size + 1,
                initials: if self.initials =~= Set::<int>::empty() {
                    set![n]
                } else {
                    self.initials
                },
                finals: self.finals,
                edges: self.edges.union(
                    Set::new(
                        |x: (int, V, int)|
                            0 <= x.0 <= n && x.2 == n && self.alphabet.contains(x.1)
                                && !self.has_successor(x.0, x.1),
                    ),
                ),
            }
        }
    }

    /// One more state, initial and final and without edges, unless `self`
    /// accepts the empty word already.
    pub open spec fn or_empty_word(self) -> Self {
        let n = self.size as int;
        if self.accepts_empty() {
            self
        } else {
            NfaModel {
                alphabet: self.alphabet,
                size: self.size + 1,
                initials: self.initials.insert(n),
                finals: self.finals.insert(n),
                edges: self.edges,
            }
        }
    }

    /// `k` copies of `self`, one after the other, behind the automaton of the
    /// empty word.
    pub open spec fn chain(self, k: nat) -> Self
        decreases k,
    {
        if k == 0 {
            NfaModel::empty_word(self.alphabet)
        } else {
            self.chain((k - 1) as nat).concatenate(self)
        }
    }

    /// At most `k` words of `self` in a row.
    pub open spec fn at_most(self, k: nat) -> Self {
        self.or_empty_word().chain(k)
    }

    /// At least `k` words of `self` in a row.
    pub open spec fn at_least(self, k: nat) -> Self {
        self.chain(k).concatenate(self.kleene())
    }

    /// Between `lo` and `hi` words of `self` in a row; without `hi`, `lo` or
    /// more. Where `hi` is below `lo`, the automaton without states.
    pub open spec fn repeat(self, lo: nat, hi: Option<nat>) -> Self {
        match hi {
            Some(hi) => if hi < lo {
                NfaModel::empty(self.alphabet)
            } else {
                self.chain(lo).concatenate(self.at_most((hi - lo) as nat))
            },
            None => self.at_least(lo),
        }
    }
}

/// How many states of `keep` lie below `q`.
pub open spec fn rank(keep: Set<int>, q: int) -> int
    decreases q,
{
    if q <= 0 {
        0
    } else {
        rank(keep, q - 1) + if keep.contains(q - 1) {
            1int
        } else {
            0int
        }
    }
}

/// `rank` does not fall, and it rises past a state that is kept.
pub proof fn lemma_rank_rises(keep: Set<int>, p: int, q: int)
    requires
        0 <= p <= q,
    ensures
        0 <= rank(keep, p) <= rank(keep, q),
        rank(keep, q) <= q,
        p < q && keep.contains(p) ==> rank(keep, p) < rank(keep, q),
    decreases q,
{
    if p < q {
        lemma_rank_rises(keep, p, q - 1);
    } else if q > 0 {
        lemma_rank_rises(keep, 0, q - 1);
    }
    if q > 0 {
        lemma_rank_rises(keep, q - 1, q - 1);
    }
}

/// Every number below the rank of `n` is the rank of a kept state below `n`.
pub proof fn lemma_rank_onto(keep: Set<int>, n: int, x: int) -> (q: int)
    requires
        0 <= x < rank(keep, n),
    ensures
        0 <= q < n,
        keep.contains(q),
        rank(keep, q) == x,
    decreases n,
{
    if n <= 0 {
        0
    } else if keep.contains(n - 1) && rank(keep, n - 1) == x {
        n - 1
    } else {
        lemma_rank_onto(keep, n - 1, x)
    }
}

/// Two kept states of the same rank are the same state.
pub proof fn lemma_rank_one_to_one(keep: Set<int>, p: int, q: int)
    requires
        0 <= p,
        0 <= q,
        keep.contains(p),
        keep.contains(q),
        rank(keep, p) == rank(keep, q),
    ensures
        p == q,
{
    if p < q {
        lemma_rank_rises(keep, p, q);
    } else if q < p {
        lemma_rank_rises(keep, q, p);
    }
}

impl<V> NfaModel<V> {
    /// The automaton with the states of `keep` alone, numbered anew in their
    /// order, and the edges between them.
    pub open spec fn restrict(self, keep: Set<int>) -> Self {
        NfaModel {
            alphabet: self.alphabet,
            size: rank(keep, self.size as int) as nat,
            initials: Set::new(
                |x: int|
                    exists|q: int|
                        0 <= q && keep.contains(q) && self.initials.contains(q) && #[trigger] rank(
                            keep,
                            q,
                        ) == x,
            ),
            finals: Set::new(
                |x: int|
                    exists|q: int|
                        0 <= q && keep.contains(q) && self.finals.contains(q) && #[trigger] rank(
                            keep,
                            q,
                        ) == x,
            ),
            edges: Set::new(
                |x: (int, V, int)|
                    exists|q: int, t: int|
                        0 <= q && 0 <= t && keep.contains(q) && keep.contains(t)
                            && self.edges.contains((q, x.1, t)) && #[trigger] rank(keep, q) == x.0
                            && #[trigger] rank(keep, t) == x.2,
            ),
        }
    }

    /// The automaton without the states that no walk from an initial state
    /// ends in.
    pub open spec fn make_reachable(self) -> Self {
        self.restrict(self.reachable())
    }

    /// The automaton without the states from which no walk ends in a final
    /// state.
    pub open spec fn make_coreachable(self) -> Self {
        self.reverse().make_reachable().reverse()
    }

    /// The automaton without the states that are not on a walk from an
    /// initial to a final state.
    pub open spec fn trim(self) -> Self {
        self.make_reachable().make_coreachable()
    }

    /// From every state some walk ends in a final state.
    pub open spec fn is_coreachable(self) -> bool {
        self.reverse().is_reachable()
    }

    /// Every state is on a walk from an initial to a final state.
    pub open spec fn is_trimmed(self) -> bool {
        self.is_reachable() && self.is_coreachable()
    }
}

/// A deterministic automaton as mathematics: as a nondeterministic one, with
/// one initial state, and with at most one successor of a state on a symbol.
#[verifier::reject_recursive_types(V)]
pub struct DfaModel<V> {
    pub alphabet: Set<V>,
    pub size: nat,
    pub initial: int,
    pub finals: Set<int>,
    pub edges: Set<(int, V, int)>,
}

impl<V> DfaModel<V> {
    /// The same automaton seen as a nondeterministic one.
    pub open spec fn to_nfa(self) -> NfaModel<V> {
        NfaModel {
            alphabet: self.alphabet,
            size: self.size,
            initials: set![self.initial],
            finals: self.finals,
            edges: self.edges,
        }
    }

    /// No state has two successors on one symbol.
    pub open spec fn deterministic(self) -> bool {
        forall|q: int, a: V, t1: int, t2: int|
            #[trigger] self.edges.contains((q, a, t1)) && #[trigger] self.edges.contains(
                (q, a, t2),
            ) ==> t1 == t2
    }

    /// The initial state, the final states and both ends of every edge are
    /// states, every edge is labelled by a symbol of the alphabet, and the
    /// automaton is deterministic.
    pub open spec fn wf(self) -> bool {
        &&& self.to_nfa().wf()
        &&& self.deterministic()
    }

    /// The automaton accepts `w`: the walk from the initial state that reads
    /// `w` exists and ends in a final state.
    pub open spec fn accepts(self, w: Seq<V>) -> bool {
        self.to_nfa().accepts(w)
    }

    /// Every state has a successor on every symbol of the alphabet.
    pub open spec fn is_complete(self) -> bool {
        forall|q: int, a: V|
            0 <= q < self.size && self.alphabet.contains(a) ==> #[trigger] self.to_nfa().has_successor(
                q,
                a,
            )
    }

    /// One state, which is not final, and no edge.
    pub open spec fn empty(alphabet: Set<V>) -> Self {
        DfaModel { alphabet, size: 1, initial: 0, finals: Set::empty(), edges: Set::empty() }
    }

    /// `self` where it is complete. Otherwise one more state, the sink, to
    /// which every state, the sink too, leads on each symbol on which it had
    /// no successor.
    pub open spec fn complete(self) -> Self {
        let n = self.size as int;
        if self.is_complete() {
            self
        } else {
            DfaModel {
                alphabet: self.alphabet,
                size: self.size + 1,
                initial: self.initial,
                finals: self.finals,
                edges: self.edges.union(
                    Set::new(
                        |x: (int, V, int)|
                            0 <= x.0 <= n && x.2 == n && self.alphabet.contains(x.1)
                                && !self.to_nfa().has_successor(x.0, x.1),
                    ),
                ),
            }
        }
    }

    /// The completed automaton with the final states exchanged for the
    /// others.
    pub open spec fn negate(self) -> Self {
        let c = self.complete();
        DfaModel {
            alphabet: c.alphabet,
            size: c.size,
            initial: c.initial,
            finals: Set::new(|q: int| 0 <= q < c.size && !c.finals.contains(q)),
            edges: c.edges,
        }
    }
}

impl<V> NfaModel<V> {
    /// `w` is a word over both alphabets together that neither complement
    /// accepts, each complement taken over its own alphabet. Where the two
    /// automata have one alphabet, this says that both accept `w`.
    pub open spec fn in_both(self, o: Self, w: Seq<V>) -> bool {
        &&& crate::language::word_over(self.alphabet.union(o.alphabet), w)
        &&& !(crate::language::word_over(self.alphabet, w) && !self.accepts(w))
        &&& !(crate::language::word_over(o.alphabet, w) && !o.accepts(w))
    }

    /// `w` is a word over both alphabets together that `self` does not
    /// accept, and that `o` accepts or that is not over the alphabet of `o`.
    pub open spec fn escapes(self, o: Self, w: Seq<V>) -> bool {
        &&& crate::language::word_over(self.alphabet.union(o.alphabet), w)
        &&& !self.accepts(w)
        &&& !(crate::language::word_over(o.alphabet, w) && !o.accepts(w))
    }

    /// No word escapes from `self` to `o`. Where the two automata have one
    /// alphabet, this says that `self` accepts every word that `o` accepts.
    pub open spec fn contains(self, o: Self) -> bool {
        forall|w: Seq<V>| !self.escapes(o, w)
    }

    /// `self` and `o` contain each other.
    pub open spec fn equivalent(self, o: Self) -> bool {
        self.contains(o) && o.contains(self)
    }
}

impl<V> NfaModel<V> {
    /// The automaton with `by` states without edges put in front, and its own
    /// states renumbered behind them.
    pub open spec fn shifted(self, by: nat) -> Self {
        NfaModel {
            alphabet: self.alphabet,
            size: self.size + by,
            initials: crate::sets::shifted(self.initials, by as int),
            finals: crate::sets::shifted(self.finals, by as int),
            edges: shifted_edges(self.edges, by as int),
        }
    }
}

} // verus!
