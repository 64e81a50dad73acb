//! Sets of states as keys: how the subsets met while an automaton is made
//! deterministic are told apart and numbered.
//!
//! A subset of fewer than 128 states is keyed by the integer whose bit `q`
//! is set exactly when `q` is in the subset, held in the narrowest of `u32`,
//! `u64` and `u128` that has a bit to spare. A subset of more states is keyed
//! by the list of its states in rising order.
use std::collections::HashMap;
use std::hash::Hash;
use vstd::arithmetic::power2::{lemma2_to64, lemma_pow2_adds, lemma_pow2_unfold, pow2};
use vstd::prelude::*;
use vstd::std_specs::hash::obeys_key_model;

verus! {

/// The integer whose bit `q` is set exactly when flag `q` is set.
pub open spec fn code(bits: Seq<bool>) -> nat
    decreases bits.len(),
{
    if bits.len() == 0 {
        0
    } else {
        2 * code(bits.drop_first()) + if bits[0] {
            1nat
        } else {
            0nat
        }
    }
}

/// The code of `n` flags is below `2^n`.
pub proof fn lemma_code_bound(bits: Seq<bool>)
    ensures
        code(bits) < pow2(bits.len()),
    decreases bits.len(),
{
    if bits.len() == 0 {
        lemma2_to64();
    } else {
        lemma_code_bound(bits.drop_first());
        lemma_pow2_unfold(bits.len());
    }
}

/// Flags of one length with one code are the same flags.
pub proof fn lemma_code_one_to_one(a: Seq<bool>, b: Seq<bool>)
    requires
        a.len() == b.len(),
        code(a) == code(b),
    ensures
        a =~= b,
    decreases a.len(),
{
    if a.len() > 0 {
        lemma_code_one_to_one(a.drop_first(), b.drop_first());
        assert forall|i: int| 0 <= i < a.len() implies a[i] == b[i] by {
            if i > 0 {
                assert(a.drop_first()[i - 1] == b.drop_first()[i - 1]);
            }
        }
    }
}

/// The states whose flag is set, in rising order.
pub open spec fn members(bits: Seq<bool>) -> Seq<usize>
    decreases bits.len(),
{
    if bits.len() == 0 {
        Seq::empty()
    } else if bits.last() {
        members(bits.drop_last()).push((bits.len() - 1) as usize)
    } else {
        members(bits.drop_last())
    }
}

/// `members` holds exactly the states whose flag is set.
pub proof fn lemma_members_holds(bits: Seq<bool>, i: usize)
    requires
        bits.len() <= usize::MAX,
    ensures
        members(bits).contains(i) <==> (i < bits.len() && bits[i as int]),
    decreases bits.len(),
{
    if bits.len() > 0 {
        lemma_members_holds(bits.drop_last(), i);
        crate::sets::lemma_push_contains(
            members(bits.drop_last()),
            (bits.len() - 1) as usize,
            i,
        );
    }
}

/// Flags of one length with the same members are the same flags.
pub proof fn lemma_members_one_to_one(a: Seq<bool>, b: Seq<bool>)
    requires
        a.len() == b.len(),
        a.len() <= usize::MAX,
        members(a) == members(b),
    ensures
        a =~= b,
{
    assert forall|i: int| 0 <= i < a.len() implies a[i] == b[i] by {
        lemma_members_holds(a, i as usize);
        lemma_members_holds(b, i as usize);
    }
}

/// The states whose flag is set, in rising order.
pub fn members_of(bits: &Vec<bool>) -> (r: Vec<usize>)
    ensures
        r@ == members(bits@),
{
    let mut r: Vec<usize> = Vec::new();
    let mut i: usize = 0;
    while i < bits.len()
        invariant
            i <= bits.len(),
            r@ == members(bits@.take(i as int)),
        decreases bits.len() - i,
    {
        proof {
            assert(bits@.take(i as int + 1).drop_last() =~= bits@.take(i as int));
        }
        if bits[i] {
            r.push(i);
        }
        i += 1;
    }
    proof {
        assert(bits@.take(bits.len() as int) =~= bits@);
    }
    r
}

/// Whether two lists of states are the same list.
pub fn same_members(a: &Vec<usize>, b: &Vec<usize>) -> (r: bool)
    ensures
        r == (a@ == b@),
{
    if a.len() != b.len() {
        return false;
    }
    let mut i: usize = 0;
    while i < a.len()
        invariant
            i <= a.len(),
            a.len() == b.len(),
            forall|j: int| 0 <= j < i ==> a[j] == b[j],
        decreases a.len() - i,
    {
        if a[i] != b[i] {
            return false;
        }
        i += 1;
    }
    proof {
        assert(a@ =~= b@);
    }
    true
}

/// An unsigned integer used as a set of small numbers, one bit for each.
pub trait Mask: Copy + Eq + Hash + Sized {
    /// The number of bits.
    spec fn width() -> nat;

    /// The integer as a number.
    spec fn value(self) -> nat;

    /// The integers can key a hash map, and two with one value are the same.
    proof fn lemma_mask_laws()
        ensures
            obeys_key_model::<Self>(),
            forall|a: Self, b: Self|
                #![trigger a.value(), b.value()]
                a.value() == b.value() ==> a == b,
    ;

    /// The empty set.
    fn zero() -> (r: Self)
        ensures
            r.value() == 0,
    ;

    /// Every member moved up by one, and 0 made a member where `bit` is set.
    fn grow(self, bit: bool) -> (r: Self)
        requires
            2 * self.value() + 1 < pow2(Self::width()),
        ensures
            r.value() == 2 * self.value() + if bit {
                1nat
            } else {
                0nat
            },
    ;
}

impl Mask for u32 {
    open spec fn width() -> nat {
        32
    }

    open spec fn value(self) -> nat {
        self as nat
    }

    proof fn lemma_mask_laws() {
        broadcast use vstd::std_specs::hash::group_hash_axioms;

    }

    fn zero() -> (r: Self) {
        0
    }

    fn grow(self, bit: bool) -> (r: Self) {
        proof {
            lemma2_to64();
        }
        if bit {
            self * 2 + 1
        } else {
            self * 2
        }
    }
}

impl Mask for u64 {
    open spec fn width() -> nat {
        64
    }

    open spec fn value(self) -> nat {
        self as nat
    }

    proof fn lemma_mask_laws() {
        broadcast use vstd::std_specs::hash::group_hash_axioms;

    }

    fn zero() -> (r: Self) {
        0
    }

    fn grow(self, bit: bool) -> (r: Self) {
        proof {
            lemma2_to64();
        }
        if bit {
            self * 2 + 1
        } else {
            self * 2
        }
    }
}

impl Mask for u128 {
    open spec fn width() -> nat {
        128
    }

    open spec fn value(self) -> nat {
        self as nat
    }

    proof fn lemma_mask_laws() {
        broadcast use vstd::std_specs::hash::group_hash_axioms;

    }

    fn zero() -> (r: Self) {
        0
    }

    fn grow(self, bit: bool) -> (r: Self) {
        proof {
            lemma2_to64();
            lemma_pow2_adds(64, 64);
            assert(pow2(128) == 0x1_0000_0000_0000_0000 * 0x1_0000_0000_0000_0000);
        }
        if bit {
            self * 2 + 1
        } else {
            self * 2
        }
    }
}

/// The mask whose bit `q` is set exactly when flag `q` is set.
pub fn mask_of<M: Mask>(bits: &Vec<bool>) -> (r: M)
    requires
        bits.len() <= M::width(),
    ensures
        r.value() == code(bits@),
{
    let mut r = M::zero();
    let mut i: usize = bits.len();
    proof {
        assert(bits@.skip(i as int) =~= Seq::<bool>::empty());
    }
    while i > 0
        invariant
            i <= bits.len(),
            bits.len() <= M::width(),
            r.value() == code(bits@.skip(i as int)),
        decreases i,
    {
        i -= 1;
        proof {
            let rest = bits@.skip(i as int);
            assert(rest.drop_first() =~= bits@.skip(i as int + 1));
            assert(rest[0] == bits@[i as int]);
            lemma_code_bound(rest.drop_first());
            lemma_pow2_unfold(rest.len());
            lemma_pow2_le(rest.len(), M::width());
        }
        r = r.grow(bits[i]);
    }
    proof {
        assert(bits@.skip(0) =~= bits@);
    }
    r
}

/// `2^a` is at most `2^b` where `a` is at most `b`.
pub proof fn lemma_pow2_le(a: nat, b: nat)
    requires
        a <= b,
    ensures
        pow2(a) <= pow2(b),
{
    if a < b {
        vstd::arithmetic::power2::lemma_pow2_strictly_increases(a, b);
    }
}

/// A table that numbers the subsets of the states of one automaton in the
/// order in which they are added.
pub trait SubsetTable: Sized {
    /// The subsets added so far, each as its flags; the place of a subset is
    /// its number.
    spec fn entries(&self) -> Seq<Seq<bool>>;

    /// The number of states of the automaton.
    spec fn states(&self) -> nat;

    /// The invariant of the table.
    spec fn inv(&self) -> bool;

    /// The number of the subset `bits`, where it has been added.
    fn find(&self, bits: &Vec<bool>) -> (r: Option<usize>)
        requires
            self.inv(),
            bits.len() == self.states(),
        ensures
            match r {
                Some(j) => j < self.entries().len() && self.entries()[j as int] == bits@,
                None => forall|j: int| 0 <= j < self.entries().len() ==> self.entries()[j] != bits@,
            },
    ;

    /// Adds the subset `bits`, which is not in the table, under the number
    /// `id`, the next one.
    fn add(&mut self, bits: &Vec<bool>, id: usize)
        requires
            old(self).inv(),
            bits.len() == old(self).states(),
            id == old(self).entries().len(),
            forall|j: int| 0 <= j < old(self).entries().len() ==> old(self).entries()[j] != bits@,
        ensures
            final(self).inv(),
            final(self).states() == old(self).states(),
            final(self).entries() == old(self).entries().push(bits@),
    ;
}

/// A table for fewer states than `M` has bits: a hash map from the mask of a
/// subset to its number.
pub struct MaskTable<M: Mask> {
    map: HashMap<M, usize>,
    states: usize,
    shadow: Ghost<Seq<Seq<bool>>>,
}

impl<M: Mask> MaskTable<M> {
    /// The empty table for an automaton of `states` states.
    pub fn new(states: usize) -> (r: Self)
        requires
            states <= M::width(),
        ensures
            r.inv(),
            r.states() == states,
            r.entries().len() == 0,
    {
        MaskTable { map: HashMap::new(), states, shadow: Ghost(Seq::empty()) }
    }

    /// The map holds the mask of the subset numbered `j`, with `j`.
    pub closed spec fn keyed(&self, j: int) -> bool {
        exists|k: M|
            self.map@.dom().contains(k) && #[trigger] k.value() == code(self.shadow@[j])
                && self.map@[k] == j
    }
}

impl<M: Mask> SubsetTable for MaskTable<M> {
    closed spec fn entries(&self) -> Seq<Seq<bool>> {
        self.shadow@
    }

    closed spec fn states(&self) -> nat {
        self.states as nat
    }

    closed spec fn inv(&self) -> bool {
        &&& self.states <= M::width()
        &&& forall|j: int|
            0 <= j < self.shadow@.len() ==> (#[trigger] self.shadow@[j]).len() == self.states
        &&& forall|j: int| 0 <= j < self.shadow@.len() ==> #[trigger] self.keyed(j)
        &&& forall|k: M| #[trigger]
            self.map@.dom().contains(k) ==> self.map@[k] < self.shadow@.len() && code(
                self.shadow@[self.map@[k] as int],
            ) == k.value()
    }

    fn find(&self, bits: &Vec<bool>) -> (r: Option<usize>) {
        broadcast use vstd::std_specs::hash::group_hash_axioms;

        proof {
            M::lemma_mask_laws();
        }
        let m: M = mask_of(bits);
        match self.map.get(&m) {
            Some(j) => {
                proof {
                    assert(self.map@.dom().contains(m));
                    lemma_code_one_to_one(self.shadow@[*j as int], bits@);
                }
                Some(*j)
            },
            None => {
                proof {
                    assert forall|j: int| 0 <= j < self.entries().len() implies self.entries()[j]
                        != bits@ by {
                        if self.entries()[j] == bits@ {
                            assert(self.keyed(j));
                            let k = choose|k: M|
                                self.map@.dom().contains(k) && #[trigger] k.value() == code(
                                    self.shadow@[j],
                                ) && self.map@[k] == j;
                            assert(k.value() == m.value());
                        }
                    }
                }
                None
            },
        }
    }

    fn add(&mut self, bits: &Vec<bool>, id: usize) {
        broadcast use vstd::std_specs::hash::group_hash_axioms;

        proof {
            M::lemma_mask_laws();
        }
        let m: M = mask_of(bits);
        let ghost before = self.shadow@;
        let ghost map_before = self.map@;
        proof {
            if map_before.dom().contains(m) {
                lemma_code_one_to_one(before[map_before[m] as int], bits@);
            }
        }
        self.map.insert(m, id);
        self.shadow = Ghost(before.push(bits@));
        proof {
            let ghost was = *old(self);
            assert forall|j: int| 0 <= j < self.shadow@.len() implies #[trigger] self.keyed(
                j,
            ) by {
                if j < before.len() {
                    assert(was.keyed(j));
                    let k = choose|k: M|
                        map_before.dom().contains(k) && #[trigger] k.value() == code(before[j])
                            && map_before[k] == j;
                    assert(self.map@.dom().contains(k) && k.value() == code(self.shadow@[j])
                        && self.map@[k] == j);
                } else {
                    assert(self.map@.dom().contains(m) && m.value() == code(self.shadow@[j])
                        && self.map@[m] == j);
                }
            }
            assert forall|k: M| #[trigger] self.map@.dom().contains(k) implies self.map@[k]
                < self.shadow@.len() && code(self.shadow@[self.map@[k] as int]) == k.value() by {
                if k != m {
                    assert(map_before.dom().contains(k));
                }
            }
        }
    }
}

/// A table for any number of states: the list of the subsets, each as the
/// list of its states in rising order, at the place of its number.
pub struct ListTable {
    keys: Vec<Vec<usize>>,
    states: usize,
    shadow: Ghost<Seq<Seq<bool>>>,
}

impl ListTable {
    /// The empty table for an automaton of `states` states.
    pub fn new(states: usize) -> (r: Self)
        ensures
            r.inv(),
            r.states() == states,
            r.entries().len() == 0,
    {
        ListTable { keys: Vec::new(), states, shadow: Ghost(Seq::empty()) }
    }
}

impl SubsetTable for ListTable {
    closed spec fn entries(&self) -> Seq<Seq<bool>> {
        self.shadow@
    }

    closed spec fn states(&self) -> nat {
        self.states as nat
    }

    closed spec fn inv(&self) -> bool {
        &&& self.keys.len() == self.shadow@.len()
        &&& forall|j: int|
            0 <= j < self.shadow@.len() ==> (#[trigger] self.shadow@[j]).len() == self.states
        &&& forall|j: int|
            0 <= j < self.shadow@.len() ==> (#[trigger] self.keys[j])@ == members(self.shadow@[j])
    }

    fn find(&self, bits: &Vec<bool>) -> (r: Option<usize>) {
        let key = members_of(bits);
        let mut j: usize = 0;
        while j < self.keys.len()
            invariant
                self.inv(),
                bits.len() == self.states,
                key@ == members(bits@),
                j <= self.keys.len(),
                forall|i: int| 0 <= i < j ==> self.shadow@[i] != bits@,
            decreases self.keys.len() - j,
        {
            if same_members(&self.keys[j], &key) {
                proof {
                    lemma_members_one_to_one(self.shadow@[j as int], bits@);
                }
                return Some(j);
            }
            j += 1;
        }
        None
    }

    fn add(&mut self, bits: &Vec<bool>, id: usize) {
        let key = members_of(bits);
        self.keys.push(key);
        self.shadow = Ghost(self.shadow@.push(bits@));
    }
}

/// There are at most `2^n` different vectors of `n` flags.
pub proof fn lemma_distinct_flags_bound(entries: Seq<Seq<bool>>, n: nat)
    requires
        forall|j: int| 0 <= j < entries.len() ==> (#[trigger] entries[j]).len() == n,
        forall|i: int, j: int|
            0 <= i < j < entries.len() ==> #[trigger] entries[i] != #[trigger] entries[j],
    ensures
        entries.len() <= pow2(n),
{
    let codes = Seq::new(entries.len(), |j: int| code(entries[j]) as int);
    assert forall|i: int, j: int| 0 <= i < codes.len() && 0 <= j < codes.len() && i != j implies codes[i]
        != codes[j] by {
        if codes[i] == codes[j] {
            lemma_code_one_to_one(entries[i], entries[j]);
            if i < j {
                assert(entries[i] != entries[j]);
            } else {
                assert(entries[j] != entries[i]);
            }
        }
    }
    codes.unique_seq_to_set();
    vstd::set_lib::lemma_int_range(0, pow2(n) as int);
    let range = vstd::set_lib::set_int_range(0, pow2(n) as int);
    assert forall|x: int| codes.to_set().contains(x) implies range.contains(x) by {
        let j = choose|j: int| 0 <= j < codes.len() && codes[j] == x;
        lemma_code_bound(entries[j]);
    }
    vstd::set_lib::lemma_len_subset(codes.to_set(), range);
}

} // verus!
