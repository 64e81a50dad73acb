//! Alphabets held as vectors without repetition, and sets of states held as
//! one flag per state.
use crate::symbol::Symbol;
use vstd::prelude::*;

verus! {

/// The states whose flag is set.
pub open spec fn marked(bits: Seq<bool>) -> Set<int> {
    Set::new(|q: int| 0 <= q < bits.len() && bits[q])
}

/// The set `s` moved up by `by`.
pub open spec fn shifted(s: Set<int>, by: int) -> Set<int> {
    Set::new(|q: int| s.contains(q - by))
}

/// Whether `a` occurs in `v`.
pub fn has_symbol<V: Symbol>(v: &Vec<V>, a: V) -> (r: bool)
    ensures
        r == v@.contains(a),
{
    let mut i: usize = 0;
    while i < v.len()
        invariant
            i <= v.len(),
            forall|j: int| 0 <= j < i ==> v@[j] != a,
        decreases v.len() - i,
    {
        if v[i].same(&a) {
            return true;
        }
        i += 1;
    }
    false
}

/// The symbols of `v` in the order of their first occurrence, each once.
pub fn distinct<V: Symbol>(v: &Vec<V>) -> (r: Vec<V>)
    ensures
        r@.no_duplicates(),
        r@.to_set() == v@.to_set(),
{
    let mut r: Vec<V> = Vec::new();
    let mut i: usize = 0;
    while i < v.len()
        invariant
            i <= v.len(),
            r@.no_duplicates(),
            forall|a: V| r@.contains(a) <==> v@.take(i as int).contains(a),
        decreases v.len() - i,
    {
        let a = v[i];
        proof {
            assert(v@.take(i as int + 1) =~= v@.take(i as int).push(a));
        }
        let ghost before = r@;
        if !has_symbol(&r, a) {
            r.push(a);
        }
        proof {
            assert forall|b: V| r@.contains(b) <==> v@.take(i as int + 1).contains(b) by {
                lemma_push_contains(before, a, b);
                lemma_push_contains(v@.take(i as int), a, b);
            }
        }
        i += 1;
    }
    proof {
        assert(v@.take(v.len() as int) =~= v@);
        assert(r@.to_set() =~= v@.to_set());
    }
    r
}

/// What a sequence holds after one more element is pushed.
pub proof fn lemma_push_contains<T>(s: Seq<T>, a: T, b: T)
    ensures
        s.push(a).contains(b) <==> (s.contains(b) || b == a),
{
    let s2 = s.push(a);
    if s.contains(b) {
        let j = choose|j: int| 0 <= j < s.len() && s[j] == b;
        assert(s2[j] == b);
    }
    if b == a {
        assert(s2[s.len() as int] == b);
    }
    if s2.contains(b) {
        let j = choose|j: int| 0 <= j < s2.len() && s2[j] == b;
        if j < s.len() {
            assert(s[j] == b);
        }
    }
}

/// A vector of `n` flags, none set.
pub fn no_states(n: usize) -> (r: Vec<bool>)
    ensures
        r.len() == n,
        forall|q: int| 0 <= q < n ==> !r[q],
        marked(r@) == Set::<int>::empty(),
{
    let mut r: Vec<bool> = Vec::new();
    let mut i: usize = 0;
    while i < n
        invariant
            i <= n,
            r.len() == i,
            forall|q: int| 0 <= q < i ==> !r[q],
        decreases n - i,
    {
        r.push(false);
        i += 1;
    }
    proof {
        assert(marked(r@) =~= Set::<int>::empty());
    }
    r
}

/// Whether some flag is set in both vectors at the same place.
pub fn overlap(a: &Vec<bool>, b: &Vec<bool>) -> (r: bool)
    requires
        a.len() == b.len(),
    ensures
        r == exists|q: int| marked(a@).contains(q) && marked(b@).contains(q),
{
    let mut i: usize = 0;
    while i < a.len()
        invariant
            i <= a.len(),
            a.len() == b.len(),
            forall|q: int| 0 <= q < i ==> !(a[q] && b[q]),
        decreases a.len() - i,
    {
        if a[i] && b[i] {
            proof {
                assert(marked(a@).contains(i as int) && marked(b@).contains(i as int));
            }
            return true;
        }
        i += 1;
    }
    false
}

/// Whether some flag is set.
pub fn any_marked(a: &Vec<bool>) -> (r: bool)
    ensures
        r == exists|q: int| marked(a@).contains(q),
        r == !(marked(a@) =~= Set::<int>::empty()),
{
    let mut i: usize = 0;
    while i < a.len()
        invariant
            i <= a.len(),
            forall|q: int| 0 <= q < i ==> !a[q],
        decreases a.len() - i,
    {
        if a[i] {
            proof {
                assert(marked(a@).contains(i as int));
            }
            return true;
        }
        i += 1;
    }
    false
}

/// A copy of the flags.
pub fn copy_flags(a: &Vec<bool>) -> (r: Vec<bool>)
    ensures
        r@ == a@,
{
    let mut r: Vec<bool> = Vec::new();
    let mut i: usize = 0;
    while i < a.len()
        invariant
            i <= a.len(),
            r@ == a@.take(i as int),
        decreases a.len() - i,
    {
        r.push(a[i]);
        proof {
            assert(a@.take(i as int + 1) =~= a@.take(i as int).push(a@[i as int]));
        }
        i += 1;
    }
    proof {
        assert(a@.take(a.len() as int) =~= a@);
    }
    r
}

/// A copy of the symbols.
pub fn copy_symbols<V: Symbol>(a: &Vec<V>) -> (r: Vec<V>)
    ensures
        r@ == a@,
{
    let mut r: Vec<V> = Vec::new();
    let mut i: usize = 0;
    while i < a.len()
        invariant
            i <= a.len(),
            r@ == a@.take(i as int),
        decreases a.len() - i,
    {
        r.push(a[i]);
        proof {
            assert(a@.take(i as int + 1) =~= a@.take(i as int).push(a@[i as int]));
        }
        i += 1;
    }
    proof {
        assert(a@.take(a.len() as int) =~= a@);
    }
    r
}

/// How many flags are set.
pub open spec fn count(bits: Seq<bool>) -> nat
    decreases bits.len(),
{
    if bits.len() == 0 {
        0
    } else {
        count(bits.drop_last()) + if bits.last() {
            1nat
        } else {
            0nat
        }
    }
}

/// No more flags are set than there are.
pub proof fn lemma_count_bound(bits: Seq<bool>)
    ensures
        count(bits) <= bits.len(),
    decreases bits.len(),
{
    if bits.len() > 0 {
        lemma_count_bound(bits.drop_last());
    }
}

/// Setting a flag that was clear adds one to the count.
pub proof fn lemma_count_set(bits: Seq<bool>, i: int)
    requires
        0 <= i < bits.len(),
        !bits[i],
    ensures
        count(bits.update(i, true)) == count(bits) + 1,
    decreases bits.len(),
{
    let after = bits.update(i, true);
    if i == bits.len() - 1 {
        assert(after.drop_last() =~= bits.drop_last());
    } else {
        assert(after.drop_last() =~= bits.drop_last().update(i, true));
        lemma_count_set(bits.drop_last(), i);
    }
}

/// Whether every flag is set.
pub fn all_marked(a: &Vec<bool>) -> (r: bool)
    ensures
        r == forall|q: int| 0 <= q < a.len() ==> a[q],
{
    let mut i: usize = 0;
    while i < a.len()
        invariant
            i <= a.len(),
            forall|q: int| 0 <= q < i ==> a[q],
        decreases a.len() - i,
    {
        if !a[i] {
            return false;
        }
        i += 1;
    }
    true
}

/// Whether every flag set in `a` is set in `b`.
pub fn within(a: &Vec<bool>, b: &Vec<bool>) -> (r: bool)
    requires
        a.len() == b.len(),
    ensures
        r == marked(a@).subset_of(marked(b@)),
{
    let mut i: usize = 0;
    while i < a.len()
        invariant
            i <= a.len(),
            a.len() == b.len(),
            forall|q: int| 0 <= q < i ==> (a[q] ==> b[q]),
        decreases a.len() - i,
    {
        if a[i] && !b[i] {
            proof {
                assert(marked(a@).contains(i as int) && !marked(b@).contains(i as int));
            }
            return false;
        }
        i += 1;
    }
    true
}

} // verus!
