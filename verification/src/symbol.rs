//! The symbols an alphabet is made of.
use crate::text::{decimal, decimal_of};
use vstd::prelude::*;

verus! {

/// A symbol of an alphabet: a value that is copied freely and that can be
/// tested for equality at run time.
///
/// `same` decides mathematical equality, which is all the automata need;
/// `spell` writes the symbol, for the printed forms.
pub trait Symbol: Copy + Sized {
    /// Whether `self` and `other` are the same symbol.
    fn same(&self, other: &Self) -> (r: bool)
        ensures
            r == (*self == *other),
    ;

    /// How the symbol is written.
    spec fn spelled(&self) -> Seq<char>;

    /// The symbol as it is written.
    fn spell(&self) -> (r: Vec<char>)
        ensures
            r@ == self.spelled(),
    ;
}

impl Symbol for char {
    fn same(&self, other: &Self) -> (r: bool) {
        *self == *other
    }

    open spec fn spelled(&self) -> Seq<char> {
        seq![*self]
    }

    fn spell(&self) -> (r: Vec<char>) {
        let mut r: Vec<char> = Vec::new();
        r.push(*self);
        proof {
            assert(r@ =~= seq![*self]);
        }
        r
    }
}

impl Symbol for bool {
    fn same(&self, other: &Self) -> (r: bool) {
        *self == *other
    }

    open spec fn spelled(&self) -> Seq<char> {
        if *self {
            seq!['1']
        } else {
            seq!['0']
        }
    }

    fn spell(&self) -> (r: Vec<char>) {
        let mut r: Vec<char> = Vec::new();
        if *self {
            r.push('1');
            proof {
                assert(r@ =~= seq!['1']);
            }
        } else {
            r.push('0');
            proof {
                assert(r@ =~= seq!['0']);
            }
        }
        r
    }
}

impl Symbol for u8 {
    fn same(&self, other: &Self) -> (r: bool) {
        *self == *other
    }

    open spec fn spelled(&self) -> Seq<char> {
        decimal(*self as nat)
    }

    fn spell(&self) -> (r: Vec<char>) {
        decimal_of(*self as u64)
    }
}

impl Symbol for u16 {
    fn same(&self, other: &Self) -> (r: bool) {
        *self == *other
    }

    open spec fn spelled(&self) -> Seq<char> {
        decimal(*self as nat)
    }

    fn spell(&self) -> (r: Vec<char>) {
        decimal_of(*self as u64)
    }
}

impl Symbol for u32 {
    fn same(&self, other: &Self) -> (r: bool) {
        *self == *other
    }

    open spec fn spelled(&self) -> Seq<char> {
        decimal(*self as nat)
    }

    fn spell(&self) -> (r: Vec<char>) {
        decimal_of(*self as u64)
    }
}

impl Symbol for u64 {
    fn same(&self, other: &Self) -> (r: bool) {
        *self == *other
    }

    open spec fn spelled(&self) -> Seq<char> {
        decimal(*self as nat)
    }

    fn spell(&self) -> (r: Vec<char>) {
        decimal_of(*self as u64)
    }
}

impl Symbol for usize {
    fn same(&self, other: &Self) -> (r: bool) {
        *self == *other
    }

    open spec fn spelled(&self) -> Seq<char> {
        decimal(*self as nat)
    }

    fn spell(&self) -> (r: Vec<char>) {
        decimal_of(*self as u64)
    }
}

} // verus!
