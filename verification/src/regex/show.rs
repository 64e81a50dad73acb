//! The printed form of an expression.
use crate::regex::tree::{lemma_models, Operations, Tree};
use crate::regex::Regex;
use crate::symbol::Symbol;
use crate::text::{decimal, decimal_of, push_all, string_of};
use vstd::prelude::*;

verus! {

/// The sign of the empty word.
pub open spec fn epsilon_sign() -> char {
    '\u{1D700}'
}

/// The sign of the expression that matches nothing.
pub open spec fn empty_sign() -> char {
    '\u{2205}'
}

/// `s` without its last character.
pub open spec fn chopped(s: Seq<char>) -> Seq<char> {
    if s.len() > 0 {
        s.drop_last()
    } else {
        s
    }
}

/// `s` as the operand of a repetition: as it is where it is one character
/// that takes one byte, and else in brackets.
pub open spec fn bracketed(s: Seq<char>) -> Seq<char> {
    if s.len() == 1 && (s[0] as u32) < 128 {
        s
    } else {
        seq!['('] + s + seq![')']
    }
}

/// The bounds of a repetition as they are printed behind the operand.
pub open spec fn shown_bounds(lo: nat, hi: Option<nat>) -> Seq<char> {
    match hi {
        None => if lo == 0 {
            seq!['*']
        } else if lo == 1 {
            seq!['+']
        } else {
            seq!['{'] + decimal(lo) + seq![',', '}']
        },
        Some(m) => if lo == 0 && m == 1 {
            seq!['?']
        } else if lo == 0 {
            seq!['{', ','] + decimal(m) + seq!['}']
        } else if lo == m {
            seq!['{'] + decimal(lo) + seq!['}']
        } else {
            seq!['{'] + decimal(lo) + seq![','] + decimal(m) + seq!['}']
        },
    }
}

impl<V: Symbol> Tree<V> {
    /// Whether the union of `ts` holds the letter of every symbol of
    /// `alphabet`.
    pub open spec fn covers(ts: Seq<Tree<V>>, alphabet: Seq<V>) -> bool {
        forall|i: int| 0 <= i < alphabet.len() ==> ts.contains(Tree::Letter(#[trigger] alphabet[i]))
    }

    /// The printed form of the expression over `alphabet`.
    ///
    /// A letter is written as its symbol, and the dot as a dot. The children
    /// of a union are separated by bars; where the union holds the letter of
    /// every symbol, the letters are written as one dot, and the union of
    /// all letters and the empty word as a dot with a question mark. The
    /// children of a concatenation follow each other, unions among them in
    /// brackets. A repetition is its operand, in brackets unless it is one
    /// character of one byte, and its bounds behind it.
    pub open spec fn shown(self, alphabet: Seq<V>) -> Seq<char>
        decreases self, 0nat,
    {
        match self {
            Tree::Union(ts) => if ts.contains(Tree::Epsilon) && ts.len() == alphabet.len() + 1
                && Self::covers(ts, alphabet) {
                seq!['.', '?']
            } else if Self::covers(ts, alphabet) {
                chopped(seq!['.', '|'] + Self::shown_options(ts, alphabet, true))
            } else {
                chopped(Self::shown_options(ts, alphabet, false))
            },
            Tree::Concat(ts) => Self::shown_parts(ts, alphabet),
            Tree::Repeat(c, lo, hi) => bracketed(c.shown(alphabet)) + shown_bounds(lo, hi),
            Tree::Letter(a) => a.spelled(),
            Tree::Epsilon => seq![epsilon_sign()],
            Tree::Empty => seq![empty_sign()],
            Tree::Dot => seq!['.'],
        }
    }

    /// The printed forms of the expressions, each with a bar behind it; the
    /// letters are left out where `skip_letters` is set.
    pub open spec fn shown_options(ts: Seq<Tree<V>>, alphabet: Seq<V>, skip_letters: bool) -> Seq<
        char,
    >
        decreases ts, 1nat,
    {
        if ts.len() == 0 {
            Seq::empty()
        } else {
            let before = Self::shown_options(ts.drop_last(), alphabet, skip_letters);
            if skip_letters && ts.last() is Letter {
                before
            } else {
                before + ts.last().shown(alphabet) + seq!['|']
            }
        }
    }

    /// The printed forms of the expressions one after the other, the unions
    /// in brackets.
    pub open spec fn shown_parts(ts: Seq<Tree<V>>, alphabet: Seq<V>) -> Seq<char>
        decreases ts, 1nat,
    {
        if ts.len() == 0 {
            Seq::empty()
        } else {
            let before = Self::shown_parts(ts.drop_last(), alphabet);
            if ts.last() is Union {
                before + seq!['('] + ts.last().shown(alphabet) + seq![')']
            } else {
                before + ts.last().shown(alphabet)
            }
        }
    }
}

/// `s` as the operand of a repetition.
pub fn bracket(s: Vec<char>) -> (r: Vec<char>)
    ensures
        r@ == bracketed(s@),
{
    if s.len() == 1 && (s[0] as u32) < 128 {
        s
    } else {
        let mut r: Vec<char> = Vec::new();
        r.push('(');
        push_all(&mut r, &s);
        r.push(')');
        proof {
            assert(r@ =~= seq!['('] + s@ + seq![')']);
        }
        r
    }
}

/// The bounds of a repetition as they are printed behind the operand.
pub fn show_bounds(lo: usize, hi: Option<usize>) -> (r: Vec<char>)
    ensures
        r@ == shown_bounds(lo as nat, crate::nfa::repeat::bound(hi)),
{
    let mut r: Vec<char> = Vec::new();
    match hi {
        None => {
            if lo == 0 {
                r.push('*');
                proof {
                    assert(r@ =~= seq!['*']);
                }
            } else if lo == 1 {
                r.push('+');
                proof {
                    assert(r@ =~= seq!['+']);
                }
            } else {
                r.push('{');
                push_all(&mut r, &decimal_of(lo as u64));
                r.push(',');
                r.push('}');
                proof {
                    assert(r@ =~= seq!['{'] + decimal(lo as nat) + seq![',', '}']);
                }
            }
        },
        Some(m) => {
            if lo == 0 && m == 1 {
                r.push('?');
                proof {
                    assert(r@ =~= seq!['?']);
                }
            } else if lo == 0 {
                r.push('{');
                r.push(',');
                push_all(&mut r, &decimal_of(m as u64));
                r.push('}');
                proof {
                    assert(r@ =~= seq!['{', ','] + decimal(m as nat) + seq!['}']);
                }
            } else if lo == m {
                r.push('{');
                push_all(&mut r, &decimal_of(lo as u64));
                r.push('}');
                proof {
                    assert(r@ =~= seq!['{'] + decimal(lo as nat) + seq!['}']);
                }
            } else {
                r.push('{');
                push_all(&mut r, &decimal_of(lo as u64));
                r.push(',');
                push_all(&mut r, &decimal_of(m as u64));
                r.push('}');
                proof {
                    assert(r@ =~= seq!['{'] + decimal(lo as nat) + seq![','] + decimal(m as nat)
                        + seq!['}']);
                }
            }
        },
    }
    r
}

impl<V: Symbol> Operations<V> {
    /// Whether the list holds the letter of every symbol of `alphabet`.
    pub fn covers(list: &Vec<Operations<V>>, alphabet: &Vec<V>) -> (r: bool)
        ensures
            r == Tree::covers(Self::models(list@), alphabet@),
    {
        let mut i: usize = 0;
        while i < alphabet.len()
            invariant
                i <= alphabet.len(),
                forall|j: int|
                    0 <= j < i ==> Self::models(list@).contains(
                        Tree::Letter(#[trigger] alphabet@[j]),
                    ),
            decreases alphabet.len() - i,
        {
            let letter = Operations::Letter(alphabet[i]);
            if !Self::holds(list, &letter) {
                return false;
            }
            i += 1;
        }
        true
    }

    /// The printed form of the expression over `alphabet`, as characters.
    pub fn show(&self, alphabet: &Vec<V>) -> (r: Vec<char>)
        ensures
            r@ == self@.shown(alphabet@),
        decreases self,
    {
        match self {
            Operations::Union(v) => {
                let covered = Self::covers(v, alphabet);
                proof {
                    lemma_models(v@);
                }
                if covered && v.len() >= 1 && v.len() - 1 == alphabet.len() && Self::holds(
                    v,
                    &Operations::Epsilon,
                ) {
                    let mut r: Vec<char> = Vec::new();
                    r.push('.');
                    r.push('?');
                    proof {
                        assert(r@ =~= seq!['.', '?']);
                    }
                    r
                } else if covered {
                    let mut r: Vec<char> = Vec::new();
                    r.push('.');
                    r.push('|');
                    proof {
                        assert(r@ =~= seq!['.', '|']);
                    }
                    let options = Self::show_options(v, alphabet, true);
                    push_all(&mut r, &options);
                    r.pop();
                    r
                } else {
                    let mut r = Self::show_options(v, alphabet, false);
                    r.pop();
                    r
                }
            },
            Operations::Concat(v) => Self::show_parts(v, alphabet),
            Operations::Repeat(c, lo, hi) => {
                let mut r = bracket(c.show(alphabet));
                let bounds = show_bounds(*lo, *hi);
                push_all(&mut r, &bounds);
                r
            },
            Operations::Letter(a) => a.spell(),
            Operations::Epsilon => {
                let mut r: Vec<char> = Vec::new();
                r.push('\u{1D700}');
                proof {
                    assert(r@ =~= seq![epsilon_sign()]);
                }
                r
            },
            Operations::Empty => {
                let mut r: Vec<char> = Vec::new();
                r.push('\u{2205}');
                proof {
                    assert(r@ =~= seq![empty_sign()]);
                }
                r
            },
            Operations::Dot => {
                let mut r: Vec<char> = Vec::new();
                r.push('.');
                proof {
                    assert(r@ =~= seq!['.']);
                }
                r
            },
        }
    }

    /// The printed forms of the expressions, each with a bar behind it.
    pub fn show_options(v: &Vec<Operations<V>>, alphabet: &Vec<V>, skip_letters: bool) -> (r: Vec<
        char,
    >)
        ensures
            r@ == Tree::shown_options(Self::models(v@), alphabet@, skip_letters),
        decreases v,
    {
        let ghost ms = Self::models(v@);
        let mut r: Vec<char> = Vec::new();
        let mut i: usize = 0;
        proof {
            lemma_models(v@);
            assert(ms.take(0) =~= Seq::<Tree<V>>::empty());
        }
        while i < v.len()
            invariant
                i <= v.len(),
                ms == Self::models(v@),
                ms.len() == v.len(),
                forall|j: int| 0 <= j < v.len() ==> (#[trigger] ms[j]) == v[j].model(),
                r@ == Tree::shown_options(ms.take(i as int), alphabet@, skip_letters),
            decreases v.len() - i,
        {
            proof {
                assert(ms.take(i as int + 1).drop_last() =~= ms.take(i as int));
                assert(ms.take(i as int + 1).last() == v[i as int].model());
            }
            let is_letter = match &v[i] {
                Operations::Letter(_) => true,
                _ => false,
            };
            if !(skip_letters && is_letter) {
                let one = v[i].show(alphabet);
                push_all(&mut r, &one);
                r.push('|');
            }
            i += 1;
        }
        proof {
            assert(ms.take(v.len() as int) =~= ms);
        }
        r
    }

    /// The printed forms of the expressions one after the other, the unions
    /// in brackets.
    pub fn show_parts(v: &Vec<Operations<V>>, alphabet: &Vec<V>) -> (r: Vec<char>)
        ensures
            r@ == Tree::shown_parts(Self::models(v@), alphabet@),
        decreases v,
    {
        let ghost ms = Self::models(v@);
        let mut r: Vec<char> = Vec::new();
        let mut i: usize = 0;
        proof {
            lemma_models(v@);
            assert(ms.take(0) =~= Seq::<Tree<V>>::empty());
        }
        while i < v.len()
            invariant
                i <= v.len(),
                ms == Self::models(v@),
                ms.len() == v.len(),
                forall|j: int| 0 <= j < v.len() ==> (#[trigger] ms[j]) == v[j].model(),
                r@ == Tree::shown_parts(ms.take(i as int), alphabet@),
            decreases v.len() - i,
        {
            proof {
                assert(ms.take(i as int + 1).drop_last() =~= ms.take(i as int));
                assert(ms.take(i as int + 1).last() == v[i as int].model());
            }
            let is_union = match &v[i] {
                Operations::Union(_) => true,
                _ => false,
            };
            let one = v[i].show(alphabet);
            if is_union {
                r.push('(');
                push_all(&mut r, &one);
                r.push(')');
            } else {
                push_all(&mut r, &one);
            }
            i += 1;
        }
        proof {
            assert(ms.take(v.len() as int) =~= ms);
        }
        r
    }
}

impl<V: Symbol> Regex<V> {
    /// The symbols of the alphabet, in the order in which they are held.
    pub open(crate) spec fn letters(&self) -> Seq<V> {
        self.alphabet@
    }

    /// The printed form of the expression, as the model gives it for the
    /// symbols of the alphabet in their order.
    pub open(crate) spec fn shown(&self) -> Seq<char> {
        self.regex@.shown(self.alphabet@)
    }

    /// The printed form of the expression.
    pub fn to_string(&self) -> (r: String)
        ensures
            r@ == self.shown(),
    {
        string_of(&self.regex.show(&self.alphabet))
    }
}

} // verus!
