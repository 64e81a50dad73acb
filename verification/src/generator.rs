//! A generator of random texts of regular expressions, for trying the
//! library out.
use crate::text::{push_str, string_of};
use rand::rngs::ThreadRng;
use vstd::prelude::*;

verus! {

#[verifier::external_type_specification]
#[verifier::external_body]
pub struct ExThreadRng(rand::rngs::ThreadRng);

/// The generator of the current thread.
///
/// This calls `rand::thread_rng`. Nothing is claimed of the value it hands
/// back.
#[verifier::external_body]
fn fresh_rng() -> (rng: ThreadRng) {
    rand::thread_rng()
}

/// A number below `high`, drawn at random.
///
/// This calls `rand::Rng::gen_range` with the bounds 0 and `high`, which
/// hands back a number from 0 up to, and without, `high`, and fails where
/// `high` is 0. Which number comes back is not claimed; only that it is below
/// `high` is believed, not proved.
#[verifier::external_body]
fn draw(rng: &mut ThreadRng, high: usize) -> (n: usize)
    requires
        high > 0,
    ensures
        n < high,
{
    rand::Rng::gen_range(rng, 0, high)
}

/// The sign of the empty word.
pub open spec fn epsilon() -> char {
    '\u{1D700}'
}

/// The atom for the number `n`: the symbol at place `n` of the alphabet, a
/// dot for the number behind the last place, and else the sign of the empty
/// word.
pub open spec fn picked(alphabet: Seq<char>, n: nat) -> Seq<char> {
    if n == alphabet.len() {
        seq!['.']
    } else if n < alphabet.len() {
        seq![alphabet[n as int]]
    } else {
        seq![epsilon()]
    }
}

/// The text for the choice `choice` from the texts `a` and `b` and the atom
/// `atom`: `a` in brackets, `a` with a star, a plus or a question mark, the
/// atom, `a` followed by `b`, or `a` and `b` with a bar between them.
pub open spec fn shaped(choice: nat, a: Seq<char>, b: Seq<char>, atom: Seq<char>) -> Seq<char> {
    if choice == 0 {
        seq!['('] + a + seq![')']
    } else if choice == 1 {
        a + seq!['*']
    } else if choice == 2 {
        a + seq!['+']
    } else if choice == 3 {
        a + seq!['?']
    } else if choice == 4 {
        atom
    } else if choice == 5 {
        a + b
    } else {
        a + seq!['|'] + b
    }
}

/// `s` is a text that the generator can give with `depth` levels to go.
pub open spec fn generated(alphabet: Seq<char>, depth: nat, s: Seq<char>) -> bool
    decreases depth,
{
    if depth == 0 {
        exists|n: nat| s == #[trigger] picked(alphabet, n)
    } else {
        exists|choice: nat, a: Seq<char>, b: Seq<char>, n: nat|
            choice < 7 && generated(alphabet, (depth - 1) as nat, a) && (choice >= 5 ==> generated(
                alphabet,
                (depth - 1) as nat,
                b,
            )) && s == #[trigger] shaped(choice, a, b, picked(alphabet, n))
    }
}

/// The atom for the number `n`.
pub fn pick(alphabet: &Vec<char>, n: usize) -> (r: String)
    ensures
        r@ == picked(alphabet@, n as nat),
{
    let mut out: Vec<char> = Vec::new();
    if n == alphabet.len() {
        out.push('.');
        proof {
            assert(out@ =~= seq!['.']);
        }
    } else if n < alphabet.len() {
        out.push(alphabet[n]);
        proof {
            assert(out@ =~= seq![alphabet@[n as int]]);
        }
    } else {
        out.push('\u{1D700}');
        proof {
            assert(out@ =~= seq![epsilon()]);
        }
    }
    string_of(&out)
}

/// The text for the choice `choice` from the texts `a` and `b` and the atom
/// `atom`.
pub fn shape(choice: usize, a: &str, b: &str, atom: &str) -> (r: String)
    ensures
        r@ == shaped(choice as nat, a@, b@, atom@),
{
    let mut out: Vec<char> = Vec::new();
    if choice == 0 {
        out.push('(');
        push_str(&mut out, a);
        out.push(')');
        proof {
            assert(out@ =~= seq!['('] + a@ + seq![')']);
        }
    } else if choice == 1 {
        push_str(&mut out, a);
        out.push('*');
        proof {
            assert(out@ =~= a@ + seq!['*']);
        }
    } else if choice == 2 {
        push_str(&mut out, a);
        out.push('+');
        proof {
            assert(out@ =~= a@ + seq!['+']);
        }
    } else if choice == 3 {
        push_str(&mut out, a);
        out.push('?');
        proof {
            assert(out@ =~= a@ + seq!['?']);
        }
    } else if choice == 4 {
        push_str(&mut out, atom);
        proof {
            assert(out@ =~= atom@);
        }
    } else if choice == 5 {
        push_str(&mut out, a);
        push_str(&mut out, b);
        proof {
            assert(out@ =~= a@ + b@);
        }
    } else {
        push_str(&mut out, a);
        out.push('|');
        push_str(&mut out, b);
        proof {
            assert(out@ =~= a@ + seq!['|'] + b@);
        }
    }
    string_of(&out)
}

/// How many numbers stand for an atom over an alphabet of `symbols`
/// symbols: one for each symbol, one for the dot and one for the sign of the
/// empty word; the largest number of the machine where that is less.
pub open spec fn atom_count(symbols: nat) -> nat {
    if symbols + 2 <= usize::MAX {
        symbols + 2
    } else {
        usize::MAX as nat
    }
}

/// How many numbers stand for an atom over `alphabet`.
fn atoms(alphabet: &Vec<char>) -> (r: usize)
    ensures
        r == atom_count(alphabet@.len()),
{
    if alphabet.len() <= usize::MAX - 2 {
        alphabet.len() + 2
    } else {
        usize::MAX
    }
}

/// A generator of random texts of regular expressions over an alphabet, of
/// a depth that is bounded.
pub struct Generator {
    alphabet: Vec<char>,
    max_depth: u8,
    actual_depth: u8,
    rng: ThreadRng,
}

/// A generator over `alphabet` for texts of at most `max_depth` levels.
pub fn new_generator(alphabet: Vec<char>, max_depth: u8) -> (r: Generator)
    ensures
        r.ready(),
        r.symbols() == alphabet@,
        r.depth() == max_depth,
{
    Generator { alphabet, max_depth, actual_depth: 0, rng: fresh_rng() }
}

impl Generator {
    /// The generator is between two texts.
    pub closed spec fn ready(&self) -> bool {
        self.actual_depth == 0
    }

    /// The symbols that the texts are made of.
    pub closed spec fn symbols(&self) -> Seq<char> {
        self.alphabet@
    }

    /// The number of levels that a text has at most.
    pub closed spec fn depth(&self) -> u8 {
        self.max_depth
    }

    /// The number of levels that the text in the making has so far.
    pub closed spec fn level(&self) -> u8 {
        self.actual_depth
    }

    /// The generator with another bound on the depth.
    pub fn with_max_depth(self, max_depth: u8) -> (r: Generator)
        ensures
            r.ready() == self.ready(),
            r.level() == self.level(),
            r.symbols() == self.symbols(),
            r.depth() == max_depth,
    {
        let Generator { alphabet, max_depth: _, actual_depth, rng } = self;
        Generator { alphabet, max_depth, actual_depth, rng }
    }

    /// An atom over `alphabet`, drawn at random.
    pub fn random(alphabet: &Vec<char>) -> (r: String)
        ensures
            exists|n: nat|
                n < atom_count(alphabet@.len()) && r@ == #[trigger] picked(alphabet@, n),
    {
        let mut rng = fresh_rng();
        Self::random_with_rng(alphabet, &mut rng)
    }

    /// An atom over `alphabet`, drawn with `rng`.
    fn random_with_rng(alphabet: &Vec<char>, rng: &mut ThreadRng) -> (r: String)
        ensures
            exists|n: nat|
                n < atom_count(alphabet@.len()) && r@ == #[trigger] picked(alphabet@, n),
    {
        let n = draw(rng, atoms(alphabet));
        let r = pick(alphabet, n);
        proof {
            assert(n < atom_count(alphabet@.len()) && r@ == picked(alphabet@, n as nat));
        }
        r
    }

    /// An atom over the alphabet of the generator, drawn at random.
    pub fn letter(&mut self) -> (r: String)
        ensures
            exists|n: nat|
                n < atom_count(old(self).symbols().len()) && r@ == #[trigger] picked(
                    old(self).symbols(),
                    n,
                ),
            final(self).symbols() == old(self).symbols(),
            final(self).depth() == old(self).depth(),
            final(self).level() == old(self).level(),
    {
        let high = atoms(&self.alphabet);
        let n = draw(&mut self.rng, high);
        let r = pick(&self.alphabet, n);
        proof {
            assert(self.alphabet@ == old(self).alphabet@);
            assert(n < atom_count(old(self).symbols().len()) && r@ == picked(
                old(self).symbols(),
                n as nat,
            ));
        }
        r
    }

    /// A text of a regular expression, drawn at random.
    pub fn run(&mut self) -> (r: String)
        requires
            old(self).ready(),
        ensures
            generated(old(self).symbols(), old(self).depth() as nat, r@),
            final(self).ready(),
            final(self).symbols() == old(self).symbols(),
            final(self).depth() == old(self).depth(),
    {
        self.descend()
    }

    /// A text with the levels that are left to go.
    fn descend(&mut self) -> (r: String)
        requires
            old(self).actual_depth <= old(self).max_depth,
        ensures
            generated(
                old(self).alphabet@,
                (old(self).max_depth - old(self).actual_depth) as nat,
                r@,
            ),
            final(self).actual_depth == old(self).actual_depth,
            final(self).max_depth == old(self).max_depth,
            final(self).alphabet@ == old(self).alphabet@,
        decreases old(self).max_depth - old(self).actual_depth,
    {
        if self.actual_depth == self.max_depth {
            return self.letter();
        }
        let ghost left = (self.max_depth - self.actual_depth - 1) as nat;
        let choice = draw(&mut self.rng, 7);
        self.actual_depth += 1;
        let rec1 = self.descend();
        let ret = if choice == 4 {
            let atom = self.letter();
            let ghost n = choose|n: nat| atom@ == #[trigger] picked(self.alphabet@, n);
            let r = shape(choice, rec1.as_str(), "", atom.as_str());
            proof {
                assert(r@ == shaped(choice as nat, rec1@, ""@, picked(self.alphabet@, n)));
                assert(choice < 7 && generated(self.alphabet@, left, rec1@));
            }
            r
        } else if choice < 4 {
            let r = shape(choice, rec1.as_str(), "", "");
            proof {
                assert(r@ == shaped(choice as nat, rec1@, ""@, picked(self.alphabet@, 0)));
                assert(choice < 7 && generated(self.alphabet@, left, rec1@));
            }
            r
        } else {
            let rec2 = self.descend();
            let r = shape(choice, rec1.as_str(), rec2.as_str(), "");
            proof {
                assert(r@ == shaped(choice as nat, rec1@, rec2@, picked(self.alphabet@, 0)));
                assert(choice < 7 && generated(self.alphabet@, left, rec1@) && generated(
                    self.alphabet@,
                    left,
                    rec2@,
                ));
            }
            r
        };
        self.actual_depth -= 1;
        ret
    }
}

} // verus!
