//! From text to expressions and automata.
use crate::dfa::DFA;
use crate::nfa::NFA;
use crate::parser::{
    classify, lemma_no_stranger_wf, parsed, read_union, stranger, stranger_among, tokens, tokens_of, Fault, Token,
};
use crate::regex::tree::{lemma_models, Operations, Tree};
use crate::regex::Regex;
use crate::sets::{distinct, has_symbol};
use crate::text::string_of;
use vstd::prelude::*;
use vstd::string::StringExecFns;

verus! {

impl Fault {
    /// The message of the fault.
    pub open spec fn text(self) -> Seq<char> {
        match self {
            Fault::ExpectedLeft => "Expected left parenthesis."@,
            Fault::ExpectedRight => "Expected right parenthesis."@,
            Fault::ExpectedLetter => "Expected letter"@,
            Fault::Unexpected(c) => "Unexpected "@ + seq![c],
            Fault::Trailing => "Trailing characters."@,
            Fault::UnknownLetter(c) => "Letter "@ + seq![c] + " is not in the given alphabet"@,
        }
    }

    /// The message of the fault.
    pub fn describe(&self) -> (s: String)
        ensures
            s@ == self.text(),
    {
        match self {
            Fault::ExpectedLeft => String::from_str("Expected left parenthesis."),
            Fault::ExpectedRight => String::from_str("Expected right parenthesis."),
            Fault::ExpectedLetter => String::from_str("Expected letter"),
            Fault::Unexpected(c) => {
                let mut one: Vec<char> = Vec::new();
                one.push(*c);
                proof {
                    assert(one@ =~= seq![*c]);
                }
                let mut s = String::from_str("Unexpected ");
                s.append(string_of(&one).as_str());
                s
            },
            Fault::Trailing => String::from_str("Trailing characters."),
            Fault::UnknownLetter(c) => {
                let mut one: Vec<char> = Vec::new();
                one.push(*c);
                proof {
                    assert(one@ =~= seq![*c]);
                }
                let mut s = String::from_str("Letter ");
                s.append(string_of(&one).as_str());
                s.append(" is not in the given alphabet");
                s
            },
        }
    }
}

/// The first letter of the expression, from the left, that is not in
/// `alphabet`.
pub fn find_stranger(t: &Operations<char>, alphabet: &Vec<char>) -> (r: Option<char>)
    ensures
        r == stranger(t@, alphabet@.to_set()),
    decreases t,
{
    match t {
        Operations::Union(v) => find_stranger_among(v, alphabet),
        Operations::Concat(v) => find_stranger_among(v, alphabet),
        Operations::Repeat(c, _, _) => find_stranger(c, alphabet),
        Operations::Letter(a) => {
            if has_symbol(alphabet, *a) {
                None
            } else {
                Some(*a)
            }
        },
        _ => None,
    }
}

/// The first letter of the expressions, from the left, that is not in
/// `alphabet`.
pub fn find_stranger_among(v: &Vec<Operations<char>>, alphabet: &Vec<char>) -> (r: Option<char>)
    ensures
        r == stranger_among(Operations::models(v@), alphabet@.to_set()),
    decreases v,
{
    let ghost ms = Operations::models(v@);
    let mut i: usize = 0;
    proof {
        lemma_models(v@);
        assert(ms.take(0) =~= Seq::<Tree<char>>::empty());
    }
    while i < v.len()
        invariant
            i <= v.len(),
            ms == Operations::models(v@),
            ms.len() == v.len(),
            forall|j: int| 0 <= j < v.len() ==> (#[trigger] ms[j]) == v[j].model(),
            stranger_among(ms.take(i as int), alphabet@.to_set()) is None,
        decreases v.len() - i,
    {
        proof {
            assert(ms.take(i as int + 1).drop_last() =~= ms.take(i as int));
            assert(ms.take(i as int + 1).last() == v[i as int].model());
        }
        match find_stranger(&v[i], alphabet) {
            Some(a) => {
                proof {
                    lemma_stranger_found(ms, alphabet@.to_set(), i as int + 1);
                }
                return Some(a);
            },
            None => {},
        }
        i += 1;
    }
    proof {
        assert(ms.take(v.len() as int) =~= ms);
    }
    None
}

/// A stranger among the first expressions is the stranger among all.
pub proof fn lemma_stranger_found(ts: Seq<Tree<char>>, alphabet: Set<char>, upto: int)
    requires
        0 <= upto <= ts.len(),
        stranger_among(ts.take(upto), alphabet) is Some,
    ensures
        stranger_among(ts, alphabet) == stranger_among(ts.take(upto), alphabet),
    decreases ts.len() - upto,
{
    if upto < ts.len() {
        assert(ts.take(upto + 1).drop_last() =~= ts.take(upto));
        lemma_stranger_found(ts, alphabet, upto + 1);
    } else {
        assert(ts.take(upto) =~= ts);
    }
}

/// The characters of `s` that are letters, each once, in the order of their
/// first occurrence.
pub fn letters_of(s: &str) -> (r: Vec<char>)
    ensures
        r@.no_duplicates(),
        forall|c: char| r@.contains(c) <==> (s@.contains(c) && classify(c) == Token::Letter),
{
    let toks = tokens(s);
    let mut r: Vec<char> = Vec::new();
    let mut i: usize = 0;
    while i < toks.len()
        invariant
            i <= toks.len(),
            toks@ == tokens_of(s@),
            r@.no_duplicates(),
            forall|c: char|
                r@.contains(c) <==> (s@.take(i as int).contains(c) && classify(c) == Token::Letter),
        decreases toks.len() - i,
    {
        let c = toks[i].1;
        let ghost before = r@;
        let is_letter = match toks[i].0 {
            Token::Letter => true,
            _ => false,
        };
        if is_letter && !has_symbol(&r, c) {
            r.push(c);
        }
        proof {
            assert(s@.take(i as int + 1) =~= s@.take(i as int).push(s@[i as int]));
            assert forall|x: char|
                r@.contains(x) <==> (s@.take(i as int + 1).contains(x) && classify(x)
                    == Token::Letter) by {
                crate::sets::lemma_push_contains(before, c, x);
                crate::sets::lemma_push_contains(s@.take(i as int), c, x);
            }
        }
        i += 1;
    }
    proof {
        assert(s@.take(toks.len() as int) =~= s@);
    }
    r
}

impl Regex<char> {
    /// Parsing the printed form of a legible expression over its own alphabet
    /// gives an expression that matches the same words: the one that is read
    /// back from it.
    ///
    /// An expression is legible where no leaf of it matches nothing, its
    /// letters are letters of the surface syntax, its repetitions are stars,
    /// pluses and question marks, its unions have two or more children, none
    /// of them a union, and its concatenations have two or more children,
    /// none of them a concatenation. A reduced expression is legible where
    /// its printed form can be read.
    pub proof fn lemma_round_trip_language(&self)
        requires
            self.wf(),
            crate::regex::readback::legible(self@.tree),
        ensures
            parsed(self@.alphabet, self.shown()) == Ok::<Tree<char>, Fault>(
                crate::regex::readback::back(self@.tree, self.letters()),
            ),
            forall|w: Seq<char>|
                parsed(self@.alphabet, self.shown())->Ok_0.matches(self@.alphabet, w)
                    <==> self@.matches(w),
    {
        crate::regex::readback_language::lemma_parse_back(self@.tree, self.letters());
    }

    /// Parsing the printed form of a legible expression over its own alphabet
    /// gives the expression back, where no union in it holds the letters of
    /// all symbols, or the same option twice.
    pub proof fn lemma_round_trip(&self)
        requires
            self.wf(),
            crate::regex::readback::legible(self@.tree),
            crate::regex::readback::faithful(self@.tree, self.letters()),
        ensures
            parsed(self@.alphabet, self.shown()) == Ok::<Tree<char>, Fault>(self@.tree),
    {
        crate::regex::readback_language::lemma_parse_back(self@.tree, self.letters());
        crate::regex::readback::lemma_back_same(self@.tree, self.letters());
    }

    /// Parsing the printed form of a reduced expression over its own alphabet
    /// gives an expression that matches the same words, where the printed
    /// form can be read: where no leaf of the expression matches nothing, its
    /// letters are letters of the surface syntax, and its repetitions are
    /// stars, pluses and question marks.
    pub proof fn lemma_round_trip_reduced(&self)
        requires
            self.wf(),
            crate::regex::rules_reduced::reduced(self@.tree),
            crate::regex::readback::readable(self@.tree),
        ensures
            parsed(self@.alphabet, self.shown()) is Ok,
            forall|w: Seq<char>|
                parsed(self@.alphabet, self.shown())->Ok_0.matches(self@.alphabet, w)
                    <==> self@.matches(w),
    {
        crate::regex::readback::lemma_reduced_legible(self@.tree);
        self.lemma_round_trip_language();
    }

    /// The expression that `regex` spells, over `alphabet`.
    ///
    /// The empty text is the expression that matches nothing. A bar separates
    /// the options of a union; what stands side by side is concatenated; a
    /// star, a plus or a question mark behind a letter, a dot, the sign of the
    /// empty word or a bracketed union repeats it. Every other character is
    /// a letter, and must be in `alphabet`.
    pub fn parse_with_alphabet(alphabet: Vec<char>, regex: &str) -> (r: Result<
        Regex<char>,
        String,
    >)
        ensures
            match r {
                Ok(x) => x.wf() && x@.alphabet == alphabet@.to_set() && parsed(
                    alphabet@.to_set(),
                    regex@,
                ) == Ok::<Tree<char>, Fault>(x@.tree) && (regex@.len() > 0
                    ==> crate::regex::rules_language::plain(x@.tree))
                    && crate::regex::plainness::plain_or_empty(x@.tree),
                Err(msg) => parsed(alphabet@.to_set(), regex@) is Err && msg@ == parsed(
                    alphabet@.to_set(),
                    regex@,
                )->Err_0.text(),
            },
    {
        let kept = distinct(&alphabet);
        let toks = tokens(regex);
        if toks.len() == 0 {
            return Ok(Regex { alphabet: kept, regex: Operations::Empty });
        }
        match read_union(&toks, 0) {
            Err(e) => Err(e.describe()),
            Ok((t, p)) => {
                if p < toks.len() {
                    Err(Fault::Trailing.describe())
                } else {
                    match find_stranger(&t, &kept) {
                        Some(a) => Err(Fault::UnknownLetter(a).describe()),
                        None => {
                            proof {
                                lemma_no_stranger_wf(t@, kept@.to_set());
                            }
                            Ok(Regex { alphabet: kept, regex: t })
                        },
                    }
                }
            },
        }
    }

    /// The expression that `s` spells, over the letters that occur in it.
    pub fn from_str(s: &str) -> (r: Result<Regex<char>, String>)
        ensures
            match r {
                Ok(x) => x.wf() && x@.alphabet == letters(s@) && parsed(letters(s@), s@) == Ok::<
                    Tree<char>,
                    Fault,
                >(x@.tree) && crate::regex::plainness::plain_or_empty(x@.tree),
                Err(msg) => parsed(letters(s@), s@) is Err && msg@ == parsed(
                    letters(s@),
                    s@,
                )->Err_0.text(),
            },
    {
        let alphabet = letters_of(s);
        proof {
            assert(alphabet@.to_set() =~= letters(s@));
        }
        Regex::parse_with_alphabet(alphabet, s)
    }
}

/// The letters that occur in the text `s`.
pub open spec fn letters(s: Seq<char>) -> Set<char> {
    Set::new(|c: char| s.contains(c) && classify(c) == Token::Letter)
}

impl NFA<char> {
    /// An automaton that accepts what the expression that `s` spells
    /// matches, over the letters that occur in `s`.
    pub fn from_str(s: &str) -> (r: Result<NFA<char>, String>)
        ensures
            match r {
                Ok(a) => a.wf() && a@.alphabet == letters(s@) && parsed(letters(s@), s@) is Ok
                    && a@ == parsed(letters(s@), s@)->Ok_0.to_nfa(letters(s@))
                    && forall|w: Seq<char>|
                    a@.accepts(w) <==> parsed(letters(s@), s@)->Ok_0.matches(letters(s@), w),
                Err(msg) => parsed(letters(s@), s@) is Err && msg@ == parsed(
                    letters(s@),
                    s@,
                )->Err_0.text(),
            },
    {
        match Regex::from_str(s) {
            Ok(x) => Ok(x.to_nfa()),
            Err(msg) => Err(msg),
        }
    }
}

impl DFA<char> {
    /// A deterministic automaton that accepts what the expression that `s`
    /// spells matches, over the letters that occur in `s`.
    pub fn from_str(s: &str) -> (r: Result<DFA<char>, String>)
        ensures
            match r {
                Ok(a) => a.wf() && a@.alphabet == letters(s@) && parsed(letters(s@), s@) is Ok
                    && crate::determinism::is_determinized(
                    parsed(letters(s@), s@)->Ok_0.to_nfa(letters(s@)),
                    a@,
                ) && forall|w: Seq<char>|
                    a@.accepts(w) <==> parsed(letters(s@), s@)->Ok_0.matches(letters(s@), w),
                Err(msg) => parsed(letters(s@), s@) is Err && msg@ == parsed(
                    letters(s@),
                    s@,
                )->Err_0.text(),
            },
    {
        match NFA::from_str(s) {
            Ok(x) => Ok(x.to_dfa()),
            Err(msg) => Err(msg),
        }
    }
}

} // verus!
