//! The surface syntax of regular expressions: tokens, and the parser of
//! unions, concatenations, quantified atoms and brackets.
use crate::regex::algebra::inserted;
use crate::regex::rules_language::{all_plain, lemma_group_plain, lemma_plain_push, plain};
use crate::regex::tree::{lemma_models, lemma_models_push, Operations, Tree};
use vstd::prelude::*;

verus! {

/// The kind of a character of the surface syntax.
#[derive(Debug, Clone, Copy, PartialEq, Eq)]
pub enum Token {
    /// The end of the input. No character has this kind.
    End,
    /// What is no token. No character has this kind.
    Error,
    /// The bar between the options of a union.
    Union,
    /// The opening bracket.
    Lpar,
    /// The closing bracket.
    Rpar,
    /// The dot: any symbol.
    Dot,
    /// The star: any number of times.
    Kleene,
    /// The question mark: at most once.
    Question,
    /// The plus: at least once.
    Plus,
    /// The sign of the empty word.
    Epsilon,
    /// Any other character: a letter.
    Letter,
}

/// Why a text is not a regular expression.
#[derive(Debug, Clone, Copy, PartialEq, Eq)]
pub enum Fault {
    /// An opening bracket was expected.
    ExpectedLeft,
    /// A closing bracket was expected.
    ExpectedRight,
    /// A letter, a dot or the sign of the empty word was expected.
    ExpectedLetter,
    /// A quantifier stands where nothing can be quantified.
    Unexpected(char),
    /// The expression ends before the text does.
    Trailing,
    /// A letter of the expression is not in the alphabet.
    UnknownLetter(char),
}

/// The tokens of a text: each character with its kind.
pub type Tokens = Seq<(Token, char)>;

/// The kind of the character `c`.
pub open spec fn classify(c: char) -> Token {
    if c == '|' {
        Token::Union
    } else if c == '(' {
        Token::Lpar
    } else if c == ')' {
        Token::Rpar
    } else if c == '.' {
        Token::Dot
    } else if c == '*' {
        Token::Kleene
    } else if c == '?' {
        Token::Question
    } else if c == '+' {
        Token::Plus
    } else if c == '\u{1D700}' {
        Token::Epsilon
    } else {
        Token::Letter
    }
}

/// The tokens of the text `s`.
pub open spec fn tokens_of(s: Seq<char>) -> Tokens {
    Seq::new(s.len(), |i: int| (classify(s[i]), s[i]))
}

/// The kind of the token at `pos`, where there is one.
pub open spec fn peaked(toks: Tokens, pos: int) -> Option<Token> {
    if 0 <= pos < toks.len() {
        Some(toks[pos].0)
    } else {
        None
    }
}

/// `o` with the quantifiers that stand at `pos`, and the place behind them.
pub open spec fn quantified(toks: Tokens, pos: int, o: Tree<char>) -> (Tree<char>, int)
    decreases toks.len() - pos,
{
    match peaked(toks, pos) {
        Some(Token::Plus) => quantified(toks, pos + 1, Tree::Repeat(Box::new(o), 1, None)),
        Some(Token::Kleene) => quantified(toks, pos + 1, Tree::Repeat(Box::new(o), 0, None)),
        Some(Token::Question) => quantified(
            toks,
            pos + 1,
            Tree::Repeat(Box::new(o), 0, Some(1nat)),
        ),
        _ => (o, pos),
    }
}

/// The letter, dot or empty word at `pos` with its quantifiers, and the
/// place behind them.
pub open spec fn atom(toks: Tokens, pos: int) -> Result<(Tree<char>, int), Fault> {
    match peaked(toks, pos) {
        Some(Token::Dot) => Ok(quantified(toks, pos + 1, Tree::Dot)),
        Some(Token::Epsilon) => Ok(quantified(toks, pos + 1, Tree::Epsilon)),
        Some(Token::Letter) => Ok(quantified(toks, pos + 1, Tree::Letter(toks[pos].1))),
        _ => Err(Fault::ExpectedLetter),
    }
}

/// The concatenation of `parts`: the part where there is one.
pub open spec fn joined(parts: Seq<Tree<char>>) -> Tree<char> {
    if parts.len() == 1 {
        parts[0]
    } else {
        Tree::Concat(parts)
    }
}

/// The union of `options`: the option where there is one.
pub open spec fn chosen(options: Seq<Tree<char>>) -> Tree<char> {
    if options.len() == 1 {
        options[0]
    } else {
        Tree::Union(options)
    }
}

/// The union that begins at `pos`, after the options `acc`, and the place
/// behind it: concatenations separated by bars, each option once.
pub open spec fn union_from(toks: Tokens, pos: int, acc: Seq<Tree<char>>) -> Result<
    (Tree<char>, int),
    Fault,
>
    decreases toks.len() - pos, 3nat,
{
    match concat_from(toks, pos, Seq::empty()) {
        Err(e) => Err(e),
        Ok((c, p)) => {
            let options = inserted(acc, c);
            if peaked(toks, p) == Some(Token::Union) && p >= pos {
                union_from(toks, p + 1, options)
            } else {
                Ok((chosen(options), p))
            }
        },
    }
}

/// The concatenation that begins at `pos`, after the parts `acc`, and the
/// place behind it: atoms and bracketed unions, up to a bar, a closing
/// bracket or the end.
pub open spec fn concat_from(toks: Tokens, pos: int, acc: Seq<Tree<char>>) -> Result<
    (Tree<char>, int),
    Fault,
>
    decreases toks.len() - pos, 2nat,
{
    match peaked(toks, pos) {
        Some(Token::Dot) | Some(Token::Epsilon) | Some(Token::Letter) => match atom(toks, pos) {
            Err(e) => Err(e),
            Ok((t, p)) => if pos < p <= toks.len() {
                concat_from(toks, p, acc.push(t))
            } else {
                Err(Fault::ExpectedLetter)
            },
        },
        Some(Token::Lpar) => match paren(toks, pos) {
            Err(e) => Err(e),
            Ok((t, p)) => if pos < p <= toks.len() {
                concat_from(toks, p, acc.push(t))
            } else {
                Err(Fault::ExpectedLeft)
            },
        },
        Some(Token::Kleene) | Some(Token::Plus) | Some(Token::Question) => Err(
            Fault::Unexpected(toks[pos].1),
        ),
        _ => Ok((joined(acc), pos)),
    }
}

/// The bracketed union at `pos` with its quantifiers, and the place behind
/// them.
pub open spec fn paren(toks: Tokens, pos: int) -> Result<(Tree<char>, int), Fault>
    decreases toks.len() - pos, 1nat,
{
    if peaked(toks, pos) == Some(Token::Lpar) {
        match union_from(toks, pos + 1, Seq::empty()) {
            Err(e) => Err(e),
            Ok((o, p)) => if peaked(toks, p) == Some(Token::Rpar) {
                Ok(quantified(toks, p + 1, o))
            } else {
                Err(Fault::ExpectedRight)
            },
        }
    } else {
        Err(Fault::ExpectedLeft)
    }
}

/// The first letter of the expression, from the left, that is not in
/// `alphabet`.
pub open spec fn stranger(t: Tree<char>, alphabet: Set<char>) -> Option<char>
    decreases t, 0nat,
{
    match t {
        Tree::Union(ts) => stranger_among(ts, alphabet),
        Tree::Concat(ts) => stranger_among(ts, alphabet),
        Tree::Repeat(c, _, _) => stranger(*c, alphabet),
        Tree::Letter(a) => if alphabet.contains(a) {
            None
        } else {
            Some(a)
        },
        _ => None,
    }
}

/// The first letter of the expressions, from the left, that is not in
/// `alphabet`.
pub open spec fn stranger_among(ts: Seq<Tree<char>>, alphabet: Set<char>) -> Option<char>
    decreases ts, 1nat,
{
    if ts.len() == 0 {
        None
    } else {
        match stranger_among(ts.drop_last(), alphabet) {
            Some(a) => Some(a),
            None => stranger(ts.last(), alphabet),
        }
    }
}

/// What the text `s` is as an expression over `alphabet`: the expression
/// that matches nothing for the empty text; else the union that the text
/// spells from its first to its last character, all letters of which are in
/// `alphabet`.
pub open spec fn parsed(alphabet: Set<char>, s: Seq<char>) -> Result<Tree<char>, Fault> {
    let toks = tokens_of(s);
    if toks.len() == 0 {
        Ok(Tree::Empty)
    } else {
        match union_from(toks, 0, Seq::empty()) {
            Err(e) => Err(e),
            Ok((t, p)) => if p < toks.len() {
                Err(Fault::Trailing)
            } else {
                match stranger(t, alphabet) {
                    Some(a) => Err(Fault::UnknownLetter(a)),
                    None => Ok(t),
                }
            },
        }
    }
}

/// No repetition of the expression has a second bound below its first.
pub open spec fn bounded<V>(t: Tree<V>) -> bool
    decreases t,
{
    match t {
        Tree::Union(ts) => forall|i: int| 0 <= i < ts.len() ==> bounded(#[trigger] ts[i]),
        Tree::Concat(ts) => forall|i: int| 0 <= i < ts.len() ==> bounded(#[trigger] ts[i]),
        Tree::Repeat(c, lo, hi) => bounded(*c) && (hi is Some ==> lo <= hi->0),
        _ => true,
    }
}

/// Every expression of `ts` is bounded.
pub open spec fn all_bounded<V>(ts: Seq<Tree<V>>) -> bool {
    forall|i: int| 0 <= i < ts.len() ==> bounded(#[trigger] ts[i])
}

/// A bounded expression without a letter outside the alphabet is well
/// formed.
pub proof fn lemma_no_stranger_wf(t: Tree<char>, alphabet: Set<char>)
    requires
        bounded(t),
        stranger(t, alphabet) is None,
    ensures
        t.wf(alphabet),
    decreases t, 0nat,
{
    match t {
        Tree::Union(ts) => {
            lemma_no_stranger_among(ts, alphabet);
        },
        Tree::Concat(ts) => {
            lemma_no_stranger_among(ts, alphabet);
        },
        Tree::Repeat(c, _, _) => {
            lemma_no_stranger_wf(*c, alphabet);
        },
        _ => {},
    }
}

/// Bounded expressions without a letter outside the alphabet are well
/// formed.
pub proof fn lemma_no_stranger_among(ts: Seq<Tree<char>>, alphabet: Set<char>)
    requires
        all_bounded(ts),
        stranger_among(ts, alphabet) is None,
    ensures
        forall|i: int| 0 <= i < ts.len() ==> (#[trigger] ts[i]).wf(alphabet),
    decreases ts, 1nat,
{
    if ts.len() > 0 {
        let front = ts.drop_last();
        assert forall|i: int| 0 <= i < front.len() implies bounded(#[trigger] front[i]) by {
            assert(front[i] == ts[i]);
        }
        lemma_no_stranger_among(front, alphabet);
        assert(bounded(ts[ts.len() - 1]));
        lemma_no_stranger_wf(ts.last(), alphabet);
        assert forall|i: int| 0 <= i < ts.len() implies (#[trigger] ts[i]).wf(alphabet) by {
            if i < front.len() {
                assert(front[i].wf(alphabet));
            }
        }
    }
}

/// The kind of the character `c`.
pub fn kind_of(c: char) -> (t: Token)
    ensures
        t == classify(c),
{
    if c == '|' {
        Token::Union
    } else if c == '(' {
        Token::Lpar
    } else if c == ')' {
        Token::Rpar
    } else if c == '.' {
        Token::Dot
    } else if c == '*' {
        Token::Kleene
    } else if c == '?' {
        Token::Question
    } else if c == '+' {
        Token::Plus
    } else if c == '\u{1D700}' {
        Token::Epsilon
    } else {
        Token::Letter
    }
}

/// The tokens of the text `s`: each character with its kind.
pub fn tokens(s: &str) -> (r: Vec<(Token, char)>)
    ensures
        r@ == tokens_of(s@),
{
    let n = s.unicode_len();
    let mut r: Vec<(Token, char)> = Vec::new();
    let mut i: usize = 0;
    while i < n
        invariant
            i <= n,
            n == s@.len(),
            r.len() == i,
            forall|j: int| 0 <= j < i ==> #[trigger] r[j] == (classify(s@[j]), s@[j]),
        decreases n - i,
    {
        let c = s.get_char(i);
        r.push((kind_of(c), c));
        i += 1;
    }
    proof {
        assert(r@ =~= tokens_of(s@));
    }
    r
}

/// The kind of the token at `pos`, where there is one.
pub fn peak(toks: &Vec<(Token, char)>, pos: usize) -> (r: Option<Token>)
    ensures
        r == peaked(toks@, pos as int),
{
    if pos < toks.len() {
        Some(toks[pos].0)
    } else {
        None
    }
}

/// `o` with the quantifiers that stand at `pos`, and the place behind them.
pub fn read_quantif(toks: &Vec<(Token, char)>, pos: usize, o: Operations<char>) -> (r: (
    Operations<char>,
    usize,
))
    requires
        bounded(o@),
        plain(o@),
        pos <= toks.len(),
    ensures
        (r.0@, r.1 as int) == quantified(toks@, pos as int, o@),
        pos <= r.1 <= toks.len(),
        bounded(r.0@),
        plain(r.0@),
{
    let ghost first = o@;
    let mut cur = pos;
    let mut o = o;
    loop
        invariant
            pos <= cur <= toks.len(),
            bounded(o@),
            plain(o@),
            quantified(toks@, pos as int, first) == quantified(toks@, cur as int, o@),
        ensures
            pos <= cur <= toks.len(),
            bounded(o@),
            plain(o@),
            quantified(toks@, pos as int, first) == (o@, cur as int),
        decreases toks.len() - cur,
    {
        match peak(toks, cur) {
            Some(Token::Plus) => {
                o = Operations::Repeat(Box::new(o), 1, None);
            },
            Some(Token::Kleene) => {
                o = Operations::Repeat(Box::new(o), 0, None);
            },
            Some(Token::Question) => {
                o = Operations::Repeat(Box::new(o), 0, Some(1));
            },
            _ => {
                break;
            },
        }
        cur += 1;
    }
    (o, cur)
}

/// The models of bounded expressions after one more bounded expression.
pub proof fn lemma_all_bounded_push(v: Seq<Operations<char>>, x: Operations<char>)
    requires
        all_bounded(Operations::models(v)),
        bounded(x@),
    ensures
        all_bounded(Operations::models(v.push(x))),
{
    lemma_models_push(v, x);
    let ms = Operations::models(v);
    let ms2 = ms.push(x@);
    assert forall|i: int| 0 <= i < ms2.len() implies bounded(#[trigger] ms2[i]) by {
        if i < ms.len() {
            assert(bounded(ms[i]));
        }
    }
}

/// The union or the concatenation of bounded expressions is bounded, and so
/// is the one expression where there is one.
pub proof fn lemma_bounded_group(ts: Seq<Tree<char>>)
    requires
        all_bounded(ts),
    ensures
        bounded(joined(ts)),
        bounded(chosen(ts)),
        bounded(Tree::Union(ts)),
        bounded(Tree::Concat(ts)),
{
    assert(crate::regex::tree::children(Tree::Union(ts)) == ts);
    assert(crate::regex::tree::children(Tree::Concat(ts)) == ts);
    let u = Tree::Union(ts);
    let c = Tree::Concat(ts);
    match u {
        Tree::Union(cs) => {
            assert(cs == ts);
            assert forall|i: int| 0 <= i < cs.len() implies bounded(#[trigger] cs[i]) by {
                assert(bounded(ts[i]));
            }
        },
        _ => {},
    }
    match c {
        Tree::Concat(cs) => {
            assert(cs == ts);
            assert forall|i: int| 0 <= i < cs.len() implies bounded(#[trigger] cs[i]) by {
                assert(bounded(ts[i]));
            }
        },
        _ => {},
    }
    if ts.len() == 1 {
        assert(bounded(ts[0]));
    }
}

/// The letter, dot or empty word at `pos` with its quantifiers, and the
/// place behind them.
pub fn read_letter(toks: &Vec<(Token, char)>, pos: usize) -> (r: Result<
    (Operations<char>, usize),
    Fault,
>)
    ensures
        match r {
            Ok((o, p)) => atom(toks@, pos as int) == Ok::<(Tree<char>, int), Fault>(
                (o@, p as int),
            ) && pos < p <= toks.len() && bounded(o@) && plain(o@),
            Err(e) => atom(toks@, pos as int) == Err::<(Tree<char>, int), Fault>(e),
        },
{
    if pos >= toks.len() {
        return Err(Fault::ExpectedLetter);
    }
    match peak(toks, pos) {
        Some(Token::Dot) => Ok(read_quantif(toks, pos + 1, Operations::Dot)),
        Some(Token::Epsilon) => Ok(read_quantif(toks, pos + 1, Operations::Epsilon)),
        Some(Token::Letter) => Ok(read_quantif(toks, pos + 1, Operations::Letter(toks[pos].1))),
        _ => Err(Fault::ExpectedLetter),
    }
}

/// The bracketed union at `pos` with its quantifiers, and the place behind
/// them.
pub fn read_paren(toks: &Vec<(Token, char)>, pos: usize) -> (r: Result<
    (Operations<char>, usize),
    Fault,
>)
    requires
        pos <= toks.len(),
    ensures
        match r {
            Ok((o, p)) => paren(toks@, pos as int) == Ok::<(Tree<char>, int), Fault>(
                (o@, p as int),
            ) && pos < p <= toks.len() && bounded(o@) && plain(o@),
            Err(e) => paren(toks@, pos as int) == Err::<(Tree<char>, int), Fault>(e),
        },
    decreases toks.len() - pos, 1nat,
{
    match peak(toks, pos) {
        Some(Token::Lpar) => {},
        _ => {
            return Err(Fault::ExpectedLeft);
        },
    }
    match read_union(toks, pos + 1) {
        Err(e) => Err(e),
        Ok((o, p)) => {
            match peak(toks, p) {
                Some(Token::Rpar) => Ok(read_quantif(toks, p + 1, o)),
                _ => Err(Fault::ExpectedRight),
            }
        },
    }
}

/// The concatenation that begins at `pos`, and the place behind it.
pub fn read_concat(toks: &Vec<(Token, char)>, pos: usize) -> (r: Result<
    (Operations<char>, usize),
    Fault,
>)
    requires
        pos <= toks.len(),
    ensures
        match r {
            Ok((o, p)) => concat_from(toks@, pos as int, Seq::empty()) == Ok::<
                (Tree<char>, int),
                Fault,
            >((o@, p as int)) && pos <= p <= toks.len() && bounded(o@) && plain(o@),
            Err(e) => concat_from(toks@, pos as int, Seq::empty()) == Err::<
                (Tree<char>, int),
                Fault,
            >(e),
        },
    decreases toks.len() - pos, 2nat,
{
    let ghost goal = concat_from(toks@, pos as int, Seq::empty());
    let mut parts: Vec<Operations<char>> = Vec::new();
    let mut cur = pos;
    loop
        invariant_except_break
            goal == concat_from(toks@, cur as int, Operations::models(parts@)),
        invariant
            pos <= cur <= toks.len(),
            all_bounded(Operations::models(parts@)),
            all_plain(Operations::models(parts@)),
            goal == concat_from(toks@, pos as int, Seq::empty()),
        ensures
            pos <= cur <= toks.len(),
            all_bounded(Operations::models(parts@)),
            all_plain(Operations::models(parts@)),
            goal == Ok::<(Tree<char>, int), Fault>(
                (joined(Operations::models(parts@)), cur as int),
            ),
        decreases toks.len() - cur,
    {
        match peak(toks, cur) {
            Some(Token::Dot) | Some(Token::Epsilon) | Some(Token::Letter) => {
                match read_letter(toks, cur) {
                    Err(e) => {
                        return Err(e);
                    },
                    Ok((t, p)) => {
                        proof {
                            lemma_all_bounded_push(parts@, t);
                            lemma_models_push(parts@, t);
                            lemma_plain_push(Operations::models(parts@), t@);
                        }
                        parts.push(t);
                        cur = p;
                    },
                }
            },
            Some(Token::Lpar) => {
                match read_paren(toks, cur) {
                    Err(e) => {
                        return Err(e);
                    },
                    Ok((t, p)) => {
                        proof {
                            lemma_all_bounded_push(parts@, t);
                            lemma_models_push(parts@, t);
                            lemma_plain_push(Operations::models(parts@), t@);
                        }
                        parts.push(t);
                        cur = p;
                    },
                }
            },
            Some(Token::Kleene) | Some(Token::Plus) | Some(Token::Question) => {
                return Err(Fault::Unexpected(toks[cur].1));
            },
            _ => {
                break;
            },
        }
    }
    proof {
        lemma_models(parts@);
        lemma_bounded_group(Operations::models(parts@));
        lemma_group_plain(Operations::models(parts@));
        if parts.len() == 1 {
            assert(plain(Operations::models(parts@)[0]));
        }
    }
    if parts.len() == 1 {
        Ok((parts[0].copy(), cur))
    } else {
        Ok((Operations::Concat(parts), cur))
    }
}

/// The union that begins at `pos`, and the place behind it.
pub fn read_union(toks: &Vec<(Token, char)>, pos: usize) -> (r: Result<
    (Operations<char>, usize),
    Fault,
>)
    requires
        pos <= toks.len(),
    ensures
        match r {
            Ok((o, p)) => union_from(toks@, pos as int, Seq::empty()) == Ok::<
                (Tree<char>, int),
                Fault,
            >((o@, p as int)) && pos <= p <= toks.len() && bounded(o@) && plain(o@),
            Err(e) => union_from(toks@, pos as int, Seq::empty()) == Err::<
                (Tree<char>, int),
                Fault,
            >(e),
        },
    decreases toks.len() - pos, 3nat,
{
    let ghost goal = union_from(toks@, pos as int, Seq::empty());
    let mut options: Vec<Operations<char>> = Vec::new();
    let mut cur = pos;
    loop
        invariant_except_break
            goal == union_from(toks@, cur as int, Operations::models(options@)),
        invariant
            pos <= cur <= toks.len(),
            all_bounded(Operations::models(options@)),
            all_plain(Operations::models(options@)),
            goal == union_from(toks@, pos as int, Seq::empty()),
        ensures
            pos <= cur <= toks.len(),
            all_bounded(Operations::models(options@)),
            all_plain(Operations::models(options@)),
            Operations::models(options@).len() >= 1,
            goal == Ok::<(Tree<char>, int), Fault>(
                (chosen(Operations::models(options@)), cur as int),
            ),
        decreases toks.len() - cur,
    {
        match read_concat(toks, cur) {
            Err(e) => {
                return Err(e);
            },
            Ok((c, p)) => {
                proof {
                    let before = Operations::models(options@);
                    let after = inserted(before, c@);
                    lemma_plain_push(before, c@);
                    assert(all_bounded(after)) by {
                        assert forall|i: int| 0 <= i < after.len() implies bounded(
                            #[trigger] after[i],
                        ) by {
                            if i < before.len() {
                                assert(bounded(before[i]));
                            }
                        }
                    }
                }
                Operations::insert(&mut options, c);
                cur = p;
                match peak(toks, cur) {
                    Some(Token::Union) => {
                        cur += 1;
                    },
                    _ => {
                        break;
                    },
                }
            },
        }
    }
    proof {
        lemma_models(options@);
        lemma_bounded_group(Operations::models(options@));
        lemma_group_plain(Operations::models(options@));
        if options.len() == 1 {
            assert(plain(Operations::models(options@)[0]));
        }
    }
    if options.len() == 1 {
        Ok((options[0].copy(), cur))
    } else {
        Ok((Operations::Union(options), cur))
    }
}

} // verus!
