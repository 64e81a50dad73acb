//! Texts among tokens: where a text stands, what ends a concatenation and a
//! union, and how the printed forms of parts and options are put together.
use crate::parser::{
    classify, peaked, quantified, stranger, stranger_among, tokens_of, Token, Tokens,
};
use crate::regex::show::{chopped, shown_bounds};
use crate::regex::tree::Tree;
use vstd::prelude::*;

verus! {

/// The character is a letter of the surface syntax.
pub open spec fn is_letter(c: char) -> bool {
    classify(c) == Token::Letter
}

/// The bounds are those of a star, a plus or a question mark.
pub open spec fn is_sign(lo: nat, hi: Option<nat>) -> bool {
    (lo == 0 && hi is None) || (lo == 1 && hi is None) || (lo == 0 && hi == Some(1nat))
}

/// The token is a star, a plus or a question mark.
pub open spec fn is_quantifier(t: Option<Token>) -> bool {
    t == Some(Token::Plus) || t == Some(Token::Kleene) || t == Some(Token::Question)
}

/// The text `s` stands in `toks` from `pos` on.
pub open spec fn stands_at(toks: Tokens, pos: int, s: Seq<char>) -> bool {
    &&& 0 <= pos
    &&& pos + s.len() <= toks.len()
    &&& forall|i: int| 0 <= i < s.len() ==> #[trigger] toks[pos + i] == (classify(s[i]), s[i])
}

/// No quantifier stands at `pos`.
pub open spec fn quiet(toks: Tokens, pos: int) -> bool {
    !is_quantifier(peaked(toks, pos))
}

/// What stands at `pos` ends a concatenation: a bar, a closing bracket or
/// the end.
pub open spec fn closes(toks: Tokens, pos: int) -> bool {
    peaked(toks, pos) is None || peaked(toks, pos) == Some(Token::Rpar) || peaked(toks, pos)
        == Some(Token::Union)
}

/// What stands at `pos` ends a union: a closing bracket or the end.
pub open spec fn ends(toks: Tokens, pos: int) -> bool {
    peaked(toks, pos) is None || peaked(toks, pos) == Some(Token::Rpar)
}

/// Where a text of two parts stands, both parts stand.
pub proof fn lemma_stands_split(toks: Tokens, pos: int, a: Seq<char>, b: Seq<char>)
    requires
        stands_at(toks, pos, a + b),
    ensures
        stands_at(toks, pos, a),
        stands_at(toks, pos + a.len(), b),
{
    let s = a + b;
    assert forall|i: int| 0 <= i < a.len() implies #[trigger] toks[pos + i] == (
        classify(a[i]),
        a[i],
    ) by {
        assert(s[i] == a[i]);
    }
    assert forall|i: int| 0 <= i < b.len() implies #[trigger] toks[pos + a.len() + i] == (
        classify(b[i]),
        b[i],
    ) by {
        assert(s[a.len() + i] == b[i]);
        assert(toks[pos + (a.len() + i)] == (classify(s[a.len() + i]), s[a.len() + i]));
    }
}

/// The token of a character that stands at `pos`.
pub proof fn lemma_stands_one(toks: Tokens, pos: int, c: char)
    requires
        stands_at(toks, pos, seq![c]),
    ensures
        peaked(toks, pos) == Some(classify(c)),
        toks[pos] == (classify(c), c),
        pos < toks.len(),
{
    assert(toks[pos + 0] == (classify(seq![c][0]), seq![c][0]));
}

/// Without a quantifier at `pos`, nothing is quantified.
pub proof fn lemma_quantified_none(toks: Tokens, pos: int, o: Tree<char>)
    requires
        quiet(toks, pos),
    ensures
        quantified(toks, pos, o) == (o, pos),
{
}

/// With one sign at `pos` and no quantifier behind it, the repetition of
/// that sign is read.
pub proof fn lemma_quantified_sign(
    toks: Tokens,
    pos: int,
    o: Tree<char>,
    lo: nat,
    hi: Option<nat>,
)
    requires
        is_sign(lo, hi),
        stands_at(toks, pos, shown_bounds(lo, hi)),
        quiet(toks, pos + 1),
    ensures
        shown_bounds(lo, hi).len() == 1,
        quantified(toks, pos, o) == (Tree::Repeat(Box::new(o), lo, hi), pos + 1),
{
    let s = shown_bounds(lo, hi);
    assert(s.len() == 1);
    assert(s =~= seq![s[0]]);
    lemma_stands_one(toks, pos, s[0]);
    lemma_quantified_none(toks, pos + 1, Tree::Repeat(Box::new(o), lo, hi));
}

/// The text of a part in a concatenation: its printed form, in brackets
/// where it is a union.
pub open spec fn part_text(t: Tree<char>, sigma: Seq<char>) -> Seq<char> {
    if t is Union {
        seq!['('] + t.shown(sigma) + seq![')']
    } else {
        t.shown(sigma)
    }
}

/// The printed forms of the options with bars between them.
pub open spec fn bar_joined(ts: Seq<Tree<char>>, sigma: Seq<char>) -> Seq<char>
    decreases ts.len(),
{
    if ts.len() == 0 {
        Seq::empty()
    } else if ts.len() == 1 {
        ts[0].shown(sigma)
    } else {
        ts[0].shown(sigma) + seq!['|'] + bar_joined(ts.drop_first(), sigma)
    }
}

/// The printed forms of parts, from the first on.
pub proof fn lemma_parts_text(ts: Seq<Tree<char>>, sigma: Seq<char>)
    requires
        ts.len() > 0,
    ensures
        Tree::shown_parts(ts, sigma) == part_text(ts[0], sigma) + Tree::shown_parts(
            ts.drop_first(),
            sigma,
        ),
    decreases ts.len(),
{
    let front = ts.drop_last();
    let rest = ts.drop_first();
    if ts.len() == 1 {
        assert(front =~= Seq::<Tree<char>>::empty());
        assert(rest =~= Seq::<Tree<char>>::empty());
        assert(ts.last() == ts[0]);
        assert(Tree::shown_parts(front, sigma) =~= Seq::<char>::empty());
        assert(Tree::shown_parts(rest, sigma) =~= Seq::<char>::empty());
        assert(Tree::shown_parts(ts, sigma) =~= part_text(ts[0], sigma));
        assert(part_text(ts[0], sigma) + Seq::<char>::empty() =~= part_text(ts[0], sigma));
    } else {
        lemma_parts_text(front, sigma);
        assert(front[0] == ts[0]);
        assert(front.drop_first() =~= rest.drop_last());
        assert(rest.last() == ts.last());
        let a = part_text(ts[0], sigma);
        let b = Tree::shown_parts(rest.drop_last(), sigma);
        let c = part_text(ts.last(), sigma);
        assert(Tree::shown_parts(ts, sigma) =~= (a + b) + c);
        assert(Tree::shown_parts(rest, sigma) =~= b + c);
        assert((a + b) + c =~= a + (b + c));
    }
}

/// The printed forms of options with a bar behind each, from the first on.
pub proof fn lemma_options_text(ts: Seq<Tree<char>>, sigma: Seq<char>)
    requires
        ts.len() > 0,
    ensures
        Tree::shown_options(ts, sigma, false) == ts[0].shown(sigma) + seq!['|']
            + Tree::shown_options(ts.drop_first(), sigma, false),
    decreases ts.len(),
{
    let front = ts.drop_last();
    let rest = ts.drop_first();
    if ts.len() == 1 {
        assert(front =~= Seq::<Tree<char>>::empty());
        assert(rest =~= Seq::<Tree<char>>::empty());
        assert(ts.last() == ts[0]);
        assert(Tree::shown_options(front, sigma, false) =~= Seq::<char>::empty());
        assert(Tree::shown_options(rest, sigma, false) =~= Seq::<char>::empty());
        assert(Tree::shown_options(ts, sigma, false) == Tree::shown_options(front, sigma, false)
            + ts.last().shown(sigma) + seq!['|']);
        assert(Tree::shown_options(ts, sigma, false) =~= ts[0].shown(sigma) + seq!['|']);
        assert(ts[0].shown(sigma) + seq!['|'] + Seq::<char>::empty() =~= ts[0].shown(sigma)
            + seq!['|']);
    } else {
        lemma_options_text(front, sigma);
        assert(front[0] == ts[0]);
        assert(front.drop_first() =~= rest.drop_last());
        assert(rest.last() == ts.last());
        let a = ts[0].shown(sigma) + seq!['|'];
        let b = Tree::shown_options(rest.drop_last(), sigma, false);
        let c = ts.last().shown(sigma) + seq!['|'];
        assert(Tree::shown_options(ts, sigma, false) =~= (a + b) + c);
        assert(Tree::shown_options(rest, sigma, false) =~= b + c);
        assert((a + b) + c =~= a + (b + c));
    }
}

/// The printed forms of options with a bar behind each, without the last
/// bar, are the printed forms with bars between them.
pub proof fn lemma_bar_joined(ts: Seq<Tree<char>>, sigma: Seq<char>)
    requires
        ts.len() > 0,
    ensures
        chopped(Tree::shown_options(ts, sigma, false)) == bar_joined(ts, sigma),
        Tree::shown_options(ts, sigma, false) == bar_joined(ts, sigma) + seq!['|'],
    decreases ts.len(),
{
    lemma_options_text(ts, sigma);
    let rest = ts.drop_first();
    if ts.len() == 1 {
        assert(rest =~= Seq::<Tree<char>>::empty());
        assert(Tree::shown_options(rest, sigma, false) =~= Seq::<char>::empty());
        assert(Tree::shown_options(ts, sigma, false) =~= ts[0].shown(sigma) + seq!['|']);
    } else {
        lemma_bar_joined(rest, sigma);
        assert(Tree::shown_options(ts, sigma, false) =~= (ts[0].shown(sigma) + seq!['|']
            + bar_joined(rest, sigma)) + seq!['|']);
    }
    let full = bar_joined(ts, sigma) + seq!['|'];
    assert(full.drop_last() =~= bar_joined(ts, sigma));
}

/// The character can begin a part: it is a letter, a dot, the sign of the
/// empty word or an opening bracket.
pub open spec fn begins(c: char) -> bool {
    classify(c) == Token::Letter || classify(c) == Token::Dot || classify(c) == Token::Epsilon
        || classify(c) == Token::Lpar
}

/// The text is one character that takes one byte.
pub open spec fn single_byte(s: Seq<char>) -> bool {
    s.len() == 1 && (s[0] as u32) < 128
}

/// A text stands in its own tokens, from the first on.
pub proof fn lemma_stands_whole(s: Seq<char>)
    ensures
        stands_at(tokens_of(s), 0, s),
        tokens_of(s).len() == s.len(),
{
}

/// A well-formed expression has no letter outside the alphabet.
pub proof fn lemma_wf_no_stranger(t: Tree<char>, alphabet: Set<char>)
    requires
        t.wf(alphabet),
    ensures
        stranger(t, alphabet) is None,
    decreases t, 0nat,
{
    match t {
        Tree::Union(ts) => {
            lemma_wf_no_stranger_among(ts, alphabet);
        },
        Tree::Concat(ts) => {
            lemma_wf_no_stranger_among(ts, alphabet);
        },
        Tree::Repeat(c, _, _) => {
            lemma_wf_no_stranger(*c, alphabet);
        },
        _ => {},
    }
}

/// Well-formed expressions have no letter outside the alphabet.
pub proof fn lemma_wf_no_stranger_among(ts: Seq<Tree<char>>, alphabet: Set<char>)
    requires
        forall|i: int| 0 <= i < ts.len() ==> (#[trigger] ts[i]).wf(alphabet),
    ensures
        stranger_among(ts, alphabet) is None,
    decreases ts, 1nat,
{
    if ts.len() > 0 {
        let front = ts.drop_last();
        assert forall|i: int| 0 <= i < front.len() implies (#[trigger] front[i]).wf(alphabet) by {
            assert(front[i] == ts[i]);
        }
        lemma_wf_no_stranger_among(front, alphabet);
        assert(ts[ts.len() - 1].wf(alphabet));
        lemma_wf_no_stranger(ts.last(), alphabet);
    }
}

} // verus!
