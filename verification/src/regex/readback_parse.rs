//! The parser reads back, from the printed form of a legible expression,
//! what `back` says.
use crate::parser::{
    atom, chosen, concat_from, joined, paren, peaked, union_from, Fault, Token, Tokens,
};
use crate::regex::algebra::{inserted, inserted_all};
use crate::regex::readback::{
    all_options, all_parts, back, back_all, back_others, legible, lemma_back_all_first, lemma_back_others, lemma_group_back, lemma_group_legible, lemma_inserted_all_first, lemma_others, lemma_total_parts, optional_dot, others,
};
use crate::regex::readback_text::{
    lemma_covering_text, lemma_group_shown, lemma_legible_text, lemma_plain_union_text,
};
use crate::regex::texts::{
    bar_joined, closes, ends, is_letter, is_sign, lemma_parts_text, lemma_quantified_none, lemma_quantified_sign,
    lemma_stands_one, lemma_stands_split, part_text, quiet, single_byte, stands_at,
};
use crate::regex::rules::{lemma_size_positive, size, total};
use crate::regex::show::{bracketed, epsilon_sign, shown_bounds};
use crate::regex::tree::Tree;
use vstd::prelude::*;

verus! {

/// The nodes of a union, of a concatenation and of a repetition, by their
/// children.
pub proof fn lemma_group_size(ts: Seq<Tree<char>>)
    ensures
        size(Tree::Union(ts)) == 1 + total(ts),
        size(Tree::Concat(ts)) == 1 + total(ts),
{
    let u = Tree::Union(ts);
    let c = Tree::Concat(ts);
    match u {
        Tree::Union(cs) => {
            assert(cs == ts);
        },
        _ => {},
    }
    match c {
        Tree::Concat(cs) => {
            assert(cs == ts);
        },
        _ => {},
    }
}

/// Reading a part: where the text of the part `t` stands at `pos` and no
/// quantifier follows it, the reader of concatenations takes what is read
/// back from `t` as its next part.
pub proof fn lemma_back_item(
    toks: Tokens,
    pos: int,
    t: Tree<char>,
    sigma: Seq<char>,
    acc: Seq<Tree<char>>,
)
    requires
        legible(t),
        !(t is Concat),
        stands_at(toks, pos, part_text(t, sigma)),
        quiet(toks, pos + part_text(t, sigma).len()),
    ensures
        part_text(t, sigma).len() >= 1,
        concat_from(toks, pos, acc) == concat_from(
            toks,
            pos + part_text(t, sigma).len(),
            acc.push(back(t, sigma)),
        ),
    decreases size(t), 0nat,
{
    lemma_legible_text(t, sigma);
    let s = part_text(t, sigma);
    let len = s.len() as int;
    match t {
        Tree::Letter(a) => {
            assert(s =~= seq![a]);
            lemma_stands_one(toks, pos, a);
            lemma_quantified_none(toks, pos + 1, t);
            assert(atom(toks, pos) == Ok::<(Tree<char>, int), Fault>((t, pos + 1)));
        },
        Tree::Dot => {
            assert(s =~= seq!['.']);
            lemma_stands_one(toks, pos, '.');
            lemma_quantified_none(toks, pos + 1, t);
            assert(atom(toks, pos) == Ok::<(Tree<char>, int), Fault>((t, pos + 1)));
        },
        Tree::Epsilon => {
            assert(s =~= seq![epsilon_sign()]);
            lemma_stands_one(toks, pos, epsilon_sign());
            lemma_quantified_none(toks, pos + 1, t);
            assert(atom(toks, pos) == Ok::<(Tree<char>, int), Fault>((t, pos + 1)));
        },
        Tree::Repeat(c, lo, hi) => {
            let cs = c.shown(sigma);
            let sign = shown_bounds(lo, hi);
            let r = Tree::Repeat(Box::new(back(*c, sigma)), lo, hi);
            assert(back(t, sigma) == r);
            lemma_legible_text(*c, sigma);
            assert(s == bracketed(cs) + sign);
            lemma_stands_split(toks, pos, bracketed(cs), sign);
            let p1 = pos + bracketed(cs).len();
            assert(sign.len() == 1);
            lemma_quantified_sign(toks, p1, back(*c, sigma), lo, hi);
            if single_byte(cs) {
                assert(bracketed(cs) == cs);
                assert(cs =~= seq![cs[0]]);
                lemma_stands_one(toks, pos, cs[0]);
                match *c {
                    Tree::Letter(a) => {
                        assert(cs[0] == a);
                        assert(legible(*c));
                        assert(is_letter(a));
                        assert(peaked(toks, pos) == Some(Token::Letter));
                        assert(toks[pos].1 == a);
                        assert(atom(toks, pos) == Ok::<(Tree<char>, int), Fault>((r, pos + 2)));
                    },
                    Tree::Dot => {
                        assert(cs[0] == '.');
                        assert(atom(toks, pos) == Ok::<(Tree<char>, int), Fault>((r, pos + 2)));
                    },
                    Tree::Union(_) => {
                        assert(cs[0] == '.');
                        assert(back(*c, sigma) == Tree::<char>::Dot);
                        assert(atom(toks, pos) == Ok::<(Tree<char>, int), Fault>((r, pos + 2)));
                    },
                    _ => {},
                }
            } else {
                assert(bracketed(cs) == seq!['('] + cs + seq![')']);
                lemma_stands_split(toks, pos, seq!['('] + cs, seq![')']);
                lemma_stands_split(toks, pos, seq!['('], cs);
                lemma_stands_one(toks, pos, '(');
                lemma_stands_one(toks, pos + 1 + cs.len(), ')');
                lemma_back_inner(toks, pos + 1, *c, sigma);
                assert(paren(toks, pos) == Ok::<(Tree<char>, int), Fault>((r, pos + len)));
            }
        },
        Tree::Union(ts) => {
            let us = t.shown(sigma);
            assert(s == seq!['('] + us + seq![')']);
            lemma_stands_split(toks, pos, seq!['('] + us, seq![')']);
            lemma_stands_split(toks, pos, seq!['('], us);
            lemma_stands_one(toks, pos, '(');
            lemma_stands_one(toks, pos + 1 + us.len(), ')');
            lemma_group_size(ts);
            lemma_back_union(toks, pos + 1, ts, sigma);
            lemma_quantified_none(toks, pos + len, back(t, sigma));
            assert(paren(toks, pos) == Ok::<(Tree<char>, int), Fault>(
                (back(t, sigma), pos + len),
            ));
        },
        _ => {},
    }
}

/// Reading parts: where the texts of the parts `ts` stand at `pos` and what
/// follows ends a concatenation, the reader of concatenations gives the
/// concatenation of the parts it had and of what is read back from `ts`.
pub proof fn lemma_back_seq(
    toks: Tokens,
    pos: int,
    ts: Seq<Tree<char>>,
    sigma: Seq<char>,
    acc: Seq<Tree<char>>,
)
    requires
        all_parts(ts),
        stands_at(toks, pos, Tree::shown_parts(ts, sigma)),
        closes(toks, pos + Tree::shown_parts(ts, sigma).len()),
    ensures
        concat_from(toks, pos, acc) == Ok::<(Tree<char>, int), Fault>(
            (joined(acc + back_all(ts, sigma)), pos + Tree::shown_parts(ts, sigma).len()),
        ),
    decreases total(ts), 1nat,
{
    if ts.len() == 0 {
        assert(acc + back_all(ts, sigma) =~= acc);
        assert(Tree::shown_parts(ts, sigma).len() == 0);
    } else {
        let first = ts[0];
        let rest = ts.drop_first();
        lemma_parts_text(ts, sigma);
        lemma_total_parts(ts, 0);
        lemma_size_positive(first);
        let a = part_text(first, sigma);
        let b = Tree::shown_parts(rest, sigma);
        lemma_stands_split(toks, pos, a, b);
        assert(legible(first) && !(first is Concat));
        assert forall|i: int| 0 <= i < rest.len() implies legible(#[trigger] rest[i]) && !(
        rest[i] is Concat) by {
            assert(rest[i] == ts[i + 1]);
        }
        let p1 = pos + a.len();
        if rest.len() > 0 {
            lemma_parts_text(rest, sigma);
            lemma_legible_text(rest[0], sigma);
            let c = part_text(rest[0], sigma);
            lemma_stands_split(toks, p1, c, Tree::shown_parts(rest.drop_first(), sigma));
            assert(toks[p1 + 0] == (crate::parser::classify(c[0]), c[0]));
            assert(quiet(toks, p1));
        } else {
            assert(b.len() == 0);
            assert(quiet(toks, p1));
        }
        lemma_back_item(toks, pos, first, sigma, acc);
        lemma_back_seq(toks, p1, rest, sigma, acc.push(back(first, sigma)));
        lemma_back_all_first(ts, sigma);
        assert(acc.push(back(first, sigma)) + back_all(rest, sigma) =~= acc + back_all(ts, sigma));
    }
}

/// Reading an option: where the text of the option `t` stands at `pos` and
/// what follows ends a concatenation, the reader of concatenations gives
/// what is read back from `t`.
pub proof fn lemma_back_branch(toks: Tokens, pos: int, t: Tree<char>, sigma: Seq<char>)
    requires
        legible(t),
        !(t is Union),
        stands_at(toks, pos, t.shown(sigma)),
        closes(toks, pos + t.shown(sigma).len()),
    ensures
        concat_from(toks, pos, Seq::empty()) == Ok::<(Tree<char>, int), Fault>(
            (back(t, sigma), pos + t.shown(sigma).len()),
        ),
    decreases size(t), 1nat,
{
    let none = Seq::<Tree<char>>::empty();
    match t {
        Tree::Concat(ts) => {
            lemma_group_legible(ts);
            lemma_group_shown(ts, sigma);
            lemma_group_back(ts, sigma);
            lemma_group_size(ts);
            lemma_back_seq(toks, pos, ts, sigma, none);
            assert(none + back_all(ts, sigma) =~= back_all(ts, sigma));
        },
        _ => {
            assert(part_text(t, sigma) == t.shown(sigma));
            lemma_back_item(toks, pos, t, sigma, none);
            assert(none.push(back(t, sigma)) =~= seq![back(t, sigma)]);
        },
    }
}

/// Reading options: where the texts of the options `ts`, with bars between
/// them, stand at `pos` and what follows ends a union, the reader of unions
/// gives the union of the options it had and of what is read back from `ts`,
/// each once.
pub proof fn lemma_back_options(
    toks: Tokens,
    pos: int,
    ts: Seq<Tree<char>>,
    sigma: Seq<char>,
    acc: Seq<Tree<char>>,
)
    requires
        ts.len() >= 1,
        all_options(ts),
        stands_at(toks, pos, bar_joined(ts, sigma)),
        ends(toks, pos + bar_joined(ts, sigma).len()),
    ensures
        union_from(toks, pos, acc) == Ok::<(Tree<char>, int), Fault>(
            (chosen(inserted_all(acc, back_all(ts, sigma))), pos + bar_joined(ts, sigma).len()),
        ),
    decreases total(ts), 2nat,
{
    let first = ts[0];
    let rest = ts.drop_first();
    let a = first.shown(sigma);
    let x = back(first, sigma);
    assert(legible(first) && !(first is Union));
    lemma_total_parts(ts, 0);
    lemma_size_positive(first);
    lemma_back_all_first(ts, sigma);
    lemma_inserted_all_first(acc, x, back_all(rest, sigma));
    if ts.len() == 1 {
        assert(bar_joined(ts, sigma) == a);
        lemma_back_branch(toks, pos, first, sigma);
        assert(rest =~= Seq::<Tree<char>>::empty());
        assert(back_all(rest, sigma) =~= Seq::<Tree<char>>::empty());
    } else {
        let b = bar_joined(rest, sigma);
        assert(bar_joined(ts, sigma) == a + seq!['|'] + b);
        lemma_stands_split(toks, pos, a + seq!['|'], b);
        lemma_stands_split(toks, pos, a, seq!['|']);
        lemma_stands_one(toks, pos + a.len(), '|');
        lemma_back_branch(toks, pos, first, sigma);
        assert forall|i: int| 0 <= i < rest.len() implies legible(#[trigger] rest[i]) && !(
        rest[i] is Union) by {
            assert(rest[i] == ts[i + 1]);
        }
        lemma_back_options(toks, pos + a.len() + 1, rest, sigma, inserted(acc, x));
    }
}

/// Reading a union: where the printed form of the union of `ts` stands at
/// `pos` and what follows ends a union, the reader of unions gives what is
/// read back from the union.
pub proof fn lemma_back_union(toks: Tokens, pos: int, ts: Seq<Tree<char>>, sigma: Seq<char>)
    requires
        legible(Tree::Union(ts)),
        stands_at(toks, pos, Tree::Union(ts).shown(sigma)),
        ends(toks, pos + Tree::Union(ts).shown(sigma).len()),
    ensures
        union_from(toks, pos, Seq::empty()) == Ok::<(Tree<char>, int), Fault>(
            (back(Tree::Union(ts), sigma), pos + Tree::Union(ts).shown(sigma).len()),
        ),
    decreases total(ts), 3nat,
{
    let none = Seq::<Tree<char>>::empty();
    let dot = Tree::<char>::Dot;
    lemma_group_legible(ts);
    lemma_group_shown(ts, sigma);
    lemma_group_back(ts, sigma);
    lemma_total_parts(ts, 0);
    if optional_dot(ts, sigma) {
        let r = Tree::Repeat(Box::new(dot), 0, Some(1nat));
        assert(r.shown(sigma) =~= seq!['.', '?']);
        assert(size(dot) == 1);
        assert(size(r) == 1 + size(dot));
        assert(legible(dot));
        assert(is_sign(0, Some(1nat)));
        assert(legible(r));
        lemma_back_branch(toks, pos, r, sigma);
        assert(back(r, sigma) == r);
        assert(inserted(none, r) =~= seq![r]);
    } else if Tree::covers(ts, sigma) {
        lemma_covering_text(ts, sigma);
        lemma_others(ts);
        lemma_back_others(ts, sigma);
        let xs = others(ts);
        assert(inserted(none, dot) =~= seq![dot]);
        if xs.len() == 0 {
            lemma_back_branch(toks, pos, dot, sigma);
            assert(back_others(ts, sigma) =~= none);
        } else {
            let b = bar_joined(xs, sigma);
            assert(seq!['.', '|'] + b =~= seq!['.'] + seq!['|'] + b);
            lemma_stands_split(toks, pos, seq!['.'] + seq!['|'], b);
            lemma_stands_split(toks, pos, seq!['.'], seq!['|']);
            lemma_stands_one(toks, pos + 1, '|');
            lemma_back_branch(toks, pos, dot, sigma);
            assert forall|i: int| 0 <= i < xs.len() implies legible(#[trigger] xs[i]) && !(
            xs[i] is Union) by {
                assert(ts.contains(xs[i]));
                let j = choose|j: int| 0 <= j < ts.len() && ts[j] == xs[i];
                assert(legible(ts[j]));
            }
            lemma_back_options(toks, pos + 2, xs, sigma, seq![dot]);
        }
    } else {
        lemma_plain_union_text(ts, sigma);
        lemma_back_options(toks, pos, ts, sigma, none);
    }
}

/// Reading what stands in brackets: where the printed form of the
/// expression `t` stands at `pos` and what follows ends a union, the reader
/// of unions gives what is read back from `t`.
pub proof fn lemma_back_inner(toks: Tokens, pos: int, t: Tree<char>, sigma: Seq<char>)
    requires
        legible(t),
        stands_at(toks, pos, t.shown(sigma)),
        ends(toks, pos + t.shown(sigma).len()),
    ensures
        union_from(toks, pos, Seq::empty()) == Ok::<(Tree<char>, int), Fault>(
            (back(t, sigma), pos + t.shown(sigma).len()),
        ),
    decreases size(t), 3nat,
{
    let none = Seq::<Tree<char>>::empty();
    match t {
        Tree::Union(ts) => {
            lemma_group_size(ts);
            lemma_back_union(toks, pos, ts, sigma);
        },
        _ => {
            lemma_back_branch(toks, pos, t, sigma);
            assert(inserted(none, back(t, sigma)) =~= seq![back(t, sigma)]);
        },
    }
}

} // verus!
