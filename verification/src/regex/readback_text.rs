//! What the printed forms of legible expressions look like.
use crate::regex::readback::{
    back, back_others, legible, lemma_back_others, lemma_group_back, lemma_group_legible, lemma_others, optional_dot, others,
};
use crate::regex::texts::{
    bar_joined, begins, lemma_bar_joined, lemma_parts_text, part_text, single_byte,
};
use crate::regex::show::{bracketed, chopped, epsilon_sign, shown_bounds};
use crate::regex::tree::Tree;
use vstd::prelude::*;

verus! {

/// The printed form of a union and of a concatenation, by their children.
pub proof fn lemma_group_shown(ts: Seq<Tree<char>>, sigma: Seq<char>)
    ensures
        Tree::Union(ts).shown(sigma) == if optional_dot(ts, sigma) {
            seq!['.', '?']
        } else if Tree::covers(ts, sigma) {
            chopped(seq!['.', '|'] + Tree::shown_options(ts, sigma, true))
        } else {
            chopped(Tree::shown_options(ts, sigma, false))
        },
        Tree::Concat(ts).shown(sigma) == Tree::shown_parts(ts, sigma),
{
    let u = Tree::Union(ts);
    let c = Tree::Concat(ts);
    match u {
        Tree::Union(cs) => {
            assert(cs == ts);
        },
        _ => {},
    }
    match c {
        Tree::Concat(cs) => {
            assert(cs == ts);
        },
        _ => {},
    }
}

/// The printed forms of options without the letters are the printed forms of
/// the options that are no letters.
pub proof fn lemma_skipped_options(ts: Seq<Tree<char>>, sigma: Seq<char>)
    ensures
        Tree::shown_options(ts, sigma, true) == Tree::shown_options(others(ts), sigma, false),
    decreases ts.len(),
{
    if ts.len() > 0 {
        lemma_skipped_options(ts.drop_last(), sigma);
        if !(ts.last() is Letter) {
            let o = others(ts.drop_last());
            assert(o.push(ts.last()).drop_last() =~= o);
        }
    }
}

/// The printed form of a union that holds the letters of all symbols: a
/// dot, and behind it the options that are no letters, with bars.
pub proof fn lemma_covering_text(ts: Seq<Tree<char>>, sigma: Seq<char>)
    requires
        Tree::covers(ts, sigma),
        !optional_dot(ts, sigma),
    ensures
        Tree::Union(ts).shown(sigma) == if others(ts).len() == 0 {
            seq!['.']
        } else {
            seq!['.', '|'] + bar_joined(others(ts), sigma)
        },
{
    lemma_group_shown(ts, sigma);
    lemma_skipped_options(ts, sigma);
    let xs = others(ts);
    let head = seq!['.', '|'];
    if xs.len() == 0 {
        assert(Tree::shown_options(xs, sigma, false) =~= Seq::<char>::empty());
        assert(head + Seq::<char>::empty() =~= head);
        assert(chopped(head) =~= seq!['.']);
    } else {
        lemma_bar_joined(xs, sigma);
        let full = head + (bar_joined(xs, sigma) + seq!['|']);
        assert(full.drop_last() =~= head + bar_joined(xs, sigma));
    }
}

/// The printed form of a union that does not hold the letters of all
/// symbols: its options with bars between them.
pub proof fn lemma_plain_union_text(ts: Seq<Tree<char>>, sigma: Seq<char>)
    requires
        ts.len() > 0,
        !Tree::covers(ts, sigma),
    ensures
        Tree::Union(ts).shown(sigma) == bar_joined(ts, sigma),
{
    lemma_group_shown(ts, sigma);
    lemma_bar_joined(ts, sigma);
}

/// Options with texts that are not empty, with bars between them, begin as
/// the first option does and have a character for each option and each bar.
pub proof fn lemma_bar_joined_long(ts: Seq<Tree<char>>, sigma: Seq<char>)
    requires
        ts.len() >= 1,
        forall|i: int| 0 <= i < ts.len() ==> (#[trigger] ts[i]).shown(sigma).len() >= 1,
    ensures
        bar_joined(ts, sigma).len() >= 2 * ts.len() - 1,
        bar_joined(ts, sigma)[0] == ts[0].shown(sigma)[0],
    decreases ts.len(),
{
    assert(ts[0].shown(sigma).len() >= 1);
    if ts.len() > 1 {
        let rest = ts.drop_first();
        assert forall|i: int| 0 <= i < rest.len() implies (#[trigger] rest[i]).shown(sigma).len()
            >= 1 by {
            assert(rest[i] == ts[i + 1]);
        }
        lemma_bar_joined_long(rest, sigma);
    }
}

/// Parts with texts that are not empty, one after the other, begin as the
/// first part does and have a character for each part.
pub proof fn lemma_parts_long(ts: Seq<Tree<char>>, sigma: Seq<char>)
    requires
        forall|i: int| 0 <= i < ts.len() ==> part_text(#[trigger] ts[i], sigma).len() >= 1,
    ensures
        Tree::shown_parts(ts, sigma).len() >= ts.len(),
        ts.len() >= 1 ==> Tree::shown_parts(ts, sigma)[0] == part_text(ts[0], sigma)[0],
    decreases ts.len(),
{
    if ts.len() > 0 {
        let rest = ts.drop_first();
        assert forall|i: int| 0 <= i < rest.len() implies part_text(
            #[trigger] rest[i],
            sigma,
        ).len() >= 1 by {
            assert(rest[i] == ts[i + 1]);
        }
        lemma_parts_long(rest, sigma);
        lemma_parts_text(ts, sigma);
        assert(part_text(ts[0], sigma).len() >= 1);
    }
}

/// What the printed form of a legible expression looks like: it is not
/// empty and begins as a part does, and so does the expression as a part; a
/// repetition and a concatenation have two characters or more; and only a
/// letter, the dot and a union of the letters of all symbols, which is read
/// back as the dot, are printed as one character of one byte.
pub proof fn lemma_legible_text(t: Tree<char>, sigma: Seq<char>)
    requires
        legible(t),
    ensures
        t.shown(sigma).len() >= 1,
        begins(t.shown(sigma)[0]),
        part_text(t, sigma).len() >= 1,
        begins(part_text(t, sigma)[0]),
        t is Repeat || t is Concat ==> t.shown(sigma).len() >= 2,
        single_byte(t.shown(sigma)) ==> t is Letter || t is Dot || (t is Union && t.shown(sigma)
            == seq!['.'] && back(t, sigma) == Tree::<char>::Dot),
    decreases t,
{
    match t {
        Tree::Letter(a) => {},
        Tree::Dot => {},
        Tree::Epsilon => {
            assert((epsilon_sign() as u32) >= 128);
        },
        Tree::Repeat(c, lo, hi) => {
            lemma_legible_text(*c, sigma);
            let s = c.shown(sigma);
            assert(shown_bounds(lo, hi).len() == 1);
            if single_byte(s) {
                assert(bracketed(s) == s);
                assert(t.shown(sigma)[0] == s[0]);
            } else {
                assert(bracketed(s) == seq!['('] + s + seq![')']);
                assert(t.shown(sigma)[0] == '(');
            }
        },
        Tree::Union(ts) => {
            lemma_group_legible(ts);
            lemma_group_shown(ts, sigma);
            lemma_group_back(ts, sigma);
            assert(part_text(t, sigma)[0] == '(');
            if optional_dot(ts, sigma) {
            } else if Tree::covers(ts, sigma) {
                lemma_covering_text(ts, sigma);
                lemma_others(ts);
                lemma_back_others(ts, sigma);
                let xs = others(ts);
                if xs.len() == 0 {
                    assert(back_others(ts, sigma) =~= Seq::<Tree<char>>::empty());
                } else {
                    assert(t.shown(sigma)[0] == '.');
                }
            } else {
                lemma_plain_union_text(ts, sigma);
                assert forall|i: int| 0 <= i < ts.len() implies (#[trigger] ts[i]).shown(
                    sigma,
                ).len() >= 1 by {
                    lemma_legible_text(ts[i], sigma);
                }
                lemma_bar_joined_long(ts, sigma);
                lemma_legible_text(ts[0], sigma);
            }
        },
        Tree::Concat(ts) => {
            lemma_group_legible(ts);
            lemma_group_shown(ts, sigma);
            assert forall|i: int| 0 <= i < ts.len() implies part_text(
                #[trigger] ts[i],
                sigma,
            ).len() >= 1 by {
                lemma_legible_text(ts[i], sigma);
            }
            lemma_parts_long(ts, sigma);
            lemma_legible_text(ts[0], sigma);
        },
        _ => {},
    }
}

} // verus!
