use rustomaton::generator::{new_generator, pick, shape, Generator};
use rustomaton::nfa::NFA;
use rustomaton::parser::{kind_of, peak, tokens, Fault, Token};
use rustomaton::regex::tree::Operations;
use rustomaton::regex::Regex;
use rustomaton::symbol::Symbol;
use rustomaton::utils::{
    append_hashset, append_shift_hashset, append_shift_transitions, shift_fnda, shift_hashset,
    shift_transitions,
};

fn digits() -> Vec<char> {
    (b'0'..=b'9').map(char::from).collect()
}

fn word(s: &str) -> Vec<char> {
    s.chars().collect()
}

fn simplified(text: &str) -> String {
    Regex::parse_with_alphabet("0123456789abc".chars().collect(), text)
        .unwrap()
        .simplify()
        .to_string()
}

fn printed(text: &str) -> String {
    Regex::parse_with_alphabet("0123456789abc".chars().collect(), text)
        .unwrap()
        .to_string()
}

#[test]
fn simplify_reduces_by_the_rules() {
    assert_eq!(simplified(""), "∅");
    assert_eq!(simplified("𝜀"), "𝜀");
    assert_eq!(simplified("𝜀𝜀((𝜀))𝜀𝜀"), "𝜀");
    assert_eq!(simplified("0|1|0|(0|1)"), "0|1");
    assert_eq!(simplified("(0|1|2|3|𝜀)?"), "0|1|2|3|𝜀");
    assert_eq!(simplified("10|11|12|13"), "1(0|1|2|3)");
    assert_eq!(simplified("1𝜀2𝜀3𝜀"), "123");
    assert_eq!(simplified("(1|3|4|𝜀)*"), "(1|3|4)*");
    assert_eq!(simplified("1|𝜀"), "1?");
    assert_eq!(simplified("1*|𝜀"), "(1*)?");
    assert_eq!(simplified("ab|ac"), "a(b|c)");
    assert_eq!(simplified("abc|abb"), "ab(c|b)");
    assert_eq!(simplified("a**"), "a*");
    assert_eq!(simplified("a?*"), "a*");
    assert_eq!(simplified("a+*"), "a*");
    assert_eq!(simplified("𝜀*"), "𝜀");
    assert_eq!(simplified("𝜀+?"), "𝜀");
    assert_eq!(simplified("(a|𝜀)*"), "a*");
    assert_eq!(simplified("(a|𝜀)+"), "(a?)+");
    assert_eq!(simplified("a|a*|𝜀"), "a|a*");
    assert_eq!(simplified("(a)"), "a");
    assert_eq!(simplified("a(b(c))"), "abc");
    assert_eq!(simplified("(a|b)|c"), "a|b|c");
    assert_eq!(simplified("a|ab"), "ab?");
}

#[test]
fn simplify_keeps_the_language() {
    let alphabet: Vec<char> = "01".chars().collect();
    let mut all: Vec<Vec<char>> = vec![vec![]];
    let mut last: Vec<Vec<char>> = vec![vec![]];
    for _ in 0..5 {
        let mut next = Vec::new();
        for w in &last {
            for c in &alphabet {
                let mut x = w.clone();
                x.push(*c);
                next.push(x);
            }
        }
        all.extend(next.iter().cloned());
        last = next;
    }
    for text in [
        "0|1|0|(0|1)", "(0|1|𝜀)?", "10|11", "1𝜀0𝜀1𝜀", "(1|0|𝜀)*", "1|𝜀", "1*|𝜀", "1+|𝜀",
        "0(1|𝜀)|0", "(01)*|(01)+", "0**1?+", "(0|1)(0|1)|0", "𝜀|0|0*",
    ] {
        let r = Regex::parse_with_alphabet(alphabet.clone(), text).unwrap();
        let a = r.to_nfa();
        let b = r.simplify().to_nfa();
        for w in &all {
            assert_eq!(a.run(w), b.run(w), "{}", text);
        }
    }
}

#[test]
fn printed_forms() {
    assert_eq!(printed("a|b"), "a|b");
    assert_eq!(printed("ab*"), "ab*");
    assert_eq!(printed("(ab)*"), "(ab)*");
    assert_eq!(printed("(a|b)c"), "(a|b)c");
    assert_eq!(printed("a+b?"), "a+b?");
    assert_eq!(printed("𝜀*"), "(𝜀)*");
    assert_eq!(printed(".a"), ".a");
    assert_eq!(printed("a**"), "(a*)*");
    let two = |t: &str| Regex::parse_with_alphabet(vec!['a', 'b'], t).unwrap();
    assert_eq!(two("a|b").to_string(), ".");
    assert_eq!(two("a|b|𝜀").to_string(), ".?");
    assert_eq!(two("b|aa|a").to_string(), ".|aa");
    assert_eq!(two("a").repeat(2, Some(3)).to_string(), "a{2,3}");
    assert_eq!(two("a").repeat(2, Some(2)).to_string(), "a{2}");
    assert_eq!(two("a").repeat(12, None).to_string(), "a{12,}");
    assert_eq!(two("ab").at_most(20).to_string(), "(ab){,20}");
    assert_eq!(two("a").at_most(1).to_string(), "a?");
    assert_eq!(two("a").at_least(0).to_string(), "a*");
    assert_eq!(two("a").at_least(1).to_string(), "a+");
    assert_eq!(two("a").kleene().to_string(), "a*");
    assert_eq!(two("a").repeat(3, Some(1)).to_string(), "∅");
    assert_eq!(two("a").unite(two("b")).to_string(), ".");
    assert_eq!(two("ab").concatenate(two("b*")).to_string(), "abb*");
    assert_eq!(two("a").unite(two("")).to_string(), "a");
    assert_eq!(two("a").concatenate(two("")).to_string(), "∅");
    assert_eq!(two("a").concatenate(two("𝜀")).to_string(), "a");
    let n = Regex::parse_with_alphabet(vec!['a'], "a").unwrap().to_nfa().to_regex();
    assert_eq!(n.simplify().to_string(), "a");
}

#[test]
fn numbers_as_symbols() {
    assert_eq!(0u8.spell(), vec!['0']);
    assert_eq!(255u8.spell(), vec!['2', '5', '5']);
    assert_eq!(1000u32.spell(), vec!['1', '0', '0', '0']);
    assert_eq!(18446744073709551615u64.spell().len(), 20);
    assert_eq!(907usize.spell(), vec!['9', '0', '7']);
    assert_eq!(65535u16.spell(), vec!['6', '5', '5', '3', '5']);
    assert_eq!('x'.spell(), vec!['x']);
    assert_eq!(true.spell(), vec!['1']);
    assert_eq!(false.spell(), vec!['0']);
    assert!(3u8.same(&3) && !3u8.same(&4) && 'a'.same(&'a') && !true.same(&false));
    let a = NFA::new_matching(vec![10u8, 20], &[10, 20]);
    assert!(a.run(&[10, 20]) && !a.run(&[20, 10]));
    assert_eq!(a.to_regex().simplify().to_string(), "1020");
}

#[test]
fn parser_reports_faults() {
    let parse = |t: &str| Regex::parse_with_alphabet(vec!['a', 'b'], t).err();
    assert_eq!(parse("("), Some("Expected right parenthesis.".to_string()));
    assert_eq!(parse("(a"), Some("Expected right parenthesis.".to_string()));
    assert_eq!(parse(")"), Some("Trailing characters.".to_string()));
    assert_eq!(parse("a)b"), Some("Trailing characters.".to_string()));
    assert_eq!(parse("*a"), Some("Unexpected *".to_string()));
    assert_eq!(parse("a|+"), Some("Unexpected +".to_string()));
    assert_eq!(parse("(?)"), Some("Unexpected ?".to_string()));
    assert_eq!(parse("abxy"), Some("Letter x is not in the given alphabet".to_string()));
    assert_eq!(parse("a|b|𝜀|."), None);
    assert_eq!(Fault::ExpectedLeft.describe(), "Expected left parenthesis.");
    assert_eq!(Fault::ExpectedLetter.describe(), "Expected letter");
    assert_eq!(Fault::Unexpected('*').describe(), "Unexpected *");
    assert!(Regex::from_str("xyz|()").is_ok());
    assert!(NFA::from_str("(a").is_err());
    let r = Regex::from_str("hello|w+").unwrap().to_nfa();
    assert!(r.run(&word("hello")) && r.run(&word("www")) && !r.run(&word("hellow")));
    assert!(!r.run(&word("z")));
}

#[test]
fn tokens_of_a_text() {
    assert_eq!(
        tokens("a|(.)*?+𝜀"),
        vec![
            (Token::Letter, 'a'),
            (Token::Union, '|'),
            (Token::Lpar, '('),
            (Token::Dot, '.'),
            (Token::Rpar, ')'),
            (Token::Kleene, '*'),
            (Token::Question, '?'),
            (Token::Plus, '+'),
            (Token::Epsilon, '𝜀'),
        ]
    );
    assert_eq!(tokens(""), vec![]);
    assert_eq!(kind_of(' '), Token::Letter);
    assert_eq!(kind_of('∅'), Token::Letter);
    let t = tokens("ab");
    assert_eq!(peak(&t, 0), Some(Token::Letter));
    assert_eq!(peak(&t, 2), None);
}

#[test]
fn expression_trees() {
    let a = || Operations::Letter('a');
    let b = || Operations::Letter('b');
    assert!(a().same(&a()) && !a().same(&b()));
    assert!(a().plus(b()).same(&Operations::Union(vec![a(), b()])));
    assert!(a().plus(a()).same(&Operations::Union(vec![a()])));
    assert!(a().plus(Operations::Empty).same(&a()));
    assert!(Operations::Empty.plus(b()).same(&b()));
    assert!(a().plus(b()).plus(a()).same(&Operations::Union(vec![a(), b()])));
    assert!(a().times(b()).same(&Operations::Concat(vec![a(), b()])));
    assert!(a().times(Operations::Epsilon).same(&a()));
    assert!(Operations::Epsilon.times(b()).same(&b()));
    assert!(a().times(Operations::Empty).same(&Operations::Empty));
    assert!(Operations::Empty.times(b()).same(&Operations::Empty));
    assert!(a()
        .times(b())
        .times(a().times(b()))
        .same(&Operations::Concat(vec![a(), b(), a(), b()])));
    assert!(a().times(b().times(a())).same(&Operations::Concat(vec![a(), b(), a()])));
    let nested = Operations::Union(vec![Operations::Concat(vec![a(), Operations::Empty])]);
    assert!(nested.simplify(&vec!['a']).same(&Operations::Epsilon));
    let none = Operations::Union(vec![Operations::Empty, Operations::Empty]);
    assert!(none.simplify(&vec!['a']).same(&Operations::Empty));
    let back = Operations::Repeat(Box::new(a()), 3, Some(2));
    assert!(back.simplify(&vec!['a']).same(&Operations::Epsilon));
    let one = Operations::Repeat(Box::new(a()), 1, Some(1));
    assert!(one.simplify(&vec!['a']).same(&a()));
    let zero = Operations::Repeat(Box::new(Operations::Empty), 0, None);
    assert!(zero.simplify(&vec!['a']).same(&Operations::Epsilon));
    let never = Operations::Repeat(Box::new(Operations::Empty), 2, None);
    assert!(never.simplify(&vec!['a']).same(&Operations::Empty));
    let dead = Operations::Concat(vec![a(), Operations::Empty, b()]);
    assert!(dead.simplify(&vec!['a']).same(&Operations::Empty));
    assert!(a().copy().same(&a()));
}

#[test]
fn generator_gives_texts_that_parse() {
    let alphabet = vec!['a', 'b'];
    for n in 0..5 {
        assert_eq!(pick(&alphabet, n), ["a", "b", ".", "𝜀", "𝜀"][n]);
    }
    assert_eq!(shape(0, "a", "b", "c"), "(a)");
    assert_eq!(shape(1, "a", "b", "c"), "a*");
    assert_eq!(shape(2, "a", "b", "c"), "a+");
    assert_eq!(shape(3, "a", "b", "c"), "a?");
    assert_eq!(shape(4, "a", "b", "c"), "c");
    assert_eq!(shape(5, "a", "b", "c"), "ab");
    assert_eq!(shape(6, "a", "b", "c"), "a|b");
    let mut g = new_generator(alphabet.clone(), 4);
    for _ in 0..50 {
        let atom = g.letter();
        assert!(["a", "b", ".", "𝜀"].contains(&atom.as_str()));
        let atom = Generator::random(&alphabet);
        assert!(["a", "b", ".", "𝜀"].contains(&atom.as_str()));
        let text = g.run();
        assert!(Regex::parse_with_alphabet(alphabet.clone(), &text).is_ok(), "{}", text);
    }
    let mut flat = new_generator(alphabet.clone(), 9).with_max_depth(0);
    let mut seen = std::collections::HashSet::new();
    for _ in 0..400 {
        let atom = flat.run();
        assert!(["a", "b", ".", "𝜀"].contains(&atom.as_str()));
        seen.insert(atom);
    }
    assert!(seen.len() > 1);
}

#[test]
fn renumbering_helpers() {
    let mut a = vec!['a', 'b'];
    append_hashset(&mut a, vec!['b', 'c', 'a', 'd', 'c']);
    assert_eq!(a, vec!['a', 'b', 'c', 'd']);
    let mut flags = vec![true, false];
    shift_hashset(&mut flags, 2);
    assert_eq!(flags, vec![false, false, true, false]);
    let mut set = vec![true];
    append_shift_hashset(&mut set, vec![false, true], 2);
    assert_eq!(set, vec![true, false, false, true]);
    let mut wide = vec![true, false, false, false, true];
    append_shift_hashset(&mut wide, vec![true], 1);
    assert_eq!(wide, vec![true, true, false, false, true]);
    let mut rows = vec![vec![('a', 0usize), ('b', 1)], vec![]];
    shift_transitions(&mut rows, 3);
    assert_eq!(rows, vec![vec![('a', 3), ('b', 4)], vec![]]);
    let mut first = vec![vec![('a', 0usize)]];
    append_shift_transitions(&mut first, vec![vec![('b', 0usize)]]);
    assert_eq!(first, vec![vec![('a', 0)], vec![('b', 1)]]);
    let mut n = NFA::new_matching(digits(), &['1']);
    shift_fnda(&mut n, 2);
    assert!(n.run(&word("1")) && !n.run(&word("")));
    assert!(!n.is_reachable());
    assert_eq!(
        n.to_dot(),
        "digraph {    node [shape = doublecircle]; S_3;    node [shape = point]; I_2;    \
         node [shape = circle];    S_0;    S_1;    S_2 -> S_3 [label = \"1\"];    S_3;    I_2 -> S_2;}"
    );
}
