use rustomaton::dfa::DFA;
use rustomaton::nfa::NFA;
use rustomaton::regex::Regex;

fn ab() -> Vec<char> {
    vec!['a', 'b']
}

fn word(s: &str) -> Vec<char> {
    s.chars().collect()
}

/// Every word over {a, b} of length at most `n`.
fn words(n: usize) -> Vec<Vec<char>> {
    let mut all = vec![Vec::new()];
    let mut last = vec![Vec::new()];
    for _ in 0..n {
        let mut next = Vec::new();
        for w in &last {
            for c in ab() {
                let mut x: Vec<char> = w.clone();
                x.push(c);
                next.push(x);
            }
        }
        all.extend(next.iter().cloned());
        last = next;
    }
    all
}

fn parse(s: &str) -> NFA<char> {
    Regex::parse_with_alphabet(ab(), s).unwrap().to_nfa()
}

fn samples() -> Vec<NFA<char>> {
    vec![
        NFA::new_empty(ab()),
        NFA::new_empty_word(ab()),
        NFA::new_full(ab()),
        parse("a"),
        parse("ab|b*"),
        parse("(a|b)*abb"),
        parse("a+b?(ab)*"),
        NFA::from_raw(
            ab(),
            vec![0, 2],
            vec![1],
            vec![
                vec![('a', vec![0, 1]), ('b', vec![2])],
                vec![('b', vec![1])],
                vec![('a', vec![1])],
                vec![('a', vec![0])],
            ],
        )
        .unwrap(),
    ]
}

fn same_on_words(a: &NFA<char>, b: &NFA<char>) -> bool {
    words(6).iter().all(|w| a.run(w) == b.run(w))
}

#[test]
fn law_run_agrees_across_representations() {
    for a in samples() {
        let d = a.to_dfa();
        let r = a.to_regex();
        let back = r.to_nfa();
        for w in words(5) {
            assert_eq!(a.run(&w), d.run(&w));
            assert_eq!(a.run(&w), back.run(&w));
        }
    }
}

#[test]
fn law_double_complement() {
    for a in samples() {
        let twice = a.clone().negate().negate();
        assert!(same_on_words(&a, &twice));
        assert!(a.eq(&twice));
        let once = a.clone().negate();
        for w in words(5) {
            assert_eq!(once.run(&w), !a.run(&w));
        }
    }
}

#[test]
fn law_double_reverse() {
    for a in samples() {
        let twice = a.clone().reverse().reverse();
        assert!(same_on_words(&a, &twice));
        let once = a.clone().reverse();
        for w in words(5) {
            let mut back = w.clone();
            back.reverse();
            assert_eq!(once.run(&w), a.run(&back));
        }
    }
}

#[test]
fn law_complete_trim_reachable_twice() {
    for a in samples() {
        let c1 = a.clone().complete();
        let c2 = c1.clone().complete();
        assert!(c1.is_complete());
        assert!(same_on_words(&a, &c1));
        assert!(same_on_words(&c1, &c2));
        assert_eq!(c1.to_dot(), c2.to_dot());
        let t1 = a.clone().trim();
        let t2 = t1.clone().trim();
        assert!(t1.is_trimmed());
        assert!(same_on_words(&a, &t1));
        assert!(same_on_words(&t1, &t2));
        let r1 = a.clone().make_reachable();
        let r2 = r1.clone().make_reachable();
        assert!(r1.is_reachable());
        assert!(same_on_words(&a, &r1));
        assert!(same_on_words(&r1, &r2));
        let k1 = a.clone().make_coreachable();
        assert!(k1.is_coreachable());
        assert!(same_on_words(&a, &k1));
    }
}

#[test]
fn law_union_commutes_and_associates() {
    let s = samples();
    for a in &s {
        for b in &s {
            let ab = a.clone().unite(b.clone());
            let ba = b.clone().unite(a.clone());
            assert!(same_on_words(&ab, &ba));
            for w in words(4) {
                assert_eq!(ab.run(&w), a.run(&w) || b.run(&w));
            }
        }
    }
    let (a, b, c) = (&s[3], &s[4], &s[5]);
    let left = a.clone().unite(b.clone()).unite(c.clone());
    let right = a.clone().unite(b.clone().unite(c.clone()));
    assert!(left.eq(&right));
}

#[test]
fn law_concatenation_associates() {
    let s = samples();
    for a in &s[1..6] {
        for b in &s[1..6] {
            let c = &s[6];
            let left = a.clone().concatenate(b.clone()).concatenate(c.clone());
            let right = a.clone().concatenate(b.clone().concatenate(c.clone()));
            assert!(same_on_words(&left, &right));
        }
    }
    let two = parse("ab").concatenate(parse("b*"));
    for w in words(5) {
        let split = (0..=w.len())
            .any(|k| parse("ab").run(&w[..k].to_vec()) && parse("b*").run(&w[k..].to_vec()));
        assert_eq!(two.run(&w), split);
    }
}

#[test]
fn law_intersect_and_unite_with_itself() {
    for a in samples() {
        assert!(a.eq(&a.clone().intersect(a.clone())));
        assert!(a.eq(&a.clone().unite(a.clone())));
    }
    let s = samples();
    for a in &s {
        for b in &s {
            let both = a.clone().intersect(b.clone());
            for w in words(4) {
                assert_eq!(both.run(&w), a.run(&w) && b.run(&w));
            }
        }
    }
}

#[test]
fn law_containment_is_an_order() {
    let s = samples();
    for a in &s {
        assert!(a.contains(a));
        assert!(a.le(a) && a.ge(a) && !a.lt(a) && !a.gt(a));
        assert_eq!(a.partial_cmp(a), Some(std::cmp::Ordering::Equal));
    }
    for a in &s {
        for b in &s {
            let holds = words(6).iter().all(|w| !b.run(w) || a.run(w));
            if a.contains(b) {
                assert!(holds);
            }
            if a.contains(b) && b.contains(a) {
                assert!(same_on_words(a, b));
                assert!(a.eq(b));
            }
            for c in &s {
                if a.contains(b) && b.contains(c) {
                    assert!(a.contains(c));
                }
            }
        }
    }
    let small = parse("ab");
    let large = parse("a*b*");
    assert!(large.contains(&small));
    assert!(!small.contains(&large));
    assert!(small.lt(&large) && large.gt(&small));
    assert_eq!(small.partial_cmp(&large), Some(std::cmp::Ordering::Less));
    assert_eq!(large.partial_cmp(&small), Some(std::cmp::Ordering::Greater));
    assert_eq!(parse("a").partial_cmp(&parse("b")), None);
}

#[test]
fn law_minimize_keeps_the_language() {
    for a in samples() {
        let d = a.to_dfa();
        let m = d.clone().minimize();
        for w in words(6) {
            assert_eq!(a.run(&w), m.run(&w));
        }
        assert!(a.eq(&m.to_nfa()));
        assert!(d.eq(&m));
    }
    let d = parse("(a|b)*abb").to_dfa().minimize();
    assert_eq!(d.to_nfa().to_dot().matches("S_").count() > 0, true);
    let e = DFA::new_empty(&ab()).minimize();
    assert!(e.is_empty());
}

#[test]
fn law_parse_of_printed_form() {
    for text in ["a", "ab|b*", "(a|b)*abb", "a+b?(ab)*", "(a|𝜀)b", ".a.", "a??", "((a))"] {
        let r = Regex::parse_with_alphabet(ab(), text).unwrap();
        let printed = r.to_string();
        let again = Regex::parse_with_alphabet(ab(), &printed).unwrap();
        let (x, y) = (r.to_nfa(), again.to_nfa());
        assert!(same_on_words(&x, &y), "{} printed as {}", text, printed);
        assert!(r.eq(&again));
    }
}

#[test]
fn law_run_follows_accepting_walks() {
    let a = NFA::from_raw(
        ab(),
        vec![0],
        vec![2],
        vec![
            vec![('a', vec![0, 1])],
            vec![('b', vec![2])],
            vec![],
        ],
    )
    .unwrap();
    // the walks 0 -a-> 0 -a-> 1 -b-> 2 and 0 -a-> 1 -b-> 2
    assert!(a.run(&word("aab")));
    assert!(a.run(&word("ab")));
    // no walk from 0 to 2 reads these
    assert!(!a.run(&word("")));
    assert!(!a.run(&word("a")));
    assert!(!a.run(&word("b")));
    assert!(!a.run(&word("abb")));
    assert!(!a.run(&word("aba")));
}

#[test]
fn law_reduced_elimination_keeps_the_language() {
    for a in samples() {
        let reduced = a.to_regex().simplify();
        assert!(same_on_words(&a, &reduced.to_nfa()));
        let again = Regex::parse_with_alphabet(ab(), "(a|b)*abb|a?").unwrap();
        let sum = a.to_regex().unite(again).simplify();
        let expected = a.clone().unite(parse("(a|b)*abb|a?"));
        assert!(same_on_words(&expected, &sum.to_nfa()));
    }
}

#[test]
fn law_no_automaton_is_smaller_than_the_minimal_one() {
    for a in samples() {
        let d = a.to_dfa();
        let m = d.clone().minimize();
        assert!(m.size() <= d.size());
        assert!(m.size() <= d.clone().complete().size());
        assert!(m.size() <= a.clone().trim().to_dfa().size());
        assert_eq!(m.clone().minimize().size(), m.size());
    }
}

#[test]
fn law_printed_reduced_forms_are_read_back() {
    for a in samples() {
        if a.is_empty() {
            continue;
        }
        let reduced = a.to_regex().simplify();
        let printed = reduced.to_string();
        let again = Regex::parse_with_alphabet(ab(), &printed);
        assert!(again.is_ok(), "{}", printed);
        assert!(same_on_words(&a, &again.unwrap().to_nfa()), "{}", printed);
    }
    for text in ["(a|b)a", "(a|b|𝜀)a", "(a|b|ab)*", "(a|b)?b", "(a|b|𝜀)", "a|b"] {
        let r = Regex::parse_with_alphabet(ab(), text).unwrap();
        let printed = r.to_string();
        let again = Regex::parse_with_alphabet(ab(), &printed).unwrap();
        assert!(same_on_words(&r.to_nfa(), &again.to_nfa()), "{} printed as {}", text, printed);
    }
    let all = Regex::parse_with_alphabet(ab(), "(a|b)a").unwrap();
    assert_eq!(all.to_string(), "(.)a");
    let maybe = Regex::parse_with_alphabet(ab(), "(a|b|𝜀)a").unwrap();
    assert_eq!(maybe.to_string(), "(.?)a");
    let more = Regex::parse_with_alphabet(ab(), "(a|b|ab)a").unwrap();
    assert_eq!(more.to_string(), "(.|ab)a");
}
