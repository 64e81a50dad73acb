use rustomaton::automaton::{Automaton, FromRawError};
use rustomaton::dfa::DFA;
use rustomaton::nfa::NFA;
use rustomaton::regex::Regex;
use rustomaton::span::{counts, Limit};
use rustomaton::traits::{Automata, Buildable, ToDfa, ToNfa, ToRegex};

fn digits() -> Vec<char> {
    (b'0'..=b'9').map(char::from).collect()
}

fn word(s: &str) -> Vec<char> {
    s.chars().collect()
}

fn multiples_of_three() -> NFA<char> {
    let mut rows = Vec::new();
    for i in 0..3usize {
        let mut row = Vec::new();
        for b in 0..2usize {
            row.push(((b as u8 + b'0') as char, vec![(2 * i + b) % 3]));
        }
        rows.push(row);
    }
    NFA::from_raw(digits(), vec![0], vec![0], rows).unwrap()
}

#[test]
fn scenario_empty_and_full() {
    let empty = NFA::new_empty(digits());
    assert!(!empty.run(&word("")));
    let full = NFA::new_full(digits());
    assert!(full.run(&word("")));
    assert!(full.run(&word("7")));
    assert!(!full.run(&word("a")));
}

#[test]
fn scenario_multiples_of_three() {
    let a = multiples_of_three();
    assert!(a.run(&word("")));
    assert!(a.run(&word("11")));
    assert!(!a.run(&word("10")));
    assert!(a.run(&word("110")));
    assert!(a.run(&word("1001")));
}

#[test]
fn scenario_parsed_expression() {
    let a = Regex::parse_with_alphabet(digits(), "(018)*4(5+|6|7*)?3+.29?")
        .unwrap()
        .to_nfa();
    assert!(a.run(&word("4312")));
    assert!(a.run(&word("43129")));
    assert!(!a.run(&word("0184430")));
}

#[test]
fn boundary_is_empty() {
    // a final state that no walk reaches
    let a = NFA::from_raw(
        vec!['a'],
        vec![0],
        vec![2],
        vec![vec![('a', vec![1])], vec![('a', vec![0])], vec![('a', vec![2])]],
    )
    .unwrap();
    assert!(a.is_empty());
    let b = NFA::from_raw(
        vec!['a'],
        vec![0],
        vec![1],
        vec![vec![('a', vec![1])], vec![]],
    )
    .unwrap();
    assert!(!b.is_empty());
    assert!(NFA::new_empty(vec!['a']).is_empty());
    assert!(!NFA::new_empty_word(vec!['a']).is_empty());
}

#[test]
fn boundary_is_full() {
    // every reached state is final, but the automaton is not complete
    let a = NFA::from_raw(vec!['a', 'b'], vec![0], vec![0], vec![vec![('a', vec![0])]]).unwrap();
    assert!(a.is_full());
    assert!(!a.is_complete());
    // completed, the sink is reached and is not final
    assert!(!a.complete().is_full());
    let full = NFA::new_full(vec!['a', 'b']);
    assert!(full.is_complete() && full.is_full());
    // an initial state that is not final
    let c = NFA::from_raw(vec!['a'], vec![0, 1], vec![0], vec![vec![], vec![]]).unwrap();
    assert!(!c.is_full());
    assert!(!NFA::new_empty(vec!['a']).is_full());
}

#[test]
fn boundary_length_and_matching() {
    let zero = NFA::new_length(digits(), 0);
    assert!(zero.run(&word("")));
    assert!(!zero.run(&word("0")));
    let two = NFA::new_length(digits(), 2);
    assert!(two.run(&word("42")));
    assert!(!two.run(&word("4")));
    assert!(!two.run(&word("421")));
    assert!(!two.run(&word("4a")));
    let m = NFA::new_matching(digits(), &word("123"));
    assert!(m.run(&word("123")));
    for other in ["", "1", "12", "1234", "124", "023", "321"] {
        assert!(!m.run(&word(other)));
    }
    let e = NFA::new_empty_word(digits());
    assert!(e.run(&word("")));
    assert!(!e.run(&word("1")));
}

#[test]
fn from_raw_reports_the_first_fault() {
    let ok = vec![vec![('a', vec![0])]];
    assert_eq!(
        NFA::from_raw(vec!['a'], vec![0, 3, 5], vec![9], ok.clone()).err(),
        Some(FromRawError::InvalidInitial(3))
    );
    assert_eq!(
        NFA::from_raw(vec!['a'], vec![0], vec![0, 9, 4], ok.clone()).err(),
        Some(FromRawError::InvalidFinal(9))
    );
    assert_eq!(
        NFA::from_raw(
            vec!['a'],
            vec![0],
            vec![0],
            vec![vec![('a', vec![7]), ('b', vec![0]), ('c', vec![0])]]
        )
        .err(),
        Some(FromRawError::UnknownLetter('b'))
    );
    assert_eq!(
        NFA::from_raw(
            vec!['a', 'b'],
            vec![0],
            vec![0],
            vec![vec![('a', vec![0])], vec![('a', vec![1]), ('b', vec![0, 2, 3])]]
        )
        .err(),
        Some(FromRawError::InvalidTransition(1, 'b', 2))
    );
    assert!(NFA::from_raw(vec!['a'], vec![], vec![], vec![]).is_ok());
}

#[test]
fn dfa_from_raw_reports_the_first_fault() {
    let ok = vec![vec![('a', 0)]];
    assert_eq!(
        DFA::from_raw(vec!['a'], 1, vec![5], ok.clone()).err(),
        Some(FromRawError::InvalidInitial(1))
    );
    assert_eq!(
        DFA::from_raw(vec!['a'], 0, vec![0, 5], ok.clone()).err(),
        Some(FromRawError::InvalidFinal(5))
    );
    assert_eq!(
        DFA::from_raw(vec!['a'], 0, vec![0], vec![vec![('a', 4), ('z', 0)]]).err(),
        Some(FromRawError::UnknownLetter('z'))
    );
    assert_eq!(
        DFA::from_raw(vec!['a', 'b'], 0, vec![0], vec![vec![('a', 0), ('b', 4)]]).err(),
        Some(FromRawError::InvalidTransition(0, 'b', 4))
    );
    // of two entries with one symbol the first counts
    let d = DFA::from_raw(
        vec!['a'],
        0,
        vec![1],
        vec![vec![('a', 1), ('a', 0)], vec![]],
    )
    .unwrap();
    assert!(d.run(&word("a")));
    assert!(!d.run(&word("aa")));
    assert!(!d.run(&word("")));
}

#[test]
fn dfa_operations() {
    let even = DFA::from_raw(
        vec!['a'],
        0,
        vec![0],
        vec![vec![('a', 1)], vec![('a', 0)]],
    )
    .unwrap();
    let three = DFA::from_raw(
        vec!['a'],
        0,
        vec![0],
        vec![vec![('a', 1)], vec![('a', 2)], vec![('a', 0)]],
    )
    .unwrap();
    assert!(even.is_complete() && even.is_reachable() && even.is_coreachable());
    assert!(even.is_trimmed() && !even.is_empty() && !even.is_full());
    let six = even.clone().intersect(three.clone());
    let either = even.clone().unite(three.clone());
    let odd = even.clone().negate();
    for n in 0..14usize {
        let w: Vec<char> = std::iter::repeat('a').take(n).collect();
        assert_eq!(even.run(&w), n % 2 == 0);
        assert_eq!(six.run(&w), n % 6 == 0);
        assert_eq!(either.run(&w), n % 2 == 0 || n % 3 == 0);
        assert_eq!(odd.run(&w), n % 2 == 1);
    }
    assert!(even.contains(&six));
    assert!(!six.contains(&even));
    assert!(six.lt(&even));
    assert!(even.eq(&even.clone().reverse()));
    assert!(even.eq(&even.clone().trim()));
    assert!(even.eq(&even.clone().make_reachable()));
    assert!(even.eq(&even.clone().make_coreachable()));
    assert!(even.eq(&even.to_regex().to_dfa()));
    let partial = DFA::from_raw(vec!['a', 'b'], 0, vec![0], vec![vec![('a', 0)]]).unwrap();
    assert!(!partial.is_complete());
    let whole = partial.clone().complete();
    assert!(whole.is_complete());
    assert!(whole.run(&word("aa")) && !whole.run(&word("ab")));
    let star = three.clone().kleene();
    assert!(star.run(&word("")) && star.run(&word("aaaaaa")) && !star.run(&word("a")));
    let twice = even.clone().concatenate(three.clone());
    assert!(twice.run(&word("aaaaa")));
    assert!(DFA::new_empty(&vec!['a']).is_empty());
    let few = three.clone().at_most(1);
    assert!(few.run(&word("")) && few.run(&word("aaa")));
    let many = DFA::from_str("ab").unwrap().at_least(2);
    assert!(!many.run(&word("ab")) && many.run(&word("abab")) && many.run(&word("ababab")));
    let some = DFA::from_str("ab").unwrap().repeat(1, Some(2));
    assert!(some.run(&word("ab")) && some.run(&word("abab")) && !some.run(&word("ababab")));
}

#[test]
fn repetitions() {
    let ab = NFA::from_str("ab").unwrap();
    let count = |n: usize| -> Vec<char> { "ab".repeat(n).chars().collect() };
    let most = ab.clone().at_most(2);
    let least = ab.clone().at_least(2);
    let range = ab.clone().repeat(1, Some(3));
    let none = ab.clone().repeat(3, Some(1));
    let open = ab.clone().repeat(2, None);
    let exact = ab.clone().repeat(2, Some(2));
    for n in 0..6 {
        let w = count(n);
        assert_eq!(most.run(&w), n <= 2);
        assert_eq!(least.run(&w), n >= 2);
        assert_eq!(range.run(&w), 1 <= n && n <= 3);
        assert!(!none.run(&w));
        assert_eq!(open.run(&w), n >= 2);
        assert_eq!(exact.run(&w), n == 2);
    }
    assert!(!most.run(&word("a")) && !least.run(&word("aba")));
    assert!(none.is_empty());
    let star = ab.clone().kleene();
    assert!(star.run(&word("")) && star.run(&count(4)) && !star.run(&word("ba")));
    assert!(ab.clone().at_most(0).run(&word("")));
    assert!(!ab.clone().at_most(0).run(&count(1)));
}

#[test]
fn determinisation_by_every_encoding() {
    // chains of 10, 40, 70 and 140 states: masks of 32, 64 and 128 bits, and lists
    for len in [9usize, 39, 69, 139] {
        let a = NFA::new_length(vec!['a', 'b'], len).unite(NFA::new_matching(vec!['a', 'b'], &['a']));
        let d = a.to_dfa();
        let long: Vec<char> = std::iter::repeat('b').take(len).collect();
        let short: Vec<char> = std::iter::repeat('b').take(len - 1).collect();
        assert!(d.run(&long) && a.run(&long));
        assert!(!d.run(&short) && !a.run(&short));
        assert!(d.run(&word("a")));
        assert!(!d.run(&word("")));
        assert!(d.is_reachable());
    }
    let small = NFA::new_length(vec!['a'], 3);
    let by_mask = small.small_to_dfa::<u128>();
    let by_list = small.big_to_dfa();
    assert_eq!(by_mask.to_dot(), by_list.to_dot());
    assert_eq!(by_mask.to_dot(), small.small_to_dfa::<u32>().to_dot());
    assert_eq!(by_mask.to_dot(), small.small_to_dfa::<u64>().to_dot());
    // the automaton of the empty language becomes the one-state automaton
    let none = NFA::new_empty(vec!['a']).to_dfa();
    assert_eq!(
        none.to_dot(),
        "digraph {    node [shape = point]; I_0;    node [shape = circle];    S_0;    I_0 -> S_0;}"
    );
}

#[test]
fn subset_states_are_numbered_from_the_initial_set() {
    // a|ab over {a, b}: the initial subset is 0, then the subsets in the order found
    let a = NFA::from_raw(
        vec!['a', 'b'],
        vec![0],
        vec![1, 3],
        vec![vec![('a', vec![1, 2])], vec![], vec![('b', vec![3])], vec![]],
    )
    .unwrap();
    let d = a.to_dfa();
    assert_eq!(
        d.to_dot(),
        "digraph {    node [shape = doublecircle]; S_1 S_2;    node [shape = point]; I_0;    \
         node [shape = circle];    S_0 -> S_1 [label = \"a\"];    S_1 -> S_2 [label = \"b\"];    \
         S_2;    I_0 -> S_0;}"
    );
}

#[test]
fn subset_states_follow_the_order_of_the_symbols() {
    // from the first state, `b` comes before `a` in the alphabet, so the set
    // reached on `b` is numbered first
    let a = NFA::from_raw(
        vec!['b', 'a'],
        vec![0],
        vec![2],
        vec![vec![('a', vec![1]), ('b', vec![2])], vec![('a', vec![2])], vec![('b', vec![1])]],
    )
    .unwrap();
    let d = a.to_dfa();
    assert_eq!(d.size(), 3);
    assert_eq!(d.initial(), 0);
    assert_eq!(d.successor(0, 'b'), Some(1));
    assert_eq!(d.successor(0, 'a'), Some(2));
    assert_eq!(d.successor(1, 'b'), Some(2));
    assert_eq!(d.successor(1, 'a'), None);
    assert_eq!(d.successor(2, 'a'), Some(1));
    assert_eq!(d.finals(), vec![1]);
}

#[test]
fn dot_description() {
    let a = NFA::from_raw(
        vec!['a', 'b'],
        vec![0, 1],
        vec![1],
        vec![
            vec![('a', vec![1]), ('b', vec![1, 0])],
            vec![],
        ],
    )
    .unwrap();
    assert_eq!(
        a.to_dot(),
        "digraph {    node [shape = doublecircle]; S_1;    node [shape = point]; I_0 I_1;    \
         node [shape = circle];    S_0 -> S_0 [label = \"b\"];    S_0 -> S_1 [label = \"a, b\"];    \
         S_1;    I_0 -> S_0;    I_1 -> S_1;}"
    );
    assert_eq!(
        NFA::<char>::new_empty(vec![]).to_dot(),
        "digraph {    node [shape = circle];}"
    );
    let n = NFA::from_raw(vec![12u32, 7], vec![0], vec![0], vec![vec![(12, vec![0]), (7, vec![0])]])
        .unwrap();
    assert_eq!(
        n.to_dot(),
        "digraph {    node [shape = doublecircle]; S_0;    node [shape = point]; I_0;    \
         node [shape = circle];    S_0 -> S_0 [label = \"12, 7\"];    I_0 -> S_0;}"
    );
}

#[test]
fn automaton_sum_type() {
    let n = Automaton::NFA(NFA::from_str("a*b").unwrap());
    let d = Automaton::DFA(DFA::from_str("a*b|b").unwrap());
    let r = Automaton::REG(Regex::from_str("aab").unwrap());
    let other = Automaton::REG(Regex::parse_with_alphabet(vec!['a', 'b'], "ab*").unwrap());
    assert!(n.eq(&d) && d.eq(&n));
    assert!(n.contains(&r) && !r.contains(&n));
    assert!(r.lt(&n) && n.gt(&r) && r.le(&n) && n.ge(&r));
    assert_eq!(n.partial_cmp(&d), Some(std::cmp::Ordering::Equal));
    assert_eq!(r.partial_cmp(&d), Some(std::cmp::Ordering::Less));
    assert_eq!(d.partial_cmp(&r), Some(std::cmp::Ordering::Greater));
    assert_eq!(n.partial_cmp(&other), None);
    assert!(r.to_nfa().run(&word("aab")));
}

#[test]
fn traits_agree_with_the_methods() {
    fn star_of<T: Buildable<char>>(x: T) -> T {
        x.kleene()
    }
    fn accepts<T: Automata<char>>(x: &T, w: &str) -> bool {
        let w: Vec<char> = w.chars().collect();
        x.run(&w)
    }
    fn round<T: ToNfa<char> + ToDfa<char> + ToRegex<char>>(x: &T, w: &str) -> bool {
        let w: Vec<char> = w.chars().collect();
        let a = ToNfa::to_nfa(x).run(&w);
        assert_eq!(a, ToDfa::to_dfa(x).run(&w));
        assert_eq!(a, ToRegex::to_regex(x).to_nfa().run(&w));
        a
    }
    let n = NFA::from_str("ab").unwrap();
    let d = DFA::from_str("ab").unwrap();
    let r = Regex::from_str("ab").unwrap();
    assert!(accepts(&star_of(n.clone()), "abab"));
    assert!(accepts(&star_of(d.clone()), "abab"));
    assert!(!accepts(&star_of(d.clone()), "aba"));
    assert!(round(&star_of(r), "abab"));
    assert!(round(&n, "ab") && !round(&n, "a"));
    assert!(round(&d, "ab") && !round(&d, "b"));
    assert!(Automata::is_empty(&Automata::negate(NFA::new_full(vec!['a']))));
    assert!(Automata::is_complete(&Automata::complete(d)));
    let u = Buildable::unite(n.clone(), NFA::from_str("ba").unwrap());
    assert!(accepts(&u, "ba") && accepts(&u, "ab") && !accepts(&u, "aa"));
    let c = Buildable::concatenate(n.clone(), n.clone());
    assert!(accepts(&c, "abab") && !accepts(&c, "ab"));
    assert!(accepts(&Buildable::at_most(n.clone(), 1), ""));
    assert!(accepts(&Buildable::at_least(n.clone(), 1), "abab"));
    assert!(!accepts(&Buildable::repeat(n.clone(), 2, Some(2)), "ab"));
    assert!(accepts(&Automata::reverse(n.clone()), "ba"));
    assert!(Automata::is_trimmed(&Automata::trim(n.clone())));
    assert!(Automata::is_reachable(&Automata::make_reachable(n.clone())));
    assert!(Automata::is_coreachable(&Automata::make_coreachable(n.clone())));
    assert!(!Automata::is_full(&n));
}

#[test]
fn counts_of_ranges() {
    assert_eq!(counts(Limit::Included(2), Limit::Excluded(5)), Some((2, Some(4))));
    assert_eq!(counts(Limit::Included(2), Limit::Included(5)), Some((2, Some(5))));
    assert_eq!(counts(Limit::Excluded(1), Limit::Unbounded), Some((2, None)));
    assert_eq!(counts(Limit::Unbounded, Limit::Included(0)), Some((0, Some(0))));
    assert_eq!(counts(Limit::Unbounded, Limit::Excluded(0)), None);
    assert_eq!(counts(Limit::Included(3), Limit::Included(2)), None);
    assert_eq!(counts(Limit::Included(3), Limit::Excluded(3)), None);
    assert_eq!(counts(Limit::Included(3), Limit::Excluded(4)), Some((3, Some(3))));
}

#[test]
fn repetitions_within_a_range() {
    let ab = NFA::from_str("ab").unwrap();
    let count = |n: usize| -> Vec<char> { "ab".repeat(n).chars().collect() };
    let some = ab.clone().repeat_within(Limit::Excluded(1), Limit::Excluded(4));
    assert!(!some.run(&count(0)));
    assert!(!some.run(&count(1)));
    assert!(some.run(&count(2)));
    assert!(some.run(&count(3)));
    assert!(!some.run(&count(4)));
    let none = ab.clone().repeat_within(Limit::Unbounded, Limit::Excluded(0));
    assert_eq!(none.size(), 0);
    assert!(!none.run(&count(0)));
    let open = DFA::from_str("ab").unwrap().repeat_within(Limit::Included(1), Limit::Unbounded);
    assert!(!open.run(&count(0)));
    assert!(open.run(&count(1)));
    assert!(open.run(&count(5)));
    let expr = Regex::from_str("ab").unwrap();
    let twice = expr.repeat_within(Limit::Included(2), Limit::Included(2));
    assert_eq!(twice.to_string(), "(ab){2}");
    let never = Regex::from_str("ab").unwrap().repeat_within(Limit::Included(2), Limit::Excluded(2));
    assert_eq!(never.to_string(), "\u{2205}");
}

#[test]
fn trait_transformations_leave_states_out() {
    // state 2 is not reached, and state 3 leads to no final state
    let a = NFA::from_raw(
        vec!['a', 'b'],
        vec![0],
        vec![1],
        vec![vec![('a', vec![1]), ('b', vec![3])], vec![], vec![('a', vec![1])], vec![]],
    )
    .unwrap();
    let reached = Automata::make_reachable(a.clone());
    assert_eq!(reached.size(), 3);
    assert_eq!(reached.finals(), vec![1]);
    assert_eq!(reached.successors(0, 'b'), vec![2]);
    let leading = Automata::make_coreachable(a.clone());
    assert_eq!(leading.size(), 3);
    assert_eq!(leading.initials(), vec![0]);
    assert_eq!(leading.successors(2, 'a'), vec![1]);
    assert_eq!(leading.successors(0, 'b'), Vec::<usize>::new());
    let trimmed = Automata::trim(a.clone());
    assert_eq!(trimmed.size(), 2);
    assert_eq!(trimmed.successors(0, 'a'), vec![1]);
    let d = DFA::from_raw(
        vec!['a', 'b'],
        0,
        vec![1],
        vec![vec![('a', 1), ('b', 3)], vec![], vec![('a', 1)], vec![]],
    )
    .unwrap();
    let reached = Automata::make_reachable(d.clone());
    assert_eq!(reached.size(), 3);
    assert_eq!(reached.successor(0, 'a'), Some(1));
    assert_eq!(reached.successor(0, 'b'), Some(2));
    let leading = Automata::make_coreachable(d.clone());
    assert_eq!(leading.size(), 2);
    assert_eq!(leading.successor(0, 'b'), None);
    let trimmed = Automata::trim(d);
    assert_eq!(trimmed.size(), 2);
    assert_eq!(trimmed.finals(), vec![1]);
}
