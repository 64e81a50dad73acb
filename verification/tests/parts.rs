use rustomaton::dfa::DFA;
use rustomaton::nfa::NFA;
use rustomaton::regex::Regex;

#[test]
fn parts_of_an_automaton() {
    let a = NFA::from_raw(
        vec!['a', 'b', 'a'],
        vec![2, 0],
        vec![1, 1],
        vec![
            vec![('a', vec![1, 2]), ('b', vec![0])],
            vec![],
            vec![('a', vec![2])],
        ],
    )
    .unwrap();
    assert_eq!(a.size(), 3);
    assert_eq!(a.alphabet(), vec!['a', 'b']);
    assert_eq!(a.initials(), vec![0, 2]);
    assert_eq!(a.finals(), vec![1]);
    assert_eq!(a.successors(0, 'a'), vec![1, 2]);
    assert_eq!(a.successors(0, 'b'), vec![0]);
    assert_eq!(a.successors(1, 'a'), Vec::<usize>::new());
    assert_eq!(a.successors(7, 'a'), Vec::<usize>::new());
    let r = a.clone().reverse();
    assert_eq!(r.initials(), vec![1]);
    assert_eq!(r.finals(), vec![0, 2]);
    assert_eq!(r.successors(2, 'a'), vec![0, 2]);
    assert_eq!(r.successors(1, 'a'), vec![0]);
    let c = a.clone().complete();
    assert_eq!(c.size(), 4);
    assert_eq!(c.successors(1, 'a'), vec![3]);
    assert_eq!(c.successors(3, 'b'), vec![3]);
    assert_eq!(c.successors(0, 'a'), vec![1, 2]);
    let k = a.clone().kleene();
    assert_eq!(k.size(), 4);
    assert_eq!(k.initials(), vec![3]);
    assert_eq!(k.finals(), vec![1, 3]);
    let u = a.clone().unite(a.clone());
    assert_eq!(u.size(), 6);
    assert_eq!(u.initials(), vec![0, 2, 3, 5]);
    assert_eq!(u.successors(3, 'a'), vec![4, 5]);
    let t = a.clone().make_reachable();
    assert_eq!(t.size(), 3);
    let lone = NFA::from_raw(vec!['a'], vec![1], vec![1], vec![vec![], vec![('a', vec![1])]])
        .unwrap()
        .make_reachable();
    assert_eq!(lone.size(), 1);
    assert_eq!(lone.initials(), vec![0]);
    assert_eq!(lone.successors(0, 'a'), vec![0]);
    let cat = NFA::new_matching(vec!['a', 'b'], &['a']).concatenate(NFA::new_matching(
        vec!['a', 'b'],
        &['b'],
    ));
    assert_eq!(cat.size(), 4);
    assert_eq!(cat.initials(), vec![0]);
    assert_eq!(cat.finals(), vec![3]);
    assert_eq!(cat.successors(1, 'b'), vec![3]);
}

#[test]
fn parts_of_a_deterministic_automaton() {
    let d = NFA::from_str("(a|b)*abb").unwrap().to_dfa();
    assert_eq!(d.initial(), 0);
    assert_eq!(d.alphabet(), vec!['a', 'b']);
    let m = d.clone().minimize();
    assert_eq!(m.size(), 4);
    assert_eq!(m.finals().len(), 1);
    assert!(m.is_reachable());
    let mut q = m.initial();
    for c in "babb".chars() {
        q = m.successor(q, c).unwrap();
    }
    assert_eq!(m.finals(), vec![q]);
    assert_eq!(m.clone().minimize().size(), 4);
    let even = DFA::from_raw(
        vec!['a'],
        0,
        vec![0, 2],
        vec![vec![('a', 1)], vec![('a', 2)], vec![('a', 3)], vec![('a', 0)]],
    )
    .unwrap();
    assert_eq!(even.clone().minimize().size(), 2);
    assert_eq!(even.successor(3, 'a'), Some(0));
    assert_eq!(even.successor(3, 'b'), None);
    assert_eq!(even.successor(9, 'a'), None);
    assert_eq!(DFA::new_empty(&vec!['a']).minimize().size(), 1);
    let all = NFA::new_full(vec!['a', 'b']).to_dfa().minimize();
    assert_eq!(all.size(), 1);
    let r = Regex::parse_with_alphabet(vec!['b', 'a', 'b'], "ab").unwrap();
    assert_eq!(r.alphabet(), vec!['b', 'a']);
}
