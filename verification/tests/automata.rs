use gerber::corrida::Corrida;
use gerber::dfa::State as DfaState;
use gerber::dfa::{follow, CompleteState, Dfa, Indexable, PartialState};
use gerber::nfa::{Nfa, State};
use std::time::Instant;

fn new_state(arena: &mut Corrida<State>, is_accept: bool, transitions: &[(Option<char>, Option<usize>)]) -> usize {
    let handle = arena.allocate(State::new(is_accept));
    for &(symbol, target) in transitions {
        arena.get_mut(handle).push_transition(symbol, target);
    }
    handle
}

fn new_partial(arena: &mut Corrida<PartialState>, is_accept: bool, transitions: &[(char, Option<usize>)]) -> usize {
    let handle = arena.allocate(PartialState::new());
    arena.get_mut(handle).set_accept(is_accept);
    for &transition in transitions {
        arena.get_mut(handle).add_transition(transition);
    }
    handle
}

#[test]
fn test_homo() {
    let mut arena = Corrida::new(None);

    let start_node = {
        let s_0 = new_state(&mut arena, false, &[]);

        let s_1 = new_state(&mut arena, true, &[(Some('1'), None)]);
        let s_2 = new_state(&mut arena, false, &[(Some('1'), None)]);
        arena.get_mut(s_2).push_transition(Some('0'), Some(s_1));
        arena.get_mut(s_1).push_transition(Some('0'), Some(s_2));
        arena.get_mut(s_0).push_transition(None, Some(s_1));

        let s_3 = new_state(&mut arena, true, &[(Some('0'), None)]);
        let s_4 = new_state(&mut arena, false, &[(Some('0'), None)]);
        arena.get_mut(s_4).push_transition(Some('1'), Some(s_3));
        arena.get_mut(s_3).push_transition(Some('1'), Some(s_4));
        arena.get_mut(s_0).push_transition(None, Some(s_3));

        s_0
    };

    let nfa = Nfa::new(&arena, start_node);
    assert!(nfa.simulate_slice_friendly(&[]));
    assert!(nfa.simulate_slice_friendly(&['0', '0']));
    assert!(!nfa.simulate_slice_friendly(&['0', '1']));
    assert!(nfa.simulate_slice_friendly(&['1', '1']));
    assert!(nfa.simulate_slice_friendly(&['0', '0', '0', '1', '0', '1', '0']));
    assert!(!nfa.simulate_slice_friendly(&['0', '0', '0', '1', '1', '1', '0', '0']));
}

#[test]
fn test_big() {
    let mut arena = Corrida::new(None);
    let mut dfa_arena: Corrida<PartialState> = Corrida::new(None);
    let zero = char::from(0u8);
    let one = char::from(1u8);

    let start_node = {
        let s_0 = new_state(&mut arena, false, &[(Some(one), None), (Some(zero), None)]);
        let s_1 = new_state(&mut arena, false, &[]);
        arena.get_mut(s_0).push_transition(Some(one), Some(s_1));
        let s_2 = new_state(&mut arena, false, &[]);
        arena.get_mut(s_1).push_transition(Some(zero), Some(s_2));
        arena.get_mut(s_1).push_transition(Some(one), Some(s_2));
        let s_3 = new_state(&mut arena, false, &[]);
        arena.get_mut(s_2).push_transition(Some(zero), Some(s_3));
        arena.get_mut(s_2).push_transition(Some(one), Some(s_3));
        let s_4 = new_state(&mut arena, true, &[]);
        arena.get_mut(s_3).push_transition(Some(zero), Some(s_4));
        arena.get_mut(s_3).push_transition(Some(one), Some(s_4));

        s_0
    };

    let nfa = Nfa::new(&arena, start_node);
    let mut test = vec![one; 1_000_000];
    test.extend([zero, zero, zero]);

    let start = Instant::now();
    assert!(nfa.simulate_slice_friendly(&test));
    test.push(one);
    assert!(!nfa.simulate_slice_friendly(&test));
    let a = start.elapsed();

    test.pop();

    let start = Instant::now();
    assert!(nfa.simulate_slice(&test));
    test.push(one);
    assert!(!nfa.simulate_slice(&test));
    let b = start.elapsed();

    test.pop();

    let start = Instant::now();
    let dfa = nfa.as_dfa(&mut dfa_arena);
    assert!(dfa.simulate_slice(&test));
    test.push(one);
    assert!(!dfa.simulate_slice(&test));
    let c = start.elapsed();

    println!("Big Test -- Friendly NFA: {:?} NFA: {:?} DFA: {:?}", a, b, c);
}

#[test]
fn test_loop() {
    let mut arena = Corrida::new(None);
    let mut dfa_arena: Corrida<PartialState> = Corrida::new(None);
    let zero = char::from(0u8);
    let one = char::from(1u8);

    let start_node = {
        let s_0 = new_state(&mut arena, false, &[(Some(one), None), (Some(zero), None)]);
        let mut cur = new_state(&mut arena, false, &[]);
        arena.get_mut(s_0).push_transition(None, Some(cur));

        for _ in (0..100).rev() {
            let new = new_state(&mut arena, false, &[]);
            arena.get_mut(cur).push_transition(None, Some(new));
            cur = new;
        }
        arena.get_mut(cur).set_accept(true);
        arena.get_mut(cur).push_transition(None, Some(s_0));

        s_0
    };

    let nfa = Nfa::new(&arena, start_node);
    let test = vec![one; 100_000];
    let start = Instant::now();
    assert!(nfa.simulate_slice(&test));
    let a = start.elapsed();

    let dfa = nfa.as_dfa(&mut dfa_arena);
    let start = Instant::now();
    assert!(dfa.simulate_slice(&test));
    let b = start.elapsed();

    println!("Loop -- NFA: {:?} DFA: {:?}", a, b);
}

fn step(arena: &Corrida<PartialState>, from: usize, symbol: char) -> usize {
    match arena.get(from).get_transition(symbol).unwrap() {
        Some(target) => target,
        None => from,
    }
}

fn three_states(arena: &mut Corrida<PartialState>) -> usize {
    let s_0 = new_partial(arena, true, &[]);
    let s_1 = new_partial(arena, false, &[]);
    arena.get_mut(s_0).add_transition(('0', None));
    arena.get_mut(s_0).add_transition(('1', Some(s_1)));
    let s_2 = new_partial(arena, false, &[('0', Some(s_1)), ('1', None)]);
    arena.get_mut(s_1).add_transition(('1', Some(s_0)));
    arena.get_mut(s_1).add_transition(('0', Some(s_2)));
    s_0
}

#[test]
fn dfa_test_basics() {
    let mut arena = Corrida::new(None);
    let start_node = {
        let s_0 = three_states(&mut arena);

        let cur = step(&arena, s_0, '1');
        let cur = step(&arena, cur, '0');
        let cur = step(&arena, cur, '0');
        let cur = step(&arena, cur, '1');

        assert_eq!(cur, s_0);
        s_0
    };

    let dfa = Dfa::<PartialState>::new(&arena, start_node);
    assert!(dfa.simulate_slice(&"1001".chars().collect::<Vec<char>>()));
    assert!(!dfa.simulate_slice(&"1000".chars().collect::<Vec<char>>()));
}

#[test]
fn test_big_string() {
    let mut arena = Corrida::new(None);
    let start_node = three_states(&mut arena);

    let dfa = Dfa::<PartialState>::new(&arena, start_node);

    let mut test_vec = Vec::new();

    for _ in 0..10_000_000 {
        test_vec.push('1');
        test_vec.push('0');
        test_vec.push('0');
        test_vec.push('1');
    }
    let start = std::time::Instant::now();
    assert!(dfa.simulate_slice(&test_vec));

    println!("Partial: {:?}", start.elapsed());
}

#[derive(Copy, Clone, Eq, PartialEq, Hash)]
struct Binary {
    index: usize,
}

impl Indexable for Binary {
    fn ordinal(&self) -> usize {
        self.index
    }

    fn cardinality() -> usize {
        2
    }

    fn get_index(&self) -> usize {
        self.index
    }

    fn count() -> usize {
        2
    }
}

#[test]
fn test_big_string_complete() {
    let mut arena = Corrida::new(None);
    const ONE: Binary = Binary { index: 1 };
    const ZERO: Binary = Binary { index: 0 };

    let start_node = {
        let s_0 = arena.allocate(CompleteState::<Binary>::new());
        arena.get_mut(s_0).set_accept(true);
        let s_1 = arena.allocate(CompleteState::<Binary>::new());
        arena.get_mut(s_0).add_transition((ZERO, None));
        arena.get_mut(s_0).add_transition((ONE, Some(s_1)));
        let s_2 = arena.allocate(CompleteState::<Binary>::new());
        arena.get_mut(s_2).add_transition((ZERO, Some(s_1)));
        arena.get_mut(s_2).add_transition((ONE, None));
        arena.get_mut(s_1).add_transition((ONE, Some(s_0)));
        arena.get_mut(s_1).add_transition((ZERO, Some(s_2)));

        s_0
    };

    let dfa = Dfa::<CompleteState<Binary>>::new(&arena, start_node);

    let mut test_vec = Vec::new();

    for _ in 0..10_000_000 {
        test_vec.push(ONE);
        test_vec.push(ZERO);
        test_vec.push(ZERO);
        test_vec.push(ONE);
    }
    let start = std::time::Instant::now();

    assert!(dfa.simulate_slice(&test_vec));

    println!("Compelte: {:?}", start.elapsed());
}

#[test]
fn test_dfa_repeated_transitions() {
    let mut arena = Corrida::new(None);

    let start_node = {
        let s_0 = arena.allocate(PartialState::new());
        arena.get_mut(s_0).set_accept(true);
        let s_1 = arena.allocate(PartialState::new());
        arena.get_mut(s_0).add_transition(('0', None));
        arena.get_mut(s_0).add_transition(('1', Some(s_1)));
        let s_2 = arena.allocate(PartialState::new());
        arena.get_mut(s_2).add_transition(('0', Some(s_1)));
        arena.get_mut(s_2).add_transition(('1', None));
        arena.get_mut(s_1).add_transition(('1', Some(s_0)));
        arena.get_mut(s_1).add_transition(('0', Some(s_2)));

        s_0
    };

    let dfa = Dfa::<PartialState>::new(&arena, start_node);

    assert!(dfa.simulate_slice(&['1', '0', '0', '1']));
    assert!(dfa.simulate_iter("1001".chars()));
}

#[test]
fn sparse_run_rejects_on_a_missing_transition() {
    let mut arena = Corrida::new(None);
    let s_0 = new_partial(&mut arena, true, &[('a', None)]);
    let dangling = new_partial(&mut arena, true, &[('a', Some(7))]);
    let dfa = Dfa::<PartialState>::new(&arena, s_0);
    assert!(dfa.simulate_slice(&[]));
    assert!(dfa.simulate_slice(&['a', 'a']));
    assert!(!dfa.simulate_slice(&['a', 'b']));
    assert!(!dfa.simulate_slice(&['b', 'a']));
    assert!(!Dfa::<PartialState>::new(&arena, dangling).simulate_slice(&['a']));
    assert!(!Dfa::<PartialState>::new(&arena, 9).simulate_slice(&[]));
}

#[test]
fn transitions_come_out_in_the_order_they_went_in() {
    let mut arena = Corrida::new(None);
    let s = new_state(&mut arena, false, &[(Some('a'), Some(3)), (None, None), (Some('a'), None), (Some('a'), Some(3))]);
    let mut iter = arena.get(s).get_transitions(Some('a'));
    assert_eq!(iter.next(), Some(Some(3)));
    assert_eq!(iter.next(), Some(None));
    assert_eq!(iter.next(), Some(Some(3)));
    assert_eq!(iter.next(), None);
    assert_eq!(iter.next(), None);
    let mut iter = arena.get(s).get_transitions(None);
    assert_eq!(iter.next(), Some(None));
    assert_eq!(iter.next(), None);
    let mut iter = arena.get(s).get_transitions(Some('b'));
    assert_eq!(iter.next(), None);
    let mut symbols = arena.get(s).symbols();
    symbols.sort();
    symbols.dedup();
    assert_eq!(symbols, vec!['a']);
    assert!(!arena.get(s).is_accept());
}

#[test]
fn run_ignores_targets_that_do_not_exist() {
    let mut arena = Corrida::new(None);
    let s_0 = new_state(&mut arena, false, &[(Some('a'), Some(5)), (None, Some(9)), (Some('a'), Some(1))]);
    let _s_1 = new_state(&mut arena, true, &[]);
    let nfa = Nfa::new(&arena, s_0);
    assert!(nfa.simulate_slice(&['a']));
    assert!(nfa.simulate_slice_friendly(&['a']));
    assert!(!nfa.simulate_slice(&[]));
    assert!(!nfa.simulate_slice(&['a', 'a']));
    let nowhere = Nfa::new(&arena, 17);
    assert!(!nowhere.simulate_slice(&[]));
    assert!(!nowhere.simulate_slice_friendly(&[]));
    let mut dfa_arena: Corrida<PartialState> = Corrida::new(None);
    let dfa = nowhere.as_dfa(&mut dfa_arena);
    assert!(!dfa.simulate_slice(&[]));
    assert!(!dfa.simulate_slice(&['a']));
}

#[test]
fn subset_construction_keeps_the_language() {
    let mut arena = Corrida::new(None);
    let start_node = {
        let s_0 = new_state(&mut arena, false, &[(Some('a'), None), (Some('b'), None)]);
        let s_1 = new_state(&mut arena, false, &[]);
        arena.get_mut(s_0).push_transition(Some('a'), Some(s_1));
        let s_2 = new_state(&mut arena, true, &[(None, Some(s_0))]);
        arena.get_mut(s_1).push_transition(Some('b'), Some(s_2));
        arena.get_mut(s_1).push_transition(Some('a'), Some(s_2));
        s_0
    };
    let nfa = Nfa::new(&arena, start_node);
    let mut dfa_arena: Corrida<PartialState> = Corrida::new(None);
    let dfa = nfa.as_dfa(&mut dfa_arena);
    let letters = ['a', 'b', 'c'];
    let mut inputs: Vec<Vec<char>> = vec![vec![]];
    let mut at = 0;
    while inputs.len() < 400 {
        for letter in letters {
            let mut longer = inputs[at].clone();
            longer.push(letter);
            inputs.push(longer);
        }
        at += 1;
    }
    let mut accepted = 0;
    for input in &inputs {
        let by_nfa = nfa.simulate_slice(input);
        assert_eq!(by_nfa, dfa.simulate_slice(input));
        if by_nfa {
            accepted += 1;
        }
    }
    assert!(accepted > 0);
    assert!(nfa.simulate_slice(&['a', 'b']));
    assert!(nfa.simulate_slice(&['b', 'a', 'a', 'a', 'b']));
    assert!(!nfa.simulate_slice(&['a']));
    let mut any = false;
    for handle in 0..dfa_arena.len() {
        any = any || dfa_arena.get(handle).is_accept();
    }
    assert!(any);
}

#[test]
fn both_kinds_of_state_are_followed_alike() {
    let mut sparse = Corrida::new(None);
    let s_0 = new_partial(&mut sparse, false, &[('a', None), ('b', Some(1)), ('c', Some(4))]);
    let s_1 = new_partial(&mut sparse, true, &[]);
    assert_eq!(follow(&sparse, s_0, 'a'), Some(s_0));
    assert_eq!(follow(&sparse, s_0, 'b'), Some(s_1));
    assert_eq!(follow(&sparse, s_0, 'c'), None);
    assert_eq!(follow(&sparse, s_0, 'd'), None);
    assert_eq!(follow(&sparse, s_1, 'a'), None);
    sparse.get_mut(s_0).add_transition(('b', None));
    assert_eq!(follow(&sparse, s_0, 'b'), Some(s_0));
    assert!(sparse.get(s_1).is_accept());
    assert!(!sparse.get(s_0).is_accept());

    let mut dense = Corrida::new(None);
    let d_0 = dense.allocate(CompleteState::<Binary>::new());
    let d_1 = dense.allocate(CompleteState::<Binary>::new());
    assert_eq!(dense.get(d_0).get_transition(0), None);
    assert_eq!(dense.get(d_0).get_transition(1), None);
    dense.get_mut(d_0).add_transition((Binary { index: 0 }, None));
    dense.get_mut(d_0).add_transition((Binary { index: 1 }, Some(d_1)));
    dense.get_mut(d_1).add_transition((Binary { index: 1 }, Some(9)));
    dense.get_mut(d_1).set_accept(true);
    assert_eq!(dense.get(d_0).get_transition(0), Some(None));
    assert_eq!(dense.get(d_0).get_transition(1), Some(Some(d_1)));
    assert_eq!(follow(&dense, d_0, 0), Some(d_0));
    assert_eq!(follow(&dense, d_0, 1), Some(d_1));
    assert_eq!(follow(&dense, d_1, 0), None);
    assert_eq!(follow(&dense, d_1, 1), None);
    assert!(dense.get(d_1).is_accept());
    assert!(!dense.get(d_0).is_accept());
}

#[test]
fn dense_run_ends_where_the_symbols_lead() {
    let mut arena = Corrida::new(None);
    let one = Binary { index: 1 };
    let zero = Binary { index: 0 };
    let s_0 = arena.allocate(CompleteState::<Binary>::new());
    arena.get_mut(s_0).set_accept(true);
    let s_1 = arena.allocate(CompleteState::<Binary>::new());
    arena.get_mut(s_0).add_transition((zero, None));
    arena.get_mut(s_0).add_transition((one, Some(s_1)));
    arena.get_mut(s_1).add_transition((one, Some(s_0)));
    arena.get_mut(s_1).add_transition((zero, None));
    let dfa = Dfa::<CompleteState<Binary>>::new(&arena, s_0);
    assert!(dfa.simulate_slice(&[]));
    assert!(dfa.simulate_slice(&[zero, zero]));
    assert!(!dfa.simulate_slice(&[one]));
    assert!(!dfa.simulate_slice(&[one, zero, zero]));
    assert!(dfa.simulate_slice(&[one, zero, one]));
    assert!(dfa.simulate_slice(&[one, one, zero]));
}
