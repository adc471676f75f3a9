use gerber::corrida::Corrida;
use gerber::dfa::PartialState;
use gerber::nfa::State;
use gerber::regex::{create_regex_dfa, parse_base, parse_regex, ParseError};
use std::time::Instant;

#[test]
fn lib_test_basics() {
    let mut arena = Corrida::new(None);
    let dfa = create_regex_dfa("(0|(1(01*(00)*0)*1)*)*", &mut arena).unwrap();
    assert!(dfa.simulate_iter("0".chars()));
    assert!(dfa.simulate_iter("11".chars()));
    assert!(dfa.simulate_iter("110".chars()));
    assert!(!dfa.simulate_iter("10".chars()));
    assert!(dfa.simulate_iter("".chars()));
}

#[test]
fn regex_test_basics() {
    let mut arena = Corrida::new(None);
    let nfa = parse_regex("ab*(c|)", &mut arena).unwrap();

    assert_eq!(nfa.simulate_iter("".chars()), false);
    assert_eq!(nfa.simulate_iter("a".chars()), true);
    assert_eq!(nfa.simulate_iter("ab".chars()), true);
    assert_eq!(nfa.simulate_iter("ac".chars()), true);
    assert_eq!(nfa.simulate_iter("abb".chars()), true);
    assert_eq!(nfa.simulate_iter("abbcc".chars()), false);
    assert_eq!(nfa.simulate_iter("abbbac".chars()), false);
    assert_eq!(nfa.simulate_iter("abaa".chars()), false);
    assert_eq!(nfa.simulate_iter("abbbbbbbc".chars()), true);
}

#[test]
fn test_unfriendly() {
    let mut arena = Corrida::new(None);
    let mut dfa_arena: Corrida<PartialState> = Corrida::new(None);
    let nfa = parse_regex("a*b*a*b*a*b*a*b*a*b*(|)?a", &mut arena).unwrap();

    let mut test = vec!['b'; 100_000];
    let start = Instant::now();
    assert_eq!(nfa.simulate_slice(&test), false);
    test.push('a');
    assert_eq!(nfa.simulate_slice(&test), true);
    let a = start.elapsed();

    test.pop();
    let dfa = nfa.as_dfa(&mut dfa_arena);

    let start = Instant::now();
    assert_eq!(dfa.simulate_slice(&test), false);
    test.push('a');
    assert_eq!(dfa.simulate_slice(&test), true);
    let b = start.elapsed();

    println!("Unfriendly -- NFA {:?}, DFA {:?}", a, b);
}

#[test]
fn complicated() {
    let mut arena = Corrida::new(None);
    let mut dfa_arena: Corrida<PartialState> = Corrida::new(None);
    let nfa = parse_regex("(((a|b)+c?(a|b)*)?(c(a|b)+|a?b?c+)((a|b|c)*)(a(a)+)?)+", &mut arena).unwrap();

    let testa = vec!['a'; 100_000];
    let testb = vec!['b'; 100_000];
    let testc = vec!['c'; 100_000];

    let start = Instant::now();
    assert!(!nfa.simulate_slice(&testa));
    assert!(!nfa.simulate_slice(&testb));
    assert!(nfa.simulate_slice(&testc));
    let a = start.elapsed();

    let dfa = nfa.as_dfa(&mut dfa_arena);
    let start = Instant::now();
    assert!(!dfa.simulate_slice(&testa));
    assert!(!dfa.simulate_slice(&testb));
    assert!(dfa.simulate_slice(&testc));
    let b = start.elapsed();

    println!("Complicated -- NFA {:?}, DFA {:?}", a, b);
}

#[test]
fn test_as() {
    let mut arena = Corrida::new(None);
    let mut dfa_arena: Corrida<PartialState> = Corrida::new(None);
    const N: usize = 100;
    let nfa = parse_regex(&("a?".repeat(N) + &"a".repeat(N)), &mut arena).unwrap();

    let test = "a".repeat(N);

    let start = Instant::now();
    assert!(nfa.simulate_iter(test.chars()));
    let a = start.elapsed();

    let dfa = nfa.as_dfa(&mut dfa_arena);
    let start = Instant::now();
    assert!(dfa.simulate_iter(test.chars()));
    let c = start.elapsed();

    println!("a?^na^n -- NFA {:?}, NFA Friendly {:?}, DFA {:?}", a, "N/A", c);
}

fn accepts(pattern: &str, input: &str) -> bool {
    let mut arena = Corrida::new(None);
    let mut dfa_arena: Corrida<PartialState> = Corrida::new(None);
    let nfa = parse_regex(pattern, &mut arena).unwrap();
    let by_nfa = nfa.simulate_iter(input.chars());
    let dfa = nfa.as_dfa(&mut dfa_arena);
    let by_dfa = dfa.simulate_iter(input.chars());
    assert_eq!(by_nfa, by_dfa);
    by_nfa
}

fn refusal(pattern: &str) -> ParseError {
    let mut arena = Corrida::new(None);
    match parse_regex(pattern, &mut arena) {
        Ok(_) => panic!("the pattern was accepted"),
        Err(e) => e,
    }
}

#[test]
fn scenario_optional_tail() {
    assert!(!accepts("ab*(c|)", ""));
    assert!(accepts("ab*(c|)", "a"));
    assert!(accepts("ab*(c|)", "ab"));
    assert!(accepts("ab*(c|)", "ac"));
    assert!(accepts("ab*(c|)", "abb"));
    assert!(accepts("ab*(c|)", "abbc"));
    assert!(accepts("ab*(c|)", "abbbbbbbc"));
    assert!(!accepts("ab*(c|)", "abbcc"));
    assert!(!accepts("ab*(c|)", "abaa"));
}

#[test]
fn scenario_divisible_by_three() {
    let pattern = "(0|(1(01*(00)*0)*1)*)*";
    assert!(accepts(pattern, "0"));
    assert!(accepts(pattern, "11"));
    assert!(accepts(pattern, "110"));
    assert!(!accepts(pattern, "10"));
    assert!(accepts(pattern, ""));
}

#[test]
fn malformed_patterns() {
    assert_eq!(refusal("a("), ParseError::UnbalancedOpen);
    assert_eq!(refusal("a)"), ParseError::UnbalancedClose);
    assert_eq!(refusal("*a"), ParseError::DanglingOperator);
    assert_eq!(refusal("()+"), ParseError::OperatorOnEmpty);
    assert_eq!(refusal("a|+"), ParseError::DanglingOperator);
    assert_eq!(refusal("(a|b"), ParseError::UnbalancedOpen);
}

#[test]
fn refusals_in_words() {
    assert_eq!(refusal("*a").message(), "Got an operator (+, *, ?) when there was no base to skip/repeat");
    assert_eq!(refusal("a(").message(), "EOF when not all groups were closed, '(' without matching ')'");
    assert_eq!(
        refusal("a)").message(),
        "Attempted to close a group in the outermost context ( no matching '(' )"
    );
    assert_eq!(
        refusal("()+").message(),
        "Got an operator (+, *, ?) behind a group that matches the empty word only"
    );
    assert_eq!(ParseError::UnexpectedEof.message(), "EOF where a base had to begin");
}

#[test]
fn base_at_the_end_of_the_pattern() {
    let mut arena = Corrida::new(None);
    let cur = arena.allocate(State::new(false));
    let pattern: Vec<char> = "ab".chars().collect();
    assert_eq!(parse_base(&mut arena, &pattern, 2, cur), Err(ParseError::UnexpectedEof));
    assert_eq!(arena.len(), 1);
    assert_eq!(parse_base(&mut arena, &pattern, 1, cur), Ok((2, 1)));
    assert_eq!(arena.len(), 2);
}

#[test]
fn alternation_of_two_words() {
    for input in ["", "a", "b", "c", "d", "ab", "cd", "ad", "cb", "ba", "abc", "abcd", "cdab", "abab"] {
        assert_eq!(accepts("ab|cd", input), input == "ab" || input == "cd", "{input}");
    }
    for input in ["", "x", "xy", "xz", "xx", "yz", "xyz", "xzy"] {
        assert_eq!(accepts("xy|xz", input), input == "xy" || input == "xz", "{input}");
    }
}

#[test]
fn stacked_quantifiers() {
    for input in ["", "a", "aa", "aaa", "b", "ab", "ba", "aab"] {
        let plain = accepts("a*", input);
        assert_eq!(accepts("a**", input), plain, "{input}");
        assert_eq!(accepts("a*?*", input), plain, "{input}");
        assert_eq!(accepts("a+*", input), plain, "{input}");
        assert_eq!(accepts("a+?", input), plain, "{input}");
    }
    assert!(accepts("a*", ""));
    assert!(accepts("a*", "aaa"));
    assert!(!accepts("a*", "ab"));
    assert!(!accepts("a+", ""));
    assert!(accepts("a+", "aa"));
    assert!(accepts("a?", ""));
    assert!(!accepts("a?", "aa"));
}

#[test]
fn one_accepting_state() {
    for pattern in ["", "a", "ab|cd", "a()b", "(a|)(b|c)*", "((a))"] {
        let mut arena = Corrida::new(None);
        parse_regex(pattern, &mut arena).unwrap();
        let mut accepting = 0;
        for handle in 0..arena.len() {
            if arena.get(handle).is_accept() {
                accepting += 1;
            }
        }
        assert_eq!(accepting, 1, "{pattern}");
    }
}

#[test]
fn empty_group_between_letters() {
    assert!(accepts("a()b", "ab"));
    assert!(!accepts("a()b", "a"));
    assert!(accepts("", ""));
    assert!(!accepts("", "a"));
    assert!(accepts("()", ""));
}

#[test]
fn friendly_run_agrees_without_cycles() {
    for pattern in ["ab|cd", "a?b?c", "(a|b)(c|d)?", "a()b"] {
        let mut arena = Corrida::new(None);
        let nfa = parse_regex(pattern, &mut arena).unwrap();
        for input in ["", "a", "ab", "cd", "c", "bc", "abc", "ac", "bd", "abcd"] {
            assert_eq!(nfa.simulate_iter_friendly(input.chars()), nfa.simulate_iter(input.chars()), "{pattern} {input}");
        }
    }
}

#[test]
fn automaton_is_built_behind_the_states_that_are_there() {
    let mut arena = Corrida::new(None);
    let old = arena.allocate(State::new(true));
    parse_regex("a|b", &mut arena).unwrap();
    assert!(arena.get(old).is_accept());
    let mut iter = arena.get(old).get_transitions(None);
    assert_eq!(iter.next(), None);
    let mut dfa_arena: Corrida<PartialState> = Corrida::new(None);
    dfa_arena.allocate(PartialState::new());
    let nfa = parse_regex("a", &mut arena).unwrap();
    let dfa = nfa.as_dfa(&mut dfa_arena);
    assert!(dfa.simulate_iter("a".chars()));
    assert!(!dfa.simulate_iter("".chars()));
}

#[test]
fn quantifier_behind_a_group_repeats_the_group_only() {
    for input in ["", "a", "aa", "b", "bb", "ab", "aab", "abb", "aabb"] {
        assert!(accepts("a*(b)*", input), "{input}");
    }
    for input in ["ba", "aba", "bab", "abab", "c"] {
        assert!(!accepts("a*(b)*", input), "{input}");
    }
    assert!(accepts("a(bc)+", "abc"));
    assert!(accepts("a(bc)+", "abcbc"));
    assert!(!accepts("a(bc)+", "a"));
    assert!(!accepts("a(bc)+", "abcabc"));
    assert!(accepts("a(b|c)?d", "ad"));
    assert!(accepts("a(b|c)?d", "acd"));
    assert!(!accepts("a(b|c)?d", "abcd"));
    assert!(accepts("(ab)*", ""));
    assert!(accepts("(ab)*", "abab"));
    assert!(!accepts("(ab)*", "aba"));
}

#[test]
fn friendly_run_does_not_mind_a_cycle_it_cannot_come_to() {
    let mut arena = Corrida::new(None);
    parse_regex("(a|b)*c+", &mut arena).unwrap();
    let nfa = parse_regex("ab?(c|d)", &mut arena).unwrap();
    for input in ["", "a", "ab", "ac", "abc", "abd", "ad", "abcd", "b", "acc"] {
        assert_eq!(nfa.simulate_iter_friendly(input.chars()), nfa.simulate_iter(input.chars()), "{input}");
    }
    assert!(nfa.simulate_iter_friendly("abd".chars()));
    assert!(!nfa.simulate_iter_friendly("ab".chars()));
}

#[test]
fn quantifier_behind_a_letter_repeats_the_letter_only() {
    for pattern in ["a*b*", "(a)*b*", "a*(b)*", "(a)*(b)*"] {
        for input in ["", "a", "b", "aa", "bb", "ab", "aab", "abb", "aabb"] {
            assert!(accepts(pattern, input), "{pattern} {input}");
        }
        for input in ["ba", "aba", "bab", "abab", "bba", "c", "abc"] {
            assert!(!accepts(pattern, input), "{pattern} {input}");
        }
    }
    for pattern in ["a+b+", "(a)+b+", "a+(b)+"] {
        for input in ["ab", "aab", "abb", "aabb"] {
            assert!(accepts(pattern, input), "{pattern} {input}");
        }
        for input in ["", "a", "b", "ba", "aba", "bab", "abab"] {
            assert!(!accepts(pattern, input), "{pattern} {input}");
        }
    }
    assert!(accepts("a?b?", ""));
    assert!(accepts("a?b?", "a"));
    assert!(accepts("a?b?", "b"));
    assert!(accepts("a?b?", "ab"));
    assert!(!accepts("a?b?", "ba"));
    assert!(!accepts("a?b?", "aa"));
    assert!(accepts("ab*c", "ac"));
    assert!(accepts("ab*c", "abbc"));
    assert!(!accepts("ab*c", "abcb"));
    assert!(accepts("a*a", "a"));
    assert!(accepts("a*a", "aaa"));
    assert!(!accepts("a*a", ""));
}

#[test]
fn quantified_letter_stands_between_states_of_its_own() {
    let mut arena = Corrida::new(None);
    parse_regex("ab*", &mut arena).unwrap();
    assert_eq!(arena.len(), 4);
    let mut out = arena.get(1).get_transitions(None);
    assert_eq!(out.next(), Some(Some(2)));
    assert_eq!(out.next(), None);
    let mut out = arena.get(2).get_transitions(Some('b'));
    assert_eq!(out.next(), Some(Some(3)));
    let mut out = arena.get(3).get_transitions(None);
    assert_eq!(out.next(), Some(Some(2)));
    let mut out = arena.get(2).get_transitions(None);
    assert_eq!(out.next(), Some(Some(3)));
    assert!(arena.get(3).is_accept());

    let mut arena = Corrida::new(None);
    parse_regex("ab", &mut arena).unwrap();
    assert_eq!(arena.len(), 3);
}
