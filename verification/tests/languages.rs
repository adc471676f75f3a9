use gerber::corrida::Corrida;
use gerber::dfa::PartialState;
use gerber::regex::parse_regex;
use std::collections::BTreeSet;

enum Re {
    Letter(char),
    Sequence(Vec<Re>),
    Choice(Vec<Re>),
    Repeat(Box<Re>, bool, bool),
}

fn read_group(pattern: &[char], pos: &mut usize) -> Re {
    let mut branches = vec![read_sequence(pattern, pos)];
    while *pos < pattern.len() && pattern[*pos] == '|' {
        *pos += 1;
        branches.push(read_sequence(pattern, pos));
    }
    Re::Choice(branches)
}

fn read_sequence(pattern: &[char], pos: &mut usize) -> Re {
    let mut parts = Vec::new();
    while *pos < pattern.len() && pattern[*pos] != ')' && pattern[*pos] != '|' {
        let atom = if pattern[*pos] == '(' {
            *pos += 1;
            let inner = read_group(pattern, pos);
            *pos += 1;
            inner
        } else {
            *pos += 1;
            Re::Letter(pattern[*pos - 1])
        };
        let (mut cycle, mut skip) = (false, false);
        let mut quantified = false;
        while *pos < pattern.len() && "+*?".contains(pattern[*pos]) {
            cycle = cycle || pattern[*pos] != '?';
            skip = skip || pattern[*pos] != '+';
            quantified = true;
            *pos += 1;
        }
        parts.push(if quantified { Re::Repeat(Box::new(atom), cycle, skip) } else { atom });
    }
    Re::Sequence(parts)
}

// The places where a match of `re` that begins at `from` can end.
fn ends(re: &Re, input: &[char], from: usize) -> BTreeSet<usize> {
    match re {
        Re::Letter(c) => {
            if from < input.len() && input[from] == *c {
                BTreeSet::from([from + 1])
            } else {
                BTreeSet::new()
            }
        }
        Re::Sequence(parts) => {
            let mut at = BTreeSet::from([from]);
            for part in parts {
                at = at.iter().flat_map(|&p| ends(part, input, p)).collect();
            }
            at
        }
        Re::Choice(branches) => branches.iter().flat_map(|b| ends(b, input, from)).collect(),
        Re::Repeat(inner, cycle, skip) => {
            let mut reached = ends(inner, input, from);
            if *cycle {
                loop {
                    let more: BTreeSet<usize> = reached.iter().flat_map(|&p| ends(inner, input, p)).collect();
                    let before = reached.len();
                    reached.extend(more);
                    if reached.len() == before {
                        break;
                    }
                }
            }
            if *skip {
                reached.insert(from);
            }
            reached
        }
    }
}

fn words(letters: &[char], longest: usize) -> Vec<Vec<char>> {
    let mut all: Vec<Vec<char>> = vec![vec![]];
    let mut from = 0;
    for _ in 0..longest {
        let upto = all.len();
        for at in from..upto {
            for &letter in letters {
                let mut longer = all[at].clone();
                longer.push(letter);
                all.push(longer);
            }
        }
        from = upto;
    }
    all
}

fn compare(patterns: &[Vec<char>], inputs: &[Vec<char>]) -> usize {
    let mut accepted_patterns = 0;
    for pattern in patterns {
        let text: String = pattern.iter().collect();
        let mut arena = Corrida::new(None);
        let nfa = match parse_regex(&text, &mut arena) {
            Ok(nfa) => nfa,
            Err(_) => continue,
        };
        accepted_patterns += 1;
        let mut pos = 0;
        let re = read_group(pattern, &mut pos);
        assert_eq!(pos, pattern.len(), "{text}");
        let mut dfa_arena: Corrida<PartialState> = Corrida::new(None);
        let dfa = nfa.as_dfa(&mut dfa_arena);
        for input in inputs {
            let expected = ends(&re, input, 0).contains(&input.len());
            let shown: String = input.iter().collect();
            assert_eq!(nfa.simulate_slice(input), expected, "pattern {text}, input {shown}");
            assert_eq!(dfa.simulate_slice(input), expected, "pattern {text}, input {shown}");
        }
    }
    accepted_patterns
}

#[test]
fn every_short_pattern_means_what_its_operators_say() {
    let patterns = words(&['a', 'b', '(', ')', '|', '*', '+', '?'], 6);
    let inputs = words(&['a', 'b'], 4);
    let accepted = compare(&patterns, &inputs);
    assert!(accepted > 20000, "{accepted}");
}

#[test]
fn longer_patterns_mean_what_their_operators_say() {
    let inputs = words(&['a', 'b', 'c'], 5);
    let patterns: Vec<Vec<char>> = [
        "a*b*", "a+b+", "(a)*b*", "a*b*a*", "a*b+c?", "(a|b)*c", "(ab|c)*", "(a*b*)*", "((a|b)c?)+", "a(b|)c*",
        "(a|b)(a|b)", "(a+b|c)*a?", "a**b", "(a?)*b", "((a))+(b|c)", "(|a)+b", "(a|b*)c", "a(b(c)*)*", "(a*)(b*)(c*)",
        "()a()", "(a|)(b|)(c|)", "a+?b*+c", "(ab)+(bc)*", "(a(b|c))*a", "a?a?a?aaa", "a(b(c)*)*", "a(bc*)*", "(a*b)?c",
        "(a(b)+)?c", "((a|b)*c)*", "(a(b|c*))+", "((a)*)*b", "((ab)*|c+)?a", "(a|(b(c)?)*)+", "a((b)?(c)+)*", "(a?b?)*c",
        "((a*)b)*", "(a+|b+)*c?", "(((a)*b)*c)*", "a(|b)*c", "(a|b|)+c", "((a|b)(b|c))*",
    ]
    .iter()
    .map(|p| p.chars().collect())
    .collect();
    assert_eq!(compare(&patterns, &inputs), patterns.len());
}

#[test]
fn nested_patterns_mean_what_their_operators_say() {
    let patterns = words(&['a', 'b', '(', ')', '|', '*'], 7);
    let inputs = words(&['a', 'b'], 5);
    let accepted = compare(&patterns, &inputs);
    assert!(accepted > 20000, "{accepted}");
}
