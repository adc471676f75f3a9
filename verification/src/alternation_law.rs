//! The automaton of two words of two letters with `|` between them, and the
//! inputs it accepts: the two words and nothing else.

use crate::nfa::{
    any_accepting, edge, eps_closure, lemma_closure_closed, lemma_closure_holds_seed,
    lemma_closure_least, move_on, nfa_accepts, resolve, states_after, StateView,
};
use crate::regex::{
    accepting, attached, blank, closed, is_operator, link, thompson_base, thompson_branches, thompson_concat,
    thompson_concat_from, thompson_group, thompson_regex, with_target, Built, Fragment, ParseError,
};
use vstd::prelude::*;

verus! {

/// The pattern `ab|cd` for letters `a`, `b`, `c`, `d`.
pub open spec fn two_words(a: char, b: char, c: char, d: char) -> Seq<char> {
    seq![a, b, '|', c, d]
}

/// The handle of the state that is made as number `i` behind `states`.
pub open spec fn nth(states: Seq<StateView>, i: int) -> usize {
    (states.len() + i) as usize
}

/// What `ab|cd` makes of `states`: behind them, in the order in which they are
/// made, three states for the first word, the two of the alternation, three for
/// the second word.
pub open spec fn two_words_states(states: Seq<StateView>, a: char, b: char, c: char, d: char) -> Seq<StateView> {
    let s0 = states.push(blank());
    let s1 = link(s0.push(blank()), nth(states, 0), Some(a), nth(states, 1));
    let s2 = link(s1.push(blank()), nth(states, 1), Some(b), nth(states, 2));
    let s3 = s2.push(blank()).push(blank());
    let s4 = link(link(s3, nth(states, 3), None, nth(states, 0)), nth(states, 2), None, nth(states, 4));
    let s5 = s4.push(blank());
    let s6 = link(s5.push(blank()), nth(states, 5), Some(c), nth(states, 6));
    let s7 = link(s6.push(blank()), nth(states, 6), Some(d), nth(states, 7));
    let s8 = link(link(s7, nth(states, 3), None, nth(states, 5)), nth(states, 7), None, nth(states, 4));
    accepting(s8, nth(states, 4))
}

/// `ab|cd` builds the states of `two_words_states`, entered at the fourth of the
/// new states and left at the fifth.
pub proof fn lemma_two_words_built(states: Seq<StateView>, a: char, b: char, c: char, d: char)
    requires
        !is_operator(a),
        !is_operator(b),
        !is_operator(c),
        !is_operator(d),
        states.len() + 8 <= usize::MAX,
    ensures
        thompson_regex(states, two_words(a, b, c, d)).states == two_words_states(states, a, b, c, d),
        thompson_regex(states, two_words(a, b, c, d)).out == Ok::<Fragment, ParseError>(
            Fragment::NonEmpty(nth(states, 3), nth(states, 4)),
        ),
{
    reveal_with_fuel(thompson_concat_from, 4);
    let pattern = two_words(a, b, c, d);
    let q0 = nth(states, 0);
    let q1 = nth(states, 1);
    let q2 = nth(states, 2);
    let q3 = nth(states, 3);
    let q4 = nth(states, 4);
    let q5 = nth(states, 5);
    let q6 = nth(states, 6);
    let q7 = nth(states, 7);
    let s0 = states.push(blank());
    let s1 = link(s0.push(blank()), q0, Some(a), q1);
    let s2 = link(s1.push(blank()), q1, Some(b), q2);
    let s3 = s2.push(blank()).push(blank());
    let s4 = link(link(s3, q3, None, q0), q2, None, q4);
    let s5 = s4.push(blank());
    let s6 = link(s5.push(blank()), q5, Some(c), q6);
    let s7 = link(s6.push(blank()), q6, Some(d), q7);
    let s8 = link(link(s7, q3, None, q5), q7, None, q4);

    assert(thompson_base(s0, pattern, 0, q0) == (Built { states: s1, pos: 1, out: Ok::<usize, ParseError>(q1) }));
    assert(thompson_base(s1, pattern, 1, q1) == (Built { states: s2, pos: 2, out: Ok::<usize, ParseError>(q2) }));
    assert(thompson_concat_from(s2, pattern, 2, q0, q2, true) == (Built {
        states: s2,
        pos: 2,
        out: Ok::<Fragment, ParseError>(Fragment::NonEmpty(q0, q2)),
    }));
    assert(thompson_concat_from(s1, pattern, 1, q0, q1, true) == thompson_concat_from(s2, pattern, 2, q0, q2, true));
    assert(thompson_concat_from(s0, pattern, 0, q0, q0, false) == thompson_concat_from(s1, pattern, 1, q0, q1, true));
    let head = thompson_concat(states, pattern, 0);
    assert(head == (Built { states: s2, pos: 2, out: Ok::<Fragment, ParseError>(Fragment::NonEmpty(q0, q2)) }));

    assert(s2.len() == states.len() + 3);
    assert(attached(s3, q3, q4, Fragment::NonEmpty(q0, q2)) == s4);

    assert(s4.len() == states.len() + 5);
    assert(thompson_base(s5, pattern, 3, q5) == (Built { states: s6, pos: 4, out: Ok::<usize, ParseError>(q6) }));
    assert(thompson_base(s6, pattern, 4, q6) == (Built { states: s7, pos: 5, out: Ok::<usize, ParseError>(q7) }));
    assert(thompson_concat_from(s7, pattern, 5, q5, q7, true) == (Built {
        states: s7,
        pos: 5,
        out: Ok::<Fragment, ParseError>(Fragment::NonEmpty(q5, q7)),
    }));
    assert(thompson_concat_from(s6, pattern, 4, q5, q6, true) == thompson_concat_from(s7, pattern, 5, q5, q7, true));
    assert(thompson_concat_from(s5, pattern, 3, q5, q5, false) == thompson_concat_from(s6, pattern, 4, q5, q6, true));
    let tail = thompson_concat(s4, pattern, 3);
    assert(tail == (Built { states: s7, pos: 5, out: Ok::<Fragment, ParseError>(Fragment::NonEmpty(q5, q7)) }));
    assert(attached(s7, q3, q4, Fragment::NonEmpty(q5, q7)) == s8);
    assert(thompson_branches(s4, pattern, 2, q3, q4) == (Built { states: s8, pos: 5, out: Ok::<(), ParseError>(()) }));
    let group = thompson_group(states, pattern, 0, true);
    assert(group == closed(s8, pattern, 5, true, Fragment::NonEmpty(q3, q4)));
}

/// The transitions of the automaton of `ab|cd`, its states counted from the
/// first that was made: from the alternation's first state into both words,
/// through each word letter by letter, and out of each word into the
/// alternation's second state.
pub open spec fn two_words_edge(a: char, b: char, c: char, d: char, p: int, symbol: Option<char>, q: int) -> bool {
    ||| p == 3 && symbol == None::<char> && (q == 0 || q == 5)
    ||| p == 0 && symbol == Some(a) && q == 1
    ||| p == 1 && symbol == Some(b) && q == 2
    ||| p == 2 && symbol == None::<char> && q == 4
    ||| p == 5 && symbol == Some(c) && q == 6
    ||| p == 6 && symbol == Some(d) && q == 7
    ||| p == 7 && symbol == None::<char> && q == 4
}

/// A state with the one transition on `symbol` to `target`.
pub open spec fn one_way(symbol: Option<char>, target: usize) -> StateView {
    with_target(blank(), symbol, Some(target))
}

/// The eight states of `ab|cd`, one by one, and the states that were there
/// before, which are as they were.
pub proof fn lemma_two_words_states(states: Seq<StateView>, a: char, b: char, c: char, d: char)
    requires
        states.len() + 8 <= usize::MAX,
    ensures
        two_words_states(states, a, b, c, d).len() == states.len() + 8,
        forall|q: int| 0 <= q < states.len() ==> #[trigger] two_words_states(states, a, b, c, d)[q] == states[q],
        two_words_states(states, a, b, c, d)[states.len() as int + 0] == one_way(Some(a), nth(states, 1)),
        two_words_states(states, a, b, c, d)[states.len() as int + 1] == one_way(Some(b), nth(states, 2)),
        two_words_states(states, a, b, c, d)[states.len() as int + 2] == one_way(None, nth(states, 4)),
        two_words_states(states, a, b, c, d)[states.len() as int + 3] == with_target(
            one_way(None, nth(states, 0)),
            None,
            Some(nth(states, 5)),
        ),
        two_words_states(states, a, b, c, d)[states.len() as int + 4] == (StateView { accept: true, transitions: Map::empty() }),
        two_words_states(states, a, b, c, d)[states.len() as int + 5] == one_way(Some(c), nth(states, 6)),
        two_words_states(states, a, b, c, d)[states.len() as int + 6] == one_way(Some(d), nth(states, 7)),
        two_words_states(states, a, b, c, d)[states.len() as int + 7] == one_way(None, nth(states, 4)),
{
    let n = states.len() as int;
    let q0 = nth(states, 0);
    let q1 = nth(states, 1);
    let q2 = nth(states, 2);
    let q3 = nth(states, 3);
    let q4 = nth(states, 4);
    let q5 = nth(states, 5);
    let q6 = nth(states, 6);
    let q7 = nth(states, 7);
    let s0 = states.push(blank());
    let s1 = link(s0.push(blank()), q0, Some(a), q1);
    let s2 = link(s1.push(blank()), q1, Some(b), q2);
    let s3 = s2.push(blank()).push(blank());
    let s4 = link(link(s3, q3, None, q0), q2, None, q4);
    let s5 = s4.push(blank());
    let s6 = link(s5.push(blank()), q5, Some(c), q6);
    let s7 = link(s6.push(blank()), q6, Some(d), q7);
    let s8 = link(link(s7, q3, None, q5), q7, None, q4);
    let last = accepting(s8, q4);
    assert(s1.len() == n + 2 && s1[n + 0] == one_way(Some(a), q1) && s1[n + 1] == blank());
    assert(forall|q: int| 0 <= q < n ==> s1[q] == states[q]);
    assert(s2.len() == n + 3 && s2[n + 0] == s1[n + 0] && s2[n + 1] == one_way(Some(b), q2) && s2[n + 2] == blank());
    assert(forall|q: int| 0 <= q < n ==> s2[q] == states[q]);
    assert(s3.len() == n + 5 && s3[n + 0] == s2[n + 0] && s3[n + 1] == s2[n + 1] && s3[n + 2] == blank() && s3[n + 3]
        == blank() && s3[n + 4] == blank());
    assert(forall|q: int| 0 <= q < n ==> s3[q] == states[q]);
    assert(s4.len() == n + 5 && s4[n + 0] == s3[n + 0] && s4[n + 1] == s3[n + 1] && s4[n + 2] == one_way(None, q4) && s4[n
        + 3] == one_way(None, q0) && s4[n + 4] == blank());
    assert(forall|q: int| 0 <= q < n ==> s4[q] == states[q]);
    assert(s6.len() == n + 7 && s6[n + 0] == s4[n + 0] && s6[n + 1] == s4[n + 1] && s6[n + 2] == s4[n + 2] && s6[n + 3]
        == s4[n + 3] && s6[n + 4] == s4[n + 4] && s6[n + 5] == one_way(Some(c), q6) && s6[n + 6] == blank());
    assert(forall|q: int| 0 <= q < n ==> s6[q] == states[q]);
    assert(s7.len() == n + 8 && s7[n + 0] == s6[n + 0] && s7[n + 1] == s6[n + 1] && s7[n + 2] == s6[n + 2] && s7[n + 3]
        == s6[n + 3] && s7[n + 4] == s6[n + 4] && s7[n + 5] == s6[n + 5] && s7[n + 6] == one_way(Some(d), q7) && s7[n + 7]
        == blank());
    assert(forall|q: int| 0 <= q < n ==> s7[q] == states[q]);
    assert(s8.len() == n + 8 && s8[n + 0] == s7[n + 0] && s8[n + 1] == s7[n + 1] && s8[n + 2] == s7[n + 2] && s8[n + 3]
        == with_target(one_way(None, q0), None, Some(q5)) && s8[n + 4] == s7[n + 4] && s8[n + 5] == s7[n + 5] && s8[n + 6]
        == s7[n + 6] && s8[n + 7] == one_way(None, q4));
    assert(forall|q: int| 0 <= q < n ==> s8[q] == states[q]);
    assert(blank().transitions == Map::<Option<char>, Seq<Option<usize>>>::empty());
    assert(forall|q: int| 0 <= q < n ==> last[q] == states[q]);
}

/// The targets of a state with one transition.
pub proof fn lemma_one_way(symbol: Option<char>, target: usize, other: Option<char>)
    ensures
        other == symbol ==> one_way(symbol, target).targets_on(other) == seq![Some(target)],
        other != symbol ==> one_way(symbol, target).targets_on(other) == Seq::<Option<usize>>::empty(),
        !one_way(symbol, target).accept,
{
    assert(blank().targets_on(symbol) == Seq::<Option<usize>>::empty());
    assert(Seq::<Option<usize>>::empty().push(Some(target)) =~= seq![Some(target)]);
}

/// The new states of the automaton of `ab|cd` have the transitions of
/// `two_words_edge` and no others.
pub proof fn lemma_two_words_edges(
    states: Seq<StateView>,
    a: char,
    b: char,
    c: char,
    d: char,
    p: int,
    symbol: Option<char>,
    q: int,
)
    requires
        states.len() + 8 <= usize::MAX,
        states.len() <= p,
    ensures
        edge(two_words_states(states, a, b, c, d), p, symbol, q) == two_words_edge(
            a,
            b,
            c,
            d,
            p - states.len(),
            symbol,
            q - states.len(),
        ),
{
    let n = states.len() as int;
    let all = two_words_states(states, a, b, c, d);
    lemma_two_words_states(states, a, b, c, d);
    if p < n + 8 {
        let targets = all[p].targets_on(symbol);
        if edge(all, p, symbol, q) {
            let i = choose|i: int| 0 <= i < targets.len() && resolve(p, #[trigger] targets[i]) == q;
            assert(resolve(p, targets[i]) == q);
        }
        if p == n + 0 {
            lemma_two_words_one_way(all, p, Some(a), nth(states, 1), symbol, q);
        } else if p == n + 1 {
            lemma_two_words_one_way(all, p, Some(b), nth(states, 2), symbol, q);
        } else if p == n + 2 {
            lemma_two_words_one_way(all, p, None, nth(states, 4), symbol, q);
        } else if p == n + 3 {
            lemma_one_way(None, nth(states, 0), symbol);
            lemma_one_way(None, nth(states, 0), None);
            if symbol == None::<char> {
                assert(one_way(None, nth(states, 0)).targets_on(None) == seq![Some(nth(states, 0))]);
                assert(targets =~= seq![Some(nth(states, 0)), Some(nth(states, 5))]);
                assert(resolve(p, targets[0]) == n + 0);
                assert(resolve(p, targets[1]) == n + 5);
                if q == n + 0 || q == n + 5 {
                    assert(edge(all, p, symbol, q));
                }
            } else {
                assert(one_way(None, nth(states, 0)).transitions.contains_key(None));
                assert(!all[p].transitions.contains_key(symbol));
                assert(targets =~= Seq::<Option<usize>>::empty());
            }
        } else if p == n + 4 {
            assert(targets =~= Seq::<Option<usize>>::empty());
        } else if p == n + 5 {
            lemma_two_words_one_way(all, p, Some(c), nth(states, 6), symbol, q);
        } else if p == n + 6 {
            lemma_two_words_one_way(all, p, Some(d), nth(states, 7), symbol, q);
        } else {
            lemma_two_words_one_way(all, p, None, nth(states, 4), symbol, q);
        }
    }
}

/// A state with one transition has a transition on `other` to `q` exactly if
/// `other` is its symbol and `q` its target.
pub proof fn lemma_two_words_one_way(
    states: Seq<StateView>,
    p: int,
    symbol: Option<char>,
    target: usize,
    other: Option<char>,
    q: int,
)
    requires
        0 <= p < states.len(),
        target < states.len(),
        states[p] == one_way(symbol, target),
    ensures
        edge(states, p, other, q) == (other == symbol && q == target),
{
    lemma_one_way(symbol, target, other);
    let targets = states[p].targets_on(other);
    if edge(states, p, other, q) {
        let i = choose|i: int| 0 <= i < targets.len() && resolve(p, #[trigger] targets[i]) == q;
        assert(resolve(p, targets[i]) == q);
    }
    if other == symbol && q == target {
        assert(resolve(p, targets[0]) == q);
    }
}

/// The closure of a set from whose states one transition on the empty word
/// leads to everything that more of them would lead to.
pub proof fn lemma_closure_in_one_step(states: Seq<StateView>, seed: Set<int>, result: Set<int>)
    requires
        forall|s: int| seed.contains(s) && 0 <= s < states.len() ==> result.contains(s),
        forall|m: int, t: int| result.contains(m) && #[trigger] edge(states, m, None, t) ==> result.contains(t),
        forall|r: int|
            #[trigger] result.contains(r) ==> (seed.contains(r) && 0 <= r < states.len()) || exists|m: int|
                seed.contains(m) && 0 <= m < states.len() && #[trigger] edge(states, m, None, r),
    ensures
        eps_closure(states, seed) == result,
{
    lemma_closure_least(states, seed, result);
    assert forall|r: int| result.contains(r) implies eps_closure(states, seed).contains(r) by {
        if seed.contains(r) && 0 <= r < states.len() {
            lemma_closure_holds_seed(states, seed, r);
        } else {
            let m = choose|m: int| seed.contains(m) && 0 <= m < states.len() && #[trigger] edge(states, m, None, r);
            lemma_closure_holds_seed(states, seed, m);
            lemma_closure_closed(states, seed, m, r);
        }
    }
    assert(eps_closure(states, seed) =~= result);
}

/// The states the automaton of `ab|cd` may be in after `word`, counted from the
/// first that was made: at the start of both words before anything is read,
/// behind the first letter of a word after that letter, at the end of a word and
/// of the alternation after the word, and nowhere after anything else.
pub open spec fn two_words_after(n: int, a: char, b: char, c: char, d: char, word: Seq<char>) -> Set<int> {
    Set::new(
        |q: int|
            {
                ||| word.len() == 0 && (q == n + 3 || q == n + 0 || q == n + 5)
                ||| word.len() == 1 && ((q == n + 1 && word[0] == a) || (q == n + 6 && word[0] == c))
                ||| word.len() == 2 && (((q == n + 2 || q == n + 4) && word[0] == a && word[1] == b) || ((q == n + 7 || q
                    == n + 4) && word[0] == c && word[1] == d))
            },
    )
}

/// After any word the automaton of `ab|cd` may be in the states of
/// `two_words_after`.
pub proof fn lemma_two_words_after(states: Seq<StateView>, a: char, b: char, c: char, d: char, word: Seq<char>)
    requires
        states.len() + 8 <= usize::MAX,
    ensures
        states_after(two_words_states(states, a, b, c, d), states.len() as int + 3, word) == two_words_after(
            states.len() as int,
            a,
            b,
            c,
            d,
            word,
        ),
    decreases word.len(),
{
    let n = states.len() as int;
    let all = two_words_states(states, a, b, c, d);
    let goal = two_words_after(n, a, b, c, d, word);
    lemma_two_words_states(states, a, b, c, d);
    assert forall|p: int, symbol: Option<char>, q: int| n <= p implies #[trigger] edge(all, p, symbol, q) == two_words_edge(
        a,
        b,
        c,
        d,
        p - n,
        symbol,
        q - n,
    ) by {
        lemma_two_words_edges(states, a, b, c, d, p, symbol, q);
    }
    if word.len() == 0 {
        let seed = set![n + 3];
        assert(edge(all, n + 3, None, n + 0));
        assert(edge(all, n + 3, None, n + 5));
        assert forall|r: int|
            #[trigger] goal.contains(r) implies (seed.contains(r) && 0 <= r < all.len()) || exists|m: int|
            seed.contains(m) && 0 <= m < all.len() && #[trigger] edge(all, m, None, r) by {
            if r != n + 3 {
                assert(seed.contains(n + 3) && edge(all, n + 3, None, r));
            }
        }
        assert forall|m: int, t: int| goal.contains(m) && #[trigger] edge(all, m, None, t) implies goal.contains(t) by {
            assert(two_words_edge(a, b, c, d, m - n, None, t - n));
        }
        lemma_closure_in_one_step(all, seed, goal);
    } else {
        let shorter = word.drop_last();
        let x = word.last();
        lemma_two_words_after(states, a, b, c, d, shorter);
        let before = two_words_after(n, a, b, c, d, shorter);
        let moved = move_on(all, before, x);
        assert(forall|i: int| 0 <= i < shorter.len() ==> shorter[i] == word[i]);
        assert forall|q: int| moved.contains(q) implies goal.contains(q) && 0 <= q < all.len() by {
            let p = choose|p: int| before.contains(p) && #[trigger] edge(all, p, Some(x), q);
            assert(two_words_edge(a, b, c, d, p - n, Some(x), q - n));
        }
        assert forall|m: int, t: int| goal.contains(m) && #[trigger] edge(all, m, None, t) implies goal.contains(t) by {
            assert(two_words_edge(a, b, c, d, m - n, None, t - n));
        }
        assert forall|r: int|
            #[trigger] goal.contains(r) implies (moved.contains(r) && 0 <= r < all.len()) || exists|m: int|
            moved.contains(m) && 0 <= m < all.len() && #[trigger] edge(all, m, None, r) by {
            if word.len() == 1 {
                if r == n + 1 {
                    assert(before.contains(n + 0) && edge(all, n + 0, Some(x), n + 1));
                } else {
                    assert(before.contains(n + 5) && edge(all, n + 5, Some(x), n + 6));
                }
            } else {
                if word[0] == a && word[1] == b && (r == n + 2 || r == n + 4) {
                    assert(before.contains(n + 1) && edge(all, n + 1, Some(x), n + 2));
                    assert(moved.contains(n + 2));
                    if r == n + 4 {
                        assert(edge(all, n + 2, None, n + 4));
                    }
                } else {
                    assert(before.contains(n + 6) && edge(all, n + 6, Some(x), n + 7));
                    assert(moved.contains(n + 7));
                    if r == n + 4 {
                        assert(edge(all, n + 7, None, n + 4));
                    }
                }
            }
        }
        lemma_closure_in_one_step(all, moved, goal);
    }
}

/// The automaton of `ab|cd` accepts the words `ab` and `cd` and no other input.
pub proof fn lemma_two_words_language(states: Seq<StateView>, a: char, b: char, c: char, d: char, word: Seq<char>)
    requires
        states.len() + 8 <= usize::MAX,
    ensures
        nfa_accepts(two_words_states(states, a, b, c, d), states.len() as int + 3, word) <==> word == seq![a, b] || word
            == seq![c, d],
{
    let n = states.len() as int;
    let all = two_words_states(states, a, b, c, d);
    lemma_two_words_states(states, a, b, c, d);
    lemma_two_words_after(states, a, b, c, d, word);
    let after = two_words_after(n, a, b, c, d, word);
    lemma_one_way(Some(a), nth(states, 1), None);
    lemma_one_way(Some(b), nth(states, 2), None);
    lemma_one_way(Some(c), nth(states, 6), None);
    lemma_one_way(Some(d), nth(states, 7), None);
    lemma_one_way(None, nth(states, 4), None);
    lemma_one_way(None, nth(states, 0), None);
    assert(!all[n + 3].accept);
    if any_accepting(all, after) {
        let q = choose|q: int| 0 <= q < all.len() && #[trigger] after.contains(q) && all[q].accept;
        assert(q == n + 4);
        if word[0] == a && word[1] == b {
            assert(word =~= seq![a, b]);
        } else {
            assert(word =~= seq![c, d]);
        }
    }
    if word == seq![a, b] || word == seq![c, d] {
        assert(after.contains(n + 4));
        assert(all[n + 4].accept);
    }
}

/// For all letters `a`, `b`, `c`, `d`, the automaton that `ab|cd` builds, behind
/// whatever states are there, accepts the words `ab` and `cd` and no other input.
pub proof fn lemma_alternation_of_two_words(states: Seq<StateView>, a: char, b: char, c: char, d: char, word: Seq<char>)
    requires
        !is_operator(a),
        !is_operator(b),
        !is_operator(c),
        !is_operator(d),
        states.len() + 8 <= usize::MAX,
    ensures
        thompson_regex(states, two_words(a, b, c, d)).out is Ok,
        nfa_accepts(
            thompson_regex(states, two_words(a, b, c, d)).states,
            thompson_regex(states, two_words(a, b, c, d)).out->Ok_0.entry() as int,
            word,
        ) <==> word == seq![a, b] || word == seq![c, d],
{
    lemma_two_words_built(states, a, b, c, d);
    lemma_two_words_language(states, a, b, c, d, word);
}

} // verus!
