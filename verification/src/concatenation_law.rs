//! The automaton of two starred letters, one behind the other, and the inputs it
//! accepts: some of the first letter followed by some of the second, and
//! nothing else.

use crate::alternation_law::{nth, one_way};
use crate::nfa::{
    any_accepting, edge, eps_closure, lemma_closure_closed, lemma_closure_holds_seed,
    lemma_closure_least, move_on, nfa_accepts, resolve, states_after, StateView,
};
use crate::regex::{
    accepting, asks_cycle, asks_skip, blank, closed, is_operator, is_quantifier, link, quantified,
    quantifiers_end, thompson_base, thompson_concat, thompson_concat_from, thompson_group,
    thompson_regex, with_target, Built, Fragment, ParseError,
};
use vstd::prelude::*;

verus! {

/// The pattern `a*b*` for letters `a` and `b`.
pub open spec fn two_stars(a: char, b: char) -> Seq<char> {
    seq![a, '*', b, '*']
}

/// What a starred letter makes of `states` when it is entered at `cur`: two new
/// states, `entry` and `end`, a transition on the empty word from `cur` to the
/// first, one on the letter between the two, one on the empty word back and one
/// forward.
pub open spec fn starred(states: Seq<StateView>, cur: usize, entry: usize, end: usize, letter: char) -> Seq<StateView> {
    let made = link(link(states.push(blank()).push(blank()), cur, None, entry), entry, Some(letter), end);
    link(link(made, end, None, entry), entry, None, end)
}

/// What `a*b*` makes of `states`: behind them a state to start in, the two states
/// of the first starred letter, and the two of the second, the last accepting.
pub open spec fn two_stars_states(states: Seq<StateView>, a: char, b: char) -> Seq<StateView> {
    let s0 = states.push(blank());
    let s1 = starred(s0, nth(states, 0), nth(states, 1), nth(states, 2), a);
    let s2 = starred(s1, nth(states, 2), nth(states, 3), nth(states, 4), b);
    accepting(s2, nth(states, 4))
}

/// One `*` that no quantifier follows adds the transition back and the
/// transition forward.
pub proof fn lemma_one_star(states: Seq<StateView>, pattern: Seq<char>, pos: int, start: usize, end: usize)
    requires
        0 <= pos < pattern.len(),
        pattern[pos] == '*',
        pos + 1 >= pattern.len() || !is_quantifier(pattern[pos + 1]),
    ensures
        quantified(states, pattern, pos, start, end) == (Built {
            states: link(link(states, end, None, start), start, None, end),
            pos: pos + 1,
            out: Ok::<usize, ParseError>(end),
        }),
{
    assert(quantifiers_end(pattern, pos + 1) == pos + 1);
    assert(quantifiers_end(pattern, pos) == pos + 1);
    assert(pattern[pos] == '*');
    assert(asks_cycle(pattern, pos, pos + 1));
    assert(asks_skip(pattern, pos, pos + 1));
}

/// `a*b*` builds the states of `two_stars_states`, entered at the first of the
/// new states and left at the fifth.
pub proof fn lemma_two_stars_built(states: Seq<StateView>, a: char, b: char)
    requires
        !is_operator(a),
        !is_operator(b),
        states.len() + 5 <= usize::MAX,
    ensures
        thompson_regex(states, two_stars(a, b)).states == two_stars_states(states, a, b),
        thompson_regex(states, two_stars(a, b)).out == Ok::<Fragment, ParseError>(
            Fragment::NonEmpty(nth(states, 0), nth(states, 4)),
        ),
{
    reveal_with_fuel(thompson_concat_from, 4);
    let pattern = two_stars(a, b);
    let f = nth(states, 0);
    let x1 = nth(states, 1);
    let y1 = nth(states, 2);
    let x2 = nth(states, 3);
    let y2 = nth(states, 4);
    let s0 = states.push(blank());
    let made1 = link(link(s0.push(blank()).push(blank()), f, None, x1), x1, Some(a), y1);
    let s1 = starred(s0, f, x1, y1, a);
    let made2 = link(link(s1.push(blank()).push(blank()), y1, None, x2), x2, Some(b), y2);
    let s2 = starred(s1, y1, x2, y2, b);

    assert(is_quantifier(pattern[1]));
    lemma_one_star(made1, pattern, 1, x1, y1);
    assert(thompson_base(s0, pattern, 0, f) == (Built { states: s1, pos: 2, out: Ok::<usize, ParseError>(y1) }));
    assert(s1.len() == states.len() + 3);
    assert(is_quantifier(pattern[3]));
    lemma_one_star(made2, pattern, 3, x2, y2);
    assert(thompson_base(s1, pattern, 2, y1) == (Built { states: s2, pos: 4, out: Ok::<usize, ParseError>(y2) }));
    assert(thompson_concat_from(s2, pattern, 4, f, y2, true) == (Built {
        states: s2,
        pos: 4,
        out: Ok::<Fragment, ParseError>(Fragment::NonEmpty(f, y2)),
    }));
    assert(thompson_concat_from(s1, pattern, 2, f, y1, true) == thompson_concat_from(s2, pattern, 4, f, y2, true));
    assert(thompson_concat_from(s0, pattern, 0, f, f, false) == thompson_concat_from(s1, pattern, 2, f, y1, true));
    let head = thompson_concat(states, pattern, 0);
    assert(head == (Built { states: s2, pos: 4, out: Ok::<Fragment, ParseError>(Fragment::NonEmpty(f, y2)) }));
    let group = thompson_group(states, pattern, 0, true);
    assert(group == closed(s2, pattern, 4, true, Fragment::NonEmpty(f, y2)));
}

/// The five states of `a*b*`, one by one, and the states that were there before,
/// which are as they were.
pub proof fn lemma_two_stars_states(states: Seq<StateView>, a: char, b: char)
    requires
        states.len() + 5 <= usize::MAX,
    ensures
        two_stars_states(states, a, b).len() == states.len() + 5,
        forall|q: int| 0 <= q < states.len() ==> #[trigger] two_stars_states(states, a, b)[q] == states[q],
        two_stars_states(states, a, b)[states.len() as int + 0] == one_way(None, nth(states, 1)),
        two_stars_states(states, a, b)[states.len() as int + 1] == with_target(
            one_way(Some(a), nth(states, 2)),
            None,
            Some(nth(states, 2)),
        ),
        two_stars_states(states, a, b)[states.len() as int + 2] == with_target(
            one_way(None, nth(states, 1)),
            None,
            Some(nth(states, 3)),
        ),
        two_stars_states(states, a, b)[states.len() as int + 3] == with_target(
            one_way(Some(b), nth(states, 4)),
            None,
            Some(nth(states, 4)),
        ),
        two_stars_states(states, a, b)[states.len() as int + 4] == (StateView {
            accept: true,
            transitions: one_way(None, nth(states, 3)).transitions,
        }),
{
    let n = states.len() as int;
    let f = nth(states, 0);
    let x1 = nth(states, 1);
    let y1 = nth(states, 2);
    let x2 = nth(states, 3);
    let y2 = nth(states, 4);
    let s0 = states.push(blank());
    let wider = s0.push(blank()).push(blank());
    let a1 = link(wider, f, None, x1);
    let a2 = link(a1, x1, Some(a), y1);
    let a3 = link(a2, y1, None, x1);
    let s1 = link(a3, x1, None, y1);
    assert(s1 == starred(s0, f, x1, y1, a));
    let widest = s1.push(blank()).push(blank());
    let b1 = link(widest, y1, None, x2);
    let b2 = link(b1, x2, Some(b), y2);
    let b3 = link(b2, y2, None, x2);
    let s2 = link(b3, x2, None, y2);
    assert(s2 == starred(s1, y1, x2, y2, b));
    let last = accepting(s2, y2);
    assert(wider.len() == n + 3 && wider[n + 0] == blank() && wider[n + 1] == blank() && wider[n + 2] == blank());
    assert(forall|q: int| 0 <= q < n ==> wider[q] == states[q]);
    assert(a1.len() == n + 3 && a1[n + 0] == one_way(None, x1) && a1[n + 1] == blank() && a1[n + 2] == blank());
    assert(forall|q: int| 0 <= q < n ==> a1[q] == states[q]);
    assert(a2.len() == n + 3 && a2[n + 0] == a1[n + 0] && a2[n + 1] == one_way(Some(a), y1) && a2[n + 2] == blank());
    assert(forall|q: int| 0 <= q < n ==> a2[q] == states[q]);
    assert(a3.len() == n + 3 && a3[n + 0] == a1[n + 0] && a3[n + 1] == a2[n + 1] && a3[n + 2] == one_way(None, x1));
    assert(forall|q: int| 0 <= q < n ==> a3[q] == states[q]);
    assert(s1.len() == n + 3 && s1[n + 0] == a1[n + 0] && s1[n + 1] == with_target(one_way(Some(a), y1), None, Some(y1))
        && s1[n + 2] == a3[n + 2]);
    assert(forall|q: int| 0 <= q < n ==> s1[q] == states[q]);
    assert(widest.len() == n + 5 && widest[n + 0] == s1[n + 0] && widest[n + 1] == s1[n + 1] && widest[n + 2] == s1[n + 2] && widest[n + 3]
        == blank() && widest[n + 4] == blank());
    assert(forall|q: int| 0 <= q < n ==> widest[q] == states[q]);
    assert(b1.len() == n + 5 && b1[n + 0] == widest[n + 0] && b1[n + 1] == widest[n + 1] && b1[n + 2] == with_target(
        one_way(None, x1),
        None,
        Some(x2),
    ) && b1[n + 3] == blank() && b1[n + 4] == blank());
    assert(forall|q: int| 0 <= q < n ==> b1[q] == states[q]);
    assert(b2.len() == n + 5 && b2[n + 0] == b1[n + 0] && b2[n + 1] == b1[n + 1] && b2[n + 2] == b1[n + 2] && b2[n + 3]
        == one_way(Some(b), y2) && b2[n + 4] == blank());
    assert(forall|q: int| 0 <= q < n ==> b2[q] == states[q]);
    assert(b3.len() == n + 5 && b3[n + 0] == b2[n + 0] && b3[n + 1] == b2[n + 1] && b3[n + 2] == b2[n + 2] && b3[n + 3]
        == b2[n + 3] && b3[n + 4] == one_way(None, x2));
    assert(forall|q: int| 0 <= q < n ==> b3[q] == states[q]);
    assert(s2.len() == n + 5 && s2[n + 0] == b3[n + 0] && s2[n + 1] == b3[n + 1] && s2[n + 2] == b3[n + 2] && s2[n + 3]
        == with_target(one_way(Some(b), y2), None, Some(y2)) && s2[n + 4] == b3[n + 4]);
    assert(forall|q: int| 0 <= q < n ==> s2[q] == states[q]);
    assert(forall|q: int| 0 <= q < n ==> last[q] == states[q]);
}

/// The targets of a state that got one more transition.
pub proof fn lemma_with_target(state: StateView, symbol: Option<char>, target: Option<usize>, other: Option<char>)
    ensures
        other == symbol ==> with_target(state, symbol, target).targets_on(other) == state.targets_on(symbol).push(target),
        other != symbol ==> with_target(state, symbol, target).targets_on(other) == state.targets_on(other),
{
}

/// A state has a transition on `symbol` to `q` exactly if one of its targets on
/// `symbol` stands for `q` and `q` exists.
pub proof fn lemma_edge_by_targets(states: Seq<StateView>, p: int, symbol: Option<char>, q: int, targets: Seq<Option<usize>>)
    requires
        0 <= p < states.len(),
        states[p].targets_on(symbol) == targets,
        targets.len() <= 2,
    ensures
        edge(states, p, symbol, q) == (0 <= q < states.len() && ((targets.len() >= 1 && resolve(p, targets[0]) == q) || (
        targets.len() >= 2 && resolve(p, targets[1]) == q))),
{
    let own = states[p].targets_on(symbol);
    if edge(states, p, symbol, q) {
        let i = choose|i: int| 0 <= i < own.len() && resolve(p, #[trigger] own[i]) == q;
        assert(resolve(p, targets[i]) == q);
    }
    if 0 <= q < states.len() && targets.len() >= 1 && resolve(p, targets[0]) == q {
        assert(resolve(p, own[0]) == q);
    }
    if 0 <= q < states.len() && targets.len() >= 2 && resolve(p, targets[1]) == q {
        assert(resolve(p, own[1]) == q);
    }
}

/// The transitions of the automaton of `a*b*`, its states counted from the first
/// that was made: into the first starred letter, round it and past it, on into
/// the second, round it and past it.
pub open spec fn two_stars_edge(a: char, b: char, p: int, symbol: Option<char>, q: int) -> bool {
    ||| p == 0 && symbol == None::<char> && q == 1
    ||| p == 1 && (symbol == Some(a) || symbol == None::<char>) && q == 2
    ||| p == 2 && symbol == None::<char> && (q == 1 || q == 3)
    ||| p == 3 && (symbol == Some(b) || symbol == None::<char>) && q == 4
    ||| p == 4 && symbol == None::<char> && q == 3
}

/// The new states of the automaton of `a*b*` have the transitions of
/// `two_stars_edge` and no others.
pub proof fn lemma_two_stars_edges(states: Seq<StateView>, a: char, b: char, p: int, symbol: Option<char>, q: int)
    requires
        states.len() + 5 <= usize::MAX,
        states.len() <= p,
    ensures
        edge(two_stars_states(states, a, b), p, symbol, q) == two_stars_edge(a, b, p - states.len(), symbol, q - states.len()),
{
    let n = states.len() as int;
    let all = two_stars_states(states, a, b);
    let x1 = nth(states, 1);
    let y1 = nth(states, 2);
    let x2 = nth(states, 3);
    let y2 = nth(states, 4);
    let none = Seq::<Option<usize>>::empty();
    lemma_two_stars_states(states, a, b);
    assert(blank().targets_on(symbol) == none);
    assert(none.push(Some(x1)) =~= seq![Some(x1)]);
    assert(none.push(Some(y1)) =~= seq![Some(y1)]);
    assert(none.push(Some(x2)) =~= seq![Some(x2)]);
    assert(none.push(Some(y2)) =~= seq![Some(y2)]);
    if p < n + 5 {
        if p == n + 0 {
            lemma_with_target(blank(), None, Some(x1), symbol);
            if symbol == None::<char> {
                lemma_edge_by_targets(all, p, symbol, q, seq![Some(x1)]);
            } else {
                lemma_edge_by_targets(all, p, symbol, q, none);
            }
        } else if p == n + 1 {
            lemma_with_target(blank(), Some(a), Some(y1), symbol);
            lemma_with_target(blank(), Some(a), Some(y1), None);
            lemma_with_target(one_way(Some(a), y1), None, Some(y1), symbol);
            if symbol == None::<char> || symbol == Some(a) {
                lemma_edge_by_targets(all, p, symbol, q, seq![Some(y1)]);
            } else {
                lemma_edge_by_targets(all, p, symbol, q, none);
            }
        } else if p == n + 2 {
            lemma_with_target(blank(), None, Some(x1), symbol);
            lemma_with_target(one_way(None, x1), None, Some(x2), symbol);
            if symbol == None::<char> {
                assert(seq![Some(x1)].push(Some(x2)) =~= seq![Some(x1), Some(x2)]);
                lemma_edge_by_targets(all, p, symbol, q, seq![Some(x1), Some(x2)]);
            } else {
                lemma_edge_by_targets(all, p, symbol, q, none);
            }
        } else if p == n + 3 {
            lemma_with_target(blank(), Some(b), Some(y2), symbol);
            lemma_with_target(blank(), Some(b), Some(y2), None);
            lemma_with_target(one_way(Some(b), y2), None, Some(y2), symbol);
            if symbol == None::<char> || symbol == Some(b) {
                lemma_edge_by_targets(all, p, symbol, q, seq![Some(y2)]);
            } else {
                lemma_edge_by_targets(all, p, symbol, q, none);
            }
        } else {
            lemma_with_target(blank(), None, Some(x2), symbol);
            assert(all[p].targets_on(symbol) == one_way(None, x2).targets_on(symbol));
            if symbol == None::<char> {
                lemma_edge_by_targets(all, p, symbol, q, seq![Some(x2)]);
            } else {
                lemma_edge_by_targets(all, p, symbol, q, none);
            }
        }
    }
}

/// Every letter of `word` is `a`.
pub open spec fn all_of(word: Seq<char>, a: char) -> bool {
    forall|k: int| 0 <= k < word.len() ==> #[trigger] word[k] == a
}

/// The first `i` letters of `word` are `a`, and the others are `b`.
pub open spec fn turns_at(word: Seq<char>, a: char, b: char, i: int) -> bool {
    &&& 0 <= i <= word.len()
    &&& forall|k: int| 0 <= k < i ==> #[trigger] word[k] == a
    &&& forall|k: int| i <= k < word.len() ==> #[trigger] word[k] == b
}

/// `word` is some letters `a`, perhaps none, followed by some letters `b`,
/// perhaps none: what `a*b*` stands for.
pub open spec fn first_then_second(word: Seq<char>, a: char, b: char) -> bool {
    exists|i: int| turns_at(word, a, b, i)
}

/// A word of letters `a` with one more letter is one again exactly if that letter
/// is `a`; and letters `a` followed by letters `b`, with one more letter, are
/// that again exactly if the letter is `b`, or all are `a`.
pub proof fn lemma_one_more_letter(word: Seq<char>, a: char, b: char)
    requires
        word.len() > 0,
    ensures
        all_of(word, a) <==> all_of(word.drop_last(), a) && word.last() == a,
        first_then_second(word, a, b) <==> (all_of(word.drop_last(), a) && word.last() == a) || (first_then_second(
            word.drop_last(),
            a,
            b,
        ) && word.last() == b),
{
    let shorter = word.drop_last();
    let x = word.last();
    assert(forall|k: int| 0 <= k < shorter.len() ==> shorter[k] == word[k]);
    if all_of(shorter, a) && x == a {
        assert forall|k: int| 0 <= k < word.len() implies #[trigger] word[k] == a by {
            if k < shorter.len() {
                assert(shorter[k] == a);
            }
        }
        assert(turns_at(word, a, b, word.len() as int));
    }
    if all_of(word, a) {
        assert forall|k: int| 0 <= k < shorter.len() implies #[trigger] shorter[k] == a by {
            assert(word[k] == a);
        }
        assert(word[word.len() - 1] == a);
    }
    if first_then_second(shorter, a, b) && x == b {
        let i = choose|i: int| turns_at(shorter, a, b, i);
        assert forall|k: int| 0 <= k < i implies #[trigger] word[k] == a by {
            assert(shorter[k] == a);
        }
        assert forall|k: int| i <= k < word.len() implies #[trigger] word[k] == b by {
            if k < shorter.len() {
                assert(shorter[k] == b);
            }
        }
        assert(turns_at(word, a, b, i));
    }
    if first_then_second(word, a, b) {
        let i = choose|i: int| turns_at(word, a, b, i);
        if i == word.len() {
            assert forall|k: int| 0 <= k < word.len() implies #[trigger] word[k] == a by {}
            assert(all_of(word, a));
        } else {
            assert(word[word.len() - 1] == b);
            assert forall|k: int| 0 <= k < i implies #[trigger] shorter[k] == a by {
                assert(word[k] == a);
            }
            assert forall|k: int| i <= k < shorter.len() implies #[trigger] shorter[k] == b by {
                assert(word[k] == b);
            }
            assert(turns_at(shorter, a, b, i));
        }
    }
}

/// The states the automaton of `a*b*` may be in after `word`, counted from `n`:
/// the state it starts in before anything is read, the states of the first
/// starred letter as long as all that was read is `a`, and those of the second
/// as long as what was read is letters `a` followed by letters `b`.
pub open spec fn two_stars_after(n: int, a: char, b: char, word: Seq<char>) -> Set<int> {
    Set::new(
        |q: int|
            {
                ||| q == n + 0 && word.len() == 0
                ||| (q == n + 1 || q == n + 2) && all_of(word, a)
                ||| (q == n + 3 || q == n + 4) && first_then_second(word, a, b)
            },
    )
}

/// After any word the automaton of `a*b*` may be in the states of
/// `two_stars_after`.
pub proof fn lemma_two_stars_after(states: Seq<StateView>, a: char, b: char, word: Seq<char>)
    requires
        states.len() + 5 <= usize::MAX,
    ensures
        states_after(two_stars_states(states, a, b), states.len() as int, word) == two_stars_after(
            states.len() as int,
            a,
            b,
            word,
        ),
    decreases word.len(),
{
    let n = states.len() as int;
    let all = two_stars_states(states, a, b);
    let goal = two_stars_after(n, a, b, word);
    lemma_two_stars_states(states, a, b);
    assert forall|p: int, symbol: Option<char>, q: int| n <= p implies #[trigger] edge(all, p, symbol, q) == two_stars_edge(
        a,
        b,
        p - n,
        symbol,
        q - n,
    ) by {
        lemma_two_stars_edges(states, a, b, p, symbol, q);
    }
    assert(edge(all, n + 0, None, n + 1));
    assert(edge(all, n + 1, None, n + 2));
    assert(edge(all, n + 2, None, n + 1));
    assert(edge(all, n + 2, None, n + 3));
    assert(edge(all, n + 3, None, n + 4));
    assert(edge(all, n + 4, None, n + 3));
    if word.len() == 0 {
        let seed = set![n];
        assert(all_of(word, a));
        assert(turns_at(word, a, b, 0));
        assert forall|m: int, t: int| goal.contains(m) && #[trigger] edge(all, m, None, t) implies goal.contains(t) by {
            assert(two_stars_edge(a, b, m - n, None, t - n));
        }
        lemma_closure_least(all, seed, goal);
        lemma_closure_holds_seed(all, seed, n + 0);
        lemma_closure_closed(all, seed, n + 0, n + 1);
        lemma_closure_closed(all, seed, n + 1, n + 2);
        lemma_closure_closed(all, seed, n + 2, n + 3);
        lemma_closure_closed(all, seed, n + 3, n + 4);
        assert(eps_closure(all, seed) =~= goal);
    } else {
        let shorter = word.drop_last();
        let x = word.last();
        lemma_two_stars_after(states, a, b, shorter);
        lemma_one_more_letter(word, a, b);
        let before = two_stars_after(n, a, b, shorter);
        let moved = move_on(all, before, x);
        assert forall|q: int| moved.contains(q) implies goal.contains(q) && 0 <= q < all.len() by {
            let p = choose|p: int| before.contains(p) && #[trigger] edge(all, p, Some(x), q);
            assert(two_stars_edge(a, b, p - n, Some(x), q - n));
        }
        assert forall|m: int, t: int| goal.contains(m) && #[trigger] edge(all, m, None, t) implies goal.contains(t) by {
            assert(two_stars_edge(a, b, m - n, None, t - n));
            if all_of(word, a) {
                assert(turns_at(word, a, b, word.len() as int));
            }
        }
        lemma_closure_least(all, moved, goal);
        if all_of(word, a) {
            assert(before.contains(n + 1));
            assert(edge(all, n + 1, Some(x), n + 2));
            assert(moved.contains(n + 2));
            lemma_closure_holds_seed(all, moved, n + 2);
            lemma_closure_closed(all, moved, n + 2, n + 1);
            lemma_closure_closed(all, moved, n + 2, n + 3);
            lemma_closure_closed(all, moved, n + 3, n + 4);
        } else if first_then_second(word, a, b) {
            assert(before.contains(n + 3));
            assert(edge(all, n + 3, Some(x), n + 4));
            assert(moved.contains(n + 4));
            lemma_closure_holds_seed(all, moved, n + 4);
            lemma_closure_closed(all, moved, n + 4, n + 3);
        }
        assert(eps_closure(all, moved) =~= goal);
    }
}

/// For all letters `a` and `b`, the automaton that `a*b*` builds, behind whatever
/// states are there, accepts the words that are letters `a` followed by letters
/// `b`, and no other input. So it accepts the empty word, `a`, `b` and `aab`,
/// and where the letters differ it refuses `ba`: what stands side by side in a
/// pattern is matched one after the other.
pub proof fn lemma_concatenation_of_two_stars(states: Seq<StateView>, a: char, b: char, word: Seq<char>)
    requires
        !is_operator(a),
        !is_operator(b),
        states.len() + 5 <= usize::MAX,
    ensures
        thompson_regex(states, two_stars(a, b)).out is Ok,
        nfa_accepts(
            thompson_regex(states, two_stars(a, b)).states,
            thompson_regex(states, two_stars(a, b)).out->Ok_0.entry() as int,
            word,
        ) <==> first_then_second(word, a, b),
        a != b ==> !nfa_accepts(
            thompson_regex(states, two_stars(a, b)).states,
            thompson_regex(states, two_stars(a, b)).out->Ok_0.entry() as int,
            seq![b, a],
        ),
{
    let n = states.len() as int;
    let all = two_stars_states(states, a, b);
    lemma_two_stars_built(states, a, b);
    lemma_two_stars_states(states, a, b);
    lemma_two_stars_accepts(states, a, b, word);
    lemma_two_stars_accepts(states, a, b, seq![b, a]);
    if a != b && first_then_second(seq![b, a], a, b) {
        let i = choose|i: int| turns_at(seq![b, a], a, b, i);
        if i >= 1 {
            assert(seq![b, a][0] == a);
        } else {
            assert(seq![b, a][1] == b);
        }
    }
}

/// The automaton of `a*b*` accepts a word exactly if it is letters `a` followed
/// by letters `b`.
pub proof fn lemma_two_stars_accepts(states: Seq<StateView>, a: char, b: char, word: Seq<char>)
    requires
        states.len() + 5 <= usize::MAX,
    ensures
        nfa_accepts(two_stars_states(states, a, b), states.len() as int, word) <==> first_then_second(word, a, b),
{
    let n = states.len() as int;
    let all = two_stars_states(states, a, b);
    lemma_two_stars_states(states, a, b);
    lemma_two_stars_after(states, a, b, word);
    let after = two_stars_after(n, a, b, word);
    assert(!blank().accept);
    if any_accepting(all, after) {
        let q = choose|q: int| 0 <= q < all.len() && #[trigger] after.contains(q) && all[q].accept;
        assert(q == n + 4);
    }
    if first_then_second(word, a, b) {
        assert(after.contains(n + 4));
        assert(all[n + 4].accept);
    }
}

} // verus!
