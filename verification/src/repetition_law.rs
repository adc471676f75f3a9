//! The automaton of a starred group that ends in a starred letter, and the
//! inputs it accepts: the group any number of times, and nothing else.

use crate::alternation_law::{nth, one_way};
use crate::concatenation_law::{lemma_edge_by_targets, lemma_one_star, lemma_with_target, starred};
use crate::nfa::{
    any_accepting, edge, eps_closure, lemma_closure_closed, lemma_closure_holds_seed,
    lemma_closure_least, move_on, nfa_accepts, states_after, StateView,
};
use crate::regex::{
    accepting, blank, closed, is_operator, is_quantifier, link, thompson_base,
    thompson_concat, thompson_concat_from, thompson_group, thompson_regex, with_target, Built,
    Fragment, ParseError,
};
use vstd::prelude::*;

verus! {

/// The pattern `(ab*)*` for letters `a` and `b`.
pub open spec fn starred_group(a: char, b: char) -> Seq<char> {
    seq!['(', a, b, '*', ')', '*']
}

/// What `(ab*)*` makes of `states`: behind them a state to start in, a state
/// where the group is entered, one behind the letter `a`, the two of the starred
/// letter `b`, and one through which the group is left, which accepts.
pub open spec fn starred_group_states(states: Seq<StateView>, a: char, b: char) -> Seq<StateView> {
    let s0 = states.push(blank());
    let t0 = s0.push(blank());
    let t1 = link(t0.push(blank()), nth(states, 1), Some(a), nth(states, 2));
    let t2 = starred(t1, nth(states, 2), nth(states, 3), nth(states, 4), b);
    let left = link(link(t2.push(blank()), nth(states, 0), None, nth(states, 1)), nth(states, 4), None, nth(states, 5));
    let turned = link(link(left, nth(states, 5), None, nth(states, 1)), nth(states, 1), None, nth(states, 5));
    accepting(turned, nth(states, 5))
}

/// `(ab*)*` builds the states of `starred_group_states`, entered at the first of
/// the new states and left at the sixth.
pub proof fn lemma_starred_group_built(states: Seq<StateView>, a: char, b: char)
    requires
        !is_operator(a),
        !is_operator(b),
        states.len() + 6 <= usize::MAX,
    ensures
        thompson_regex(states, starred_group(a, b)).states == starred_group_states(states, a, b),
        thompson_regex(states, starred_group(a, b)).out == Ok::<Fragment, ParseError>(
            Fragment::NonEmpty(nth(states, 0), nth(states, 5)),
        ),
{
    reveal_with_fuel(thompson_concat_from, 4);
    reveal_with_fuel(thompson_base, 3);
    reveal_with_fuel(thompson_concat, 3);
    reveal_with_fuel(thompson_group, 3);
    let pattern = starred_group(a, b);
    let f = nth(states, 0);
    let g = nth(states, 1);
    let one = nth(states, 2);
    let x = nth(states, 3);
    let y = nth(states, 4);
    let z = nth(states, 5);
    let s0 = states.push(blank());
    let t0 = s0.push(blank());
    let t1 = link(t0.push(blank()), g, Some(a), one);
    let made = link(link(t1.push(blank()).push(blank()), one, None, x), x, Some(b), y);
    let t2 = starred(t1, one, x, y, b);
    let left = link(link(t2.push(blank()), f, None, g), y, None, z);
    let turned = link(link(left, z, None, g), g, None, z);

    assert(!is_quantifier(pattern[2]));
    assert(thompson_base(t0, pattern, 1, g) == (Built { states: t1, pos: 2, out: Ok::<usize, ParseError>(one) }));
    assert(t1.len() == states.len() + 3);
    assert(is_quantifier(pattern[3]));
    assert(!is_quantifier(pattern[4]));
    lemma_one_star(made, pattern, 3, x, y);
    assert(thompson_base(t1, pattern, 2, one) == (Built { states: t2, pos: 4, out: Ok::<usize, ParseError>(y) }));
    assert(thompson_concat_from(t2, pattern, 4, g, y, true) == (Built {
        states: t2,
        pos: 4,
        out: Ok::<Fragment, ParseError>(Fragment::NonEmpty(g, y)),
    }));
    assert(thompson_concat_from(t1, pattern, 2, g, one, true) == thompson_concat_from(t2, pattern, 4, g, y, true));
    assert(thompson_concat_from(t0, pattern, 1, g, g, false) == thompson_concat_from(t1, pattern, 2, g, one, true));
    let inner_concat = thompson_concat(s0, pattern, 1);
    assert(inner_concat == (Built { states: t2, pos: 4, out: Ok::<Fragment, ParseError>(Fragment::NonEmpty(g, y)) }));
    let inner = thompson_group(s0, pattern, 1, false);
    assert(inner == closed(t2, pattern, 4, false, Fragment::NonEmpty(g, y)));
    assert(inner == (Built { states: t2, pos: 5, out: Ok::<Fragment, ParseError>(Fragment::NonEmpty(g, y)) }));
    assert(t2.len() == states.len() + 5);
    assert(is_quantifier(pattern[5]));
    lemma_one_star(left, pattern, 5, g, z);
    assert(thompson_base(s0, pattern, 0, f) == (Built { states: turned, pos: 6, out: Ok::<usize, ParseError>(z) }));
    assert(thompson_concat_from(turned, pattern, 6, f, z, true) == (Built {
        states: turned,
        pos: 6,
        out: Ok::<Fragment, ParseError>(Fragment::NonEmpty(f, z)),
    }));
    assert(thompson_concat_from(s0, pattern, 0, f, f, false) == thompson_concat_from(turned, pattern, 6, f, z, true));
    let head = thompson_concat(states, pattern, 0);
    assert(head == (Built { states: turned, pos: 6, out: Ok::<Fragment, ParseError>(Fragment::NonEmpty(f, z)) }));
    let group = thompson_group(states, pattern, 0, true);
    assert(group == closed(turned, pattern, 6, true, Fragment::NonEmpty(f, z)));
}

/// The six states of `(ab*)*`, one by one.
pub proof fn lemma_starred_group_states(states: Seq<StateView>, a: char, b: char)
    requires
        states.len() + 6 <= usize::MAX,
    ensures
        starred_group_states(states, a, b).len() == states.len() + 6,
        starred_group_states(states, a, b)[states.len() as int + 0] == one_way(None, nth(states, 1)),
        starred_group_states(states, a, b)[states.len() as int + 1] == with_target(
            one_way(Some(a), nth(states, 2)),
            None,
            Some(nth(states, 5)),
        ),
        starred_group_states(states, a, b)[states.len() as int + 2] == one_way(None, nth(states, 3)),
        starred_group_states(states, a, b)[states.len() as int + 3] == with_target(
            one_way(Some(b), nth(states, 4)),
            None,
            Some(nth(states, 4)),
        ),
        starred_group_states(states, a, b)[states.len() as int + 4] == with_target(
            one_way(None, nth(states, 3)),
            None,
            Some(nth(states, 5)),
        ),
        starred_group_states(states, a, b)[states.len() as int + 5] == (StateView {
            accept: true,
            transitions: one_way(None, nth(states, 1)).transitions,
        }),
{
    let n = states.len() as int;
    let f = nth(states, 0);
    let g = nth(states, 1);
    let one = nth(states, 2);
    let x = nth(states, 3);
    let y = nth(states, 4);
    let z = nth(states, 5);
    let t0 = states.push(blank()).push(blank());
    let t1 = link(t0.push(blank()), g, Some(a), one);
    assert(t1.len() == n + 3 && t1[n + 0] == blank() && t1[n + 1] == one_way(Some(a), one) && t1[n + 2] == blank());
    let wider = t1.push(blank()).push(blank());
    let b1 = link(wider, one, None, x);
    let b2 = link(b1, x, Some(b), y);
    let b3 = link(b2, y, None, x);
    let t2 = link(b3, x, None, y);
    assert(t2 == starred(t1, one, x, y, b));
    assert(b1.len() == n + 5 && b1[n + 0] == blank() && b1[n + 1] == t1[n + 1] && b1[n + 2] == one_way(None, x) && b1[n
        + 3] == blank() && b1[n + 4] == blank());
    assert(b2.len() == n + 5 && b2[n + 0] == blank() && b2[n + 1] == b1[n + 1] && b2[n + 2] == b1[n + 2] && b2[n + 3]
        == one_way(Some(b), y) && b2[n + 4] == blank());
    assert(b3.len() == n + 5 && b3[n + 0] == blank() && b3[n + 1] == b2[n + 1] && b3[n + 2] == b2[n + 2] && b3[n + 3]
        == b2[n + 3] && b3[n + 4] == one_way(None, x));
    assert(t2.len() == n + 5 && t2[n + 0] == blank() && t2[n + 1] == b3[n + 1] && t2[n + 2] == b3[n + 2] && t2[n + 3]
        == with_target(one_way(Some(b), y), None, Some(y)) && t2[n + 4] == b3[n + 4]);
    let widest = t2.push(blank());
    let c1 = link(widest, f, None, g);
    let c2 = link(c1, y, None, z);
    let c3 = link(c2, z, None, g);
    let c4 = link(c3, g, None, z);
    assert(c1.len() == n + 6 && c1[n + 0] == one_way(None, g) && c1[n + 1] == t2[n + 1] && c1[n + 2] == t2[n + 2] && c1[n
        + 3] == t2[n + 3] && c1[n + 4] == t2[n + 4] && c1[n + 5] == blank());
    assert(c2.len() == n + 6 && c2[n + 0] == c1[n + 0] && c2[n + 1] == c1[n + 1] && c2[n + 2] == c1[n + 2] && c2[n + 3]
        == c1[n + 3] && c2[n + 4] == with_target(one_way(None, x), None, Some(z)) && c2[n + 5] == blank());
    assert(c3.len() == n + 6 && c3[n + 0] == c2[n + 0] && c3[n + 1] == c2[n + 1] && c3[n + 2] == c2[n + 2] && c3[n + 3]
        == c2[n + 3] && c3[n + 4] == c2[n + 4] && c3[n + 5] == one_way(None, g));
    assert(c4.len() == n + 6 && c4[n + 0] == c3[n + 0] && c4[n + 1] == with_target(one_way(Some(a), one), None, Some(z))
        && c4[n + 2] == c3[n + 2] && c4[n + 3] == c3[n + 3] && c4[n + 4] == c3[n + 4] && c4[n + 5] == c3[n + 5]);
}

/// The transitions of the automaton of `(ab*)*`, its states counted from the
/// first that was made.
pub open spec fn starred_group_edge(a: char, b: char, p: int, symbol: Option<char>, q: int) -> bool {
    ||| p == 0 && symbol == None::<char> && q == 1
    ||| p == 1 && symbol == Some(a) && q == 2
    ||| p == 1 && symbol == None::<char> && q == 5
    ||| p == 2 && symbol == None::<char> && q == 3
    ||| p == 3 && (symbol == Some(b) || symbol == None::<char>) && q == 4
    ||| p == 4 && symbol == None::<char> && (q == 3 || q == 5)
    ||| p == 5 && symbol == None::<char> && q == 1
}

/// The new states of the automaton of `(ab*)*` have the transitions of
/// `starred_group_edge` and no others.
pub proof fn lemma_starred_group_edges(states: Seq<StateView>, a: char, b: char, p: int, symbol: Option<char>, q: int)
    requires
        states.len() + 6 <= usize::MAX,
        states.len() <= p,
    ensures
        edge(starred_group_states(states, a, b), p, symbol, q) == starred_group_edge(
            a,
            b,
            p - states.len(),
            symbol,
            q - states.len(),
        ),
{
    let n = states.len() as int;
    let all = starred_group_states(states, a, b);
    let g = nth(states, 1);
    let one = nth(states, 2);
    let x = nth(states, 3);
    let y = nth(states, 4);
    let z = nth(states, 5);
    let none = Seq::<Option<usize>>::empty();
    lemma_starred_group_states(states, a, b);
    assert(blank().targets_on(symbol) == none);
    assert(none.push(Some(g)) =~= seq![Some(g)]);
    assert(none.push(Some(one)) =~= seq![Some(one)]);
    assert(none.push(Some(x)) =~= seq![Some(x)]);
    assert(none.push(Some(y)) =~= seq![Some(y)]);
    assert(none.push(Some(z)) =~= seq![Some(z)]);
    if p < n + 6 {
        if p == n + 0 {
            lemma_with_target(blank(), None, Some(g), symbol);
            if symbol == None::<char> {
                lemma_edge_by_targets(all, p, symbol, q, seq![Some(g)]);
            } else {
                lemma_edge_by_targets(all, p, symbol, q, none);
            }
        } else if p == n + 1 {
            lemma_with_target(blank(), Some(a), Some(one), symbol);
            lemma_with_target(blank(), Some(a), Some(one), None);
            lemma_with_target(one_way(Some(a), one), None, Some(z), symbol);
            if symbol == None::<char> {
                lemma_edge_by_targets(all, p, symbol, q, seq![Some(z)]);
            } else if symbol == Some(a) {
                lemma_edge_by_targets(all, p, symbol, q, seq![Some(one)]);
            } else {
                lemma_edge_by_targets(all, p, symbol, q, none);
            }
        } else if p == n + 2 {
            lemma_with_target(blank(), None, Some(x), symbol);
            if symbol == None::<char> {
                lemma_edge_by_targets(all, p, symbol, q, seq![Some(x)]);
            } else {
                lemma_edge_by_targets(all, p, symbol, q, none);
            }
        } else if p == n + 3 {
            lemma_with_target(blank(), Some(b), Some(y), symbol);
            lemma_with_target(blank(), Some(b), Some(y), None);
            lemma_with_target(one_way(Some(b), y), None, Some(y), symbol);
            if symbol == None::<char> || symbol == Some(b) {
                lemma_edge_by_targets(all, p, symbol, q, seq![Some(y)]);
            } else {
                lemma_edge_by_targets(all, p, symbol, q, none);
            }
        } else if p == n + 4 {
            lemma_with_target(blank(), None, Some(x), symbol);
            lemma_with_target(one_way(None, x), None, Some(z), symbol);
            if symbol == None::<char> {
                assert(seq![Some(x)].push(Some(z)) =~= seq![Some(x), Some(z)]);
                lemma_edge_by_targets(all, p, symbol, q, seq![Some(x), Some(z)]);
            } else {
                lemma_edge_by_targets(all, p, symbol, q, none);
            }
        } else {
            lemma_with_target(blank(), None, Some(g), symbol);
            assert(all[p].targets_on(symbol) == one_way(None, g).targets_on(symbol));
            if symbol == None::<char> {
                lemma_edge_by_targets(all, p, symbol, q, seq![Some(g)]);
            } else {
                lemma_edge_by_targets(all, p, symbol, q, none);
            }
        }
    }
}

/// `word` is the letter `a` followed by letters `b`, perhaps none, any number of
/// times: it holds no letter but `a` and `b`, and does not begin with a letter
/// other than `a`. That is what `(ab*)*` stands for.
pub open spec fn groups_of(word: Seq<char>, a: char, b: char) -> bool {
    &&& forall|k: int| 0 <= k < word.len() ==> #[trigger] word[k] == a || word[k] == b
    &&& word.len() > 0 ==> word[0] == a
}

/// A word of such groups with one more letter is one again exactly if the letter
/// is `a`, or is `b` and not the first.
pub proof fn lemma_one_more_in_group(word: Seq<char>, a: char, b: char)
    requires
        word.len() > 0,
    ensures
        groups_of(word, a, b) <==> groups_of(word.drop_last(), a, b) && (word.last() == a || (word.last() == b
            && word.len() > 1)),
{
    let shorter = word.drop_last();
    assert(forall|k: int| 0 <= k < shorter.len() ==> shorter[k] == word[k]);
    if groups_of(word, a, b) {
        assert(word[word.len() - 1] == a || word[word.len() - 1] == b);
        assert forall|k: int| 0 <= k < shorter.len() implies #[trigger] shorter[k] == a || shorter[k] == b by {
            assert(word[k] == a || word[k] == b);
        }
    }
    if groups_of(shorter, a, b) && (word.last() == a || (word.last() == b && word.len() > 1)) {
        assert forall|k: int| 0 <= k < word.len() implies #[trigger] word[k] == a || word[k] == b by {
            if k < shorter.len() {
                assert(shorter[k] == a || shorter[k] == b);
            }
        }
        if word.len() > 1 {
            assert(shorter[0] == a);
        }
    }
}

/// The states the automaton of `(ab*)*` may be in after `word`, counted from
/// `n`.
pub open spec fn starred_group_after(n: int, a: char, b: char, word: Seq<char>) -> Set<int> {
    Set::new(
        |q: int|
            {
                ||| q == n + 0 && word.len() == 0
                ||| (q == n + 1 || q == n + 5) && groups_of(word, a, b)
                ||| (q == n + 3 || q == n + 4) && groups_of(word, a, b) && word.len() > 0
                ||| q == n + 2 && groups_of(word, a, b) && word.len() > 0 && word.last() == a
            },
    )
}

/// After any word the automaton of `(ab*)*` may be in the states of
/// `starred_group_after`.
pub proof fn lemma_starred_group_after(states: Seq<StateView>, a: char, b: char, word: Seq<char>)
    requires
        states.len() + 6 <= usize::MAX,
    ensures
        states_after(starred_group_states(states, a, b), states.len() as int, word) == starred_group_after(
            states.len() as int,
            a,
            b,
            word,
        ),
    decreases word.len(),
{
    let n = states.len() as int;
    let all = starred_group_states(states, a, b);
    let goal = starred_group_after(n, a, b, word);
    lemma_starred_group_states(states, a, b);
    assert forall|p: int, symbol: Option<char>, q: int| n <= p implies #[trigger] edge(all, p, symbol, q)
        == starred_group_edge(a, b, p - n, symbol, q - n) by {
        lemma_starred_group_edges(states, a, b, p, symbol, q);
    }
    assert(edge(all, n + 0, None, n + 1));
    assert(edge(all, n + 1, None, n + 5));
    assert(edge(all, n + 2, None, n + 3));
    assert(edge(all, n + 3, None, n + 4));
    assert(edge(all, n + 4, None, n + 3));
    assert(edge(all, n + 4, None, n + 5));
    assert(edge(all, n + 5, None, n + 1));
    assert forall|m: int, t: int| goal.contains(m) && #[trigger] edge(all, m, None, t) implies goal.contains(t) by {
        assert(starred_group_edge(a, b, m - n, None, t - n));
    }
    if word.len() == 0 {
        let seed = set![n];
        lemma_closure_least(all, seed, goal);
        lemma_closure_holds_seed(all, seed, n + 0);
        lemma_closure_closed(all, seed, n + 0, n + 1);
        lemma_closure_closed(all, seed, n + 1, n + 5);
        assert(eps_closure(all, seed) =~= goal);
    } else {
        let shorter = word.drop_last();
        let x = word.last();
        lemma_starred_group_after(states, a, b, shorter);
        lemma_one_more_in_group(word, a, b);
        let before = starred_group_after(n, a, b, shorter);
        let moved = move_on(all, before, x);
        assert forall|q: int| moved.contains(q) implies goal.contains(q) && 0 <= q < all.len() by {
            let p = choose|p: int| before.contains(p) && #[trigger] edge(all, p, Some(x), q);
            assert(starred_group_edge(a, b, p - n, Some(x), q - n));
        }
        lemma_closure_least(all, moved, goal);
        if groups_of(word, a, b) {
            if x == a {
                assert(before.contains(n + 1));
                assert(edge(all, n + 1, Some(x), n + 2));
                assert(moved.contains(n + 2));
                lemma_closure_holds_seed(all, moved, n + 2);
                lemma_closure_closed(all, moved, n + 2, n + 3);
                lemma_closure_closed(all, moved, n + 3, n + 4);
            } else {
                assert(before.contains(n + 3));
                assert(edge(all, n + 3, Some(x), n + 4));
                assert(moved.contains(n + 4));
                lemma_closure_holds_seed(all, moved, n + 4);
                lemma_closure_closed(all, moved, n + 4, n + 3);
            }
            lemma_closure_closed(all, moved, n + 4, n + 5);
            lemma_closure_closed(all, moved, n + 5, n + 1);
        }
        assert(eps_closure(all, moved) =~= goal);
    }
}

/// For all letters `a` and `b`, the automaton that `(ab*)*` builds, behind
/// whatever states are there, accepts the words made of the letter `a` followed
/// by letters `b`, any number of times, and no other input. A word that sets out
/// with `b` is refused where the letters differ: the star behind the group
/// repeats or skips the group as a whole, never its last part alone.
pub proof fn lemma_repetition_of_a_group(states: Seq<StateView>, a: char, b: char, word: Seq<char>)
    requires
        !is_operator(a),
        !is_operator(b),
        states.len() + 6 <= usize::MAX,
    ensures
        thompson_regex(states, starred_group(a, b)).out is Ok,
        nfa_accepts(
            thompson_regex(states, starred_group(a, b)).states,
            thompson_regex(states, starred_group(a, b)).out->Ok_0.entry() as int,
            word,
        ) <==> groups_of(word, a, b),
{
    let n = states.len() as int;
    let all = starred_group_states(states, a, b);
    lemma_starred_group_built(states, a, b);
    lemma_starred_group_states(states, a, b);
    lemma_starred_group_after(states, a, b, word);
    let after = starred_group_after(n, a, b, word);
    assert(!blank().accept);
    if any_accepting(all, after) {
        let q = choose|q: int| 0 <= q < all.len() && #[trigger] after.contains(q) && all[q].accept;
        assert(q == n + 5);
    }
    if groups_of(word, a, b) {
        assert(after.contains(n + 5));
        assert(all[n + 5].accept);
    }
}

} // verus!
