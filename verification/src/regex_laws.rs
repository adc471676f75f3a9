//! What holds of every automaton that the construction builds.

use crate::nfa::{nfa_accepts, StateView};
use crate::regex::{
    accepting, asks_cycle, asks_skip, attached, blank, closed, is_operator, is_quantifier, link,
    quantified, quantifiers_end, thompson_base, thompson_branches, thompson_concat,
    thompson_concat_from, thompson_group, thompson_regex, Built, Fragment, ParseError,
};
use vstd::prelude::*;

verus! {

/// `after` has come from `before` by adding states that do not accept and by
/// adding transitions to states from `lo` on: the states below `lo` are as they
/// were, and no state has changed whether it accepts.
pub open spec fn grown(before: Seq<StateView>, after: Seq<StateView>, lo: int) -> bool {
    &&& before.len() <= after.len()
    &&& forall|q: int| 0 <= q < lo && q < before.len() ==> #[trigger] after[q] == before[q]
    &&& forall|q: int| 0 <= q < before.len() ==> (#[trigger] after[q]).accept == before[q].accept
    &&& forall|q: int| before.len() <= q < after.len() ==> !(#[trigger] after[q]).accept
}

/// Growing twice is growing.
pub proof fn lemma_grown_twice(a: Seq<StateView>, b: Seq<StateView>, c: Seq<StateView>, lo: int)
    requires
        grown(a, b, lo),
        grown(b, c, lo),
    ensures
        grown(a, c, lo),
{
    assert forall|q: int| 0 <= q < lo && q < a.len() implies #[trigger] c[q] == a[q] by {
        assert(b[q] == a[q]);
    }
    assert forall|q: int| 0 <= q < a.len() implies (#[trigger] c[q]).accept == a[q].accept by {
        assert(b[q].accept == a[q].accept);
    }
    assert forall|q: int| a.len() <= q < c.len() implies !(#[trigger] c[q]).accept by {
        if q < b.len() {
            assert(!b[q].accept);
            assert(c[q].accept == b[q].accept);
        }
    }
}

/// A transition added to a state from `lo` on grows the states.
pub proof fn lemma_link_grows(states: Seq<StateView>, from: usize, symbol: Option<char>, to: usize, lo: int)
    requires
        lo <= from,
    ensures
        grown(states, link(states, from, symbol, to), lo),
{
}

/// The quantifiers of a base leave the position at or behind where they began.
pub proof fn lemma_quantifiers_end(pattern: Seq<char>, pos: int)
    ensures
        pos <= quantifiers_end(pattern, pos),
        quantifiers_end(pattern, pos) <= pattern.len() || quantifiers_end(pattern, pos) == pos,
    decreases pattern.len() - pos,
{
    if 0 <= pos < pattern.len() && is_quantifier(pattern[pos]) {
        lemma_quantifiers_end(pattern, pos + 1);
    }
}

/// Quantifiers add no state and take none away.
pub proof fn lemma_quantified_len(states: Seq<StateView>, pattern: Seq<char>, pos: int, start: usize, end: usize)
    ensures
        quantified(states, pattern, pos, start, end).states.len() == states.len(),
{
}

/// Quantifiers applied to a fragment whose ends are from `lo` on grow the states.
pub proof fn lemma_quantified_grows(states: Seq<StateView>, pattern: Seq<char>, pos: int, start: usize, end: usize, lo: int)
    requires
        lo <= start,
        lo <= end,
    ensures
        grown(states, quantified(states, pattern, pos, start, end).states, lo),
        quantified(states, pattern, pos, start, end).states.len() == states.len(),
        quantified(states, pattern, pos, start, end).out == Ok::<usize, ParseError>(end),
{
    let stop = quantifiers_end(pattern, pos);
    let cycled = if asks_cycle(pattern, pos, stop) {
        link(states, end, None, start)
    } else {
        states
    };
    lemma_link_grows(states, end, None, start, lo);
    lemma_link_grows(cycled, start, None, end, lo);
    lemma_grown_twice(states, cycled, quantified(states, pattern, pos, start, end).states, lo);
}

/// A branch hung between two states, all its ends from `lo` on, grows the states.
pub proof fn lemma_attached_grows(states: Seq<StateView>, union_start: usize, union_end: usize, branch: Fragment, lo: int)
    requires
        lo <= union_start,
        lo <= branch.exit(),
    ensures
        grown(states, attached(states, union_start, union_end, branch), lo),
        attached(states, union_start, union_end, branch).len() == states.len(),
{
    match branch {
        Fragment::NonEmpty(start, end) => {
            let first = link(states, union_start, None, start);
            lemma_link_grows(states, union_start, None, start, lo);
            lemma_link_grows(first, end, None, union_end, lo);
            lemma_grown_twice(states, first, link(first, end, None, union_end), lo);
        },
        Fragment::Empty(_) => {
            lemma_link_grows(states, union_start, None, union_end, lo);
        },
    }
}

/// What a base builds grows the states, with nothing changed below `lo` where
/// the state it is entered at is from `lo` on; and the state where it is left is
/// from `lo` on and exists.
pub proof fn lemma_base_grows(states: Seq<StateView>, pattern: Seq<char>, pos: int, cur: usize, lo: int)
    requires
        0 <= lo <= cur < states.len(),
        thompson_base(states, pattern, pos, cur).states.len() <= usize::MAX,
    ensures
        grown(states, thompson_base(states, pattern, pos, cur).states, lo),
        thompson_base(states, pattern, pos, cur).out is Ok ==> {
            &&& lo <= thompson_base(states, pattern, pos, cur).out->Ok_0 < thompson_base(states, pattern, pos, cur).states.len()
            &&& pos < thompson_base(states, pattern, pos, cur).pos
        },
    decreases pattern.len() - pos, 0int,
{
    if pos < 0 || pos >= pattern.len() {
    } else if pattern[pos] == '(' {
        let inner = thompson_group(states, pattern, pos + 1, false);
        match inner.out {
            Err(e) => {
                lemma_group_grows(states, pattern, pos + 1, false);
            },
            Ok(Fragment::NonEmpty(start, end)) => {
                if 0 <= inner.pos < pattern.len() && is_quantifier(pattern[inner.pos]) {
                    let exit = inner.states.len() as usize;
                    let pushed = inner.states.push(blank());
                    let entered = link(pushed, cur, None, start);
                    let linked = link(entered, end, None, exit);
                    lemma_quantified_len(linked, pattern, inner.pos, start, exit);
                    lemma_group_grows(states, pattern, pos + 1, false);
                    lemma_quantified_grows(linked, pattern, inner.pos, start, exit, lo);
                    lemma_link_grows(pushed, cur, None, start, lo);
                    lemma_link_grows(entered, end, None, exit, lo);
                    assert(grown(inner.states, pushed, lo));
                    lemma_grown_twice(states, inner.states, pushed, lo);
                    lemma_grown_twice(states, pushed, entered, lo);
                    lemma_grown_twice(states, entered, linked, lo);
                    lemma_grown_twice(states, linked, quantified(linked, pattern, inner.pos, start, exit).states, lo);
                    lemma_quantifiers_end(pattern, inner.pos);
                } else {
                    lemma_group_grows(states, pattern, pos + 1, false);
                    lemma_link_grows(inner.states, cur, None, start, lo);
                    lemma_grown_twice(states, inner.states, link(inner.states, cur, None, start), lo);
                }
            },
            Ok(Fragment::Empty(state)) => {
                if 0 <= inner.pos < pattern.len() && is_quantifier(pattern[inner.pos]) {
                    lemma_group_grows(states, pattern, pos + 1, false);
                } else {
                    lemma_group_grows(states, pattern, pos + 1, false);
                    lemma_link_grows(inner.states, cur, None, state, lo);
                    lemma_grown_twice(states, inner.states, link(inner.states, cur, None, state), lo);
                }
            },
        }
    } else if is_operator(pattern[pos]) {
    } else if pos + 1 < pattern.len() && is_quantifier(pattern[pos + 1]) {
        let entry = states.len() as usize;
        let end = (states.len() + 1) as usize;
        let pushed = states.push(blank()).push(blank());
        let entered = link(pushed, cur, None, entry);
        let linked = link(entered, entry, Some(pattern[pos]), end);
        lemma_quantified_len(linked, pattern, pos + 1, entry, end);
        lemma_quantified_grows(linked, pattern, pos + 1, entry, end, lo);
        lemma_link_grows(pushed, cur, None, entry, lo);
        lemma_link_grows(entered, entry, Some(pattern[pos]), end, lo);
        assert(grown(states, pushed, lo));
        lemma_grown_twice(states, pushed, entered, lo);
        lemma_grown_twice(states, entered, linked, lo);
        lemma_grown_twice(states, linked, quantified(linked, pattern, pos + 1, entry, end).states, lo);
        lemma_quantifiers_end(pattern, pos + 1);
    } else {
        let end = states.len() as usize;
        let pushed = states.push(blank());
        lemma_link_grows(pushed, cur, Some(pattern[pos]), end, lo);
        assert(grown(states, pushed, lo));
        lemma_grown_twice(states, pushed, link(pushed, cur, Some(pattern[pos]), end), lo);
    }
}

/// What the rest of a concatenation builds grows the states, with nothing
/// changed below `lo` where the states it has come through are from `lo` on.
pub proof fn lemma_concat_from_grows(
    states: Seq<StateView>,
    pattern: Seq<char>,
    pos: int,
    first: usize,
    cur: usize,
    any: bool,
    lo: int,
)
    requires
        0 <= lo <= first < states.len(),
        lo <= cur < states.len(),
        !any ==> cur == first,
        thompson_concat_from(states, pattern, pos, first, cur, any).states.len() <= usize::MAX,
    ensures
        grown(states, thompson_concat_from(states, pattern, pos, first, cur, any).states, lo),
        thompson_concat_from(states, pattern, pos, first, cur, any).out is Ok ==> {
            &&& thompson_concat_from(states, pattern, pos, first, cur, any).out->Ok_0.entry() == first
            &&& lo <= thompson_concat_from(states, pattern, pos, first, cur, any).out->Ok_0.exit()
                < thompson_concat_from(states, pattern, pos, first, cur, any).states.len()
            &&& pos <= thompson_concat_from(states, pattern, pos, first, cur, any).pos
        },
    decreases pattern.len() - pos, 1int,
{
    if pos < 0 || pos >= pattern.len() || pattern[pos] == ')' || pattern[pos] == '|' {
    } else {
        let base = thompson_base(states, pattern, pos, cur);
        lemma_base_len(states, pattern, pos, cur);
        match base.out {
            Err(e) => {
                lemma_base_grows(states, pattern, pos, cur, lo);
            },
            Ok(end) => {
                if pos < base.pos <= pattern.len() {
                    lemma_concat_from_len(base.states, pattern, base.pos, first, end, true);
                    lemma_base_grows(states, pattern, pos, cur, lo);
                    lemma_concat_from_grows(base.states, pattern, base.pos, first, end, true, lo);
                    lemma_grown_twice(
                        states,
                        base.states,
                        thompson_concat_from(base.states, pattern, base.pos, first, end, true).states,
                        lo,
                    );
                } else {
                    lemma_base_grows(states, pattern, pos, cur, lo);
                }
            },
        }
    }
}

/// What a concatenation builds grows the states and changes none of them; its
/// ends are new states.
pub proof fn lemma_concat_grows(states: Seq<StateView>, pattern: Seq<char>, pos: int)
    requires
        thompson_concat(states, pattern, pos).states.len() <= usize::MAX,
    ensures
        grown(states, thompson_concat(states, pattern, pos).states, states.len() as int),
        thompson_concat(states, pattern, pos).out is Ok ==> {
            &&& states.len() <= thompson_concat(states, pattern, pos).out->Ok_0.entry() < thompson_concat(
                states,
                pattern,
                pos,
            ).states.len()
            &&& states.len() <= thompson_concat(states, pattern, pos).out->Ok_0.exit() < thompson_concat(
                states,
                pattern,
                pos,
            ).states.len()
            &&& pos <= thompson_concat(states, pattern, pos).pos
        },
    decreases pattern.len() - pos, 2int,
{
    let first = states.len() as usize;
    let pushed = states.push(blank());
    lemma_concat_from_len(pushed, pattern, pos, first, first, false);
    lemma_concat_from_grows(pushed, pattern, pos, first, first, false, states.len() as int);
    assert(grown(states, pushed, states.len() as int));
    lemma_grown_twice(states, pushed, thompson_concat(states, pattern, pos).states, states.len() as int);
}

/// What the branches of an alternation build grows the states, with nothing
/// changed below `lo` where the alternation's first state is from `lo` on.
pub proof fn lemma_branches_grows(
    states: Seq<StateView>,
    pattern: Seq<char>,
    pos: int,
    union_start: usize,
    union_end: usize,
    lo: int,
)
    requires
        0 <= lo <= union_start < states.len(),
        thompson_branches(states, pattern, pos, union_start, union_end).states.len() <= usize::MAX,
    ensures
        grown(states, thompson_branches(states, pattern, pos, union_start, union_end).states, lo),
        thompson_branches(states, pattern, pos, union_start, union_end).out is Ok ==> pos <= thompson_branches(
            states,
            pattern,
            pos,
            union_start,
            union_end,
        ).pos,
    decreases pattern.len() - pos, 3int,
{
    if pos < 0 || pos >= pattern.len() {
    } else {
        let branch = thompson_concat(states, pattern, pos + 1);
        lemma_concat_len(states, pattern, pos + 1);
        match branch.out {
            Err(e) => {
                lemma_concat_grows(states, pattern, pos + 1);
            },
            Ok(fragment) => {
                let hung = attached(branch.states, union_start, union_end, fragment);
                if pos < branch.pos < pattern.len() && pattern[branch.pos] == '|' {
                    lemma_branches_len(hung, pattern, branch.pos, union_start, union_end);
                }
                lemma_concat_grows(states, pattern, pos + 1);
                lemma_attached_grows(branch.states, union_start, union_end, fragment, lo);
                lemma_grown_twice(states, branch.states, hung, lo);
                if pos < branch.pos < pattern.len() && pattern[branch.pos] == '|' {
                    lemma_branches_grows(hung, pattern, branch.pos, union_start, union_end, lo);
                    lemma_grown_twice(
                        states,
                        hung,
                        thompson_branches(hung, pattern, branch.pos, union_start, union_end).states,
                        lo,
                    );
                }
            },
        }
    }
}

/// What a group builds grows the states and changes none of them; its ends are
/// new states.
pub proof fn lemma_group_grows(states: Seq<StateView>, pattern: Seq<char>, pos: int, outermost: bool)
    requires
        thompson_group(states, pattern, pos, outermost).states.len() <= usize::MAX,
    ensures
        grown(states, thompson_group(states, pattern, pos, outermost).states, states.len() as int),
        thompson_group(states, pattern, pos, outermost).out is Ok ==> {
            &&& states.len() <= thompson_group(states, pattern, pos, outermost).out->Ok_0.entry() < thompson_group(
                states,
                pattern,
                pos,
                outermost,
            ).states.len()
            &&& states.len() <= thompson_group(states, pattern, pos, outermost).out->Ok_0.exit() < thompson_group(
                states,
                pattern,
                pos,
                outermost,
            ).states.len()
            &&& pos <= thompson_group(states, pattern, pos, outermost).pos
        },
    decreases pattern.len() - pos, 4int,
{
    let lo = states.len() as int;
    let head = thompson_concat(states, pattern, pos);
    lemma_concat_len(states, pattern, pos);
    match head.out {
        Err(e) => {
            lemma_concat_grows(states, pattern, pos);
        },
        Ok(fragment) => {
            if 0 <= pos <= head.pos < pattern.len() && pattern[head.pos] == '|' {
                let union_start = head.states.len() as usize;
                let union_end = (head.states.len() + 1) as usize;
                let pushed = head.states.push(blank()).push(blank());
                let hung = attached(pushed, union_start, union_end, fragment);
                let rest = thompson_branches(hung, pattern, head.pos, union_start, union_end);
                lemma_branches_len(hung, pattern, head.pos, union_start, union_end);
                lemma_concat_grows(states, pattern, pos);
                assert(grown(head.states, pushed, lo));
                lemma_attached_grows(pushed, union_start, union_end, fragment, lo);
                lemma_grown_twice(states, head.states, pushed, lo);
                lemma_grown_twice(states, pushed, hung, lo);
                lemma_branches_grows(hung, pattern, head.pos, union_start, union_end, lo);
                lemma_grown_twice(states, hung, rest.states, lo);
            } else {
                lemma_concat_grows(states, pattern, pos);
            }
        },
    }
}

/// A base adds states and takes none away.
pub proof fn lemma_base_len(states: Seq<StateView>, pattern: Seq<char>, pos: int, cur: usize)
    ensures
        states.len() <= thompson_base(states, pattern, pos, cur).states.len(),
    decreases pattern.len() - pos, 0int,
{
    if pos < 0 || pos >= pattern.len() {
    } else if pattern[pos] == '(' {
        lemma_group_len(states, pattern, pos + 1, false);
    } else if is_operator(pattern[pos]) {
    } else {
    }
}

/// The rest of a concatenation adds states and takes none away.
pub proof fn lemma_concat_from_len(states: Seq<StateView>, pattern: Seq<char>, pos: int, first: usize, cur: usize, any: bool)
    ensures
        states.len() <= thompson_concat_from(states, pattern, pos, first, cur, any).states.len(),
    decreases pattern.len() - pos, 1int,
{
    if pos < 0 || pos >= pattern.len() || pattern[pos] == ')' || pattern[pos] == '|' {
    } else {
        let base = thompson_base(states, pattern, pos, cur);
        lemma_base_len(states, pattern, pos, cur);
        match base.out {
            Err(e) => {},
            Ok(end) => {
                if pos < base.pos <= pattern.len() {
                    lemma_concat_from_len(base.states, pattern, base.pos, first, end, true);
                }
            },
        }
    }
}

/// A concatenation adds states and takes none away.
pub proof fn lemma_concat_len(states: Seq<StateView>, pattern: Seq<char>, pos: int)
    ensures
        states.len() <= thompson_concat(states, pattern, pos).states.len(),
    decreases pattern.len() - pos, 2int,
{
    let first = states.len() as usize;
    lemma_concat_from_len(states.push(blank()), pattern, pos, first, first, false);
}

/// The branches of an alternation add states and take none away.
pub proof fn lemma_branches_len(states: Seq<StateView>, pattern: Seq<char>, pos: int, union_start: usize, union_end: usize)
    ensures
        states.len() <= thompson_branches(states, pattern, pos, union_start, union_end).states.len(),
    decreases pattern.len() - pos, 3int,
{
    if pos < 0 || pos >= pattern.len() {
    } else {
        let branch = thompson_concat(states, pattern, pos + 1);
        lemma_concat_len(states, pattern, pos + 1);
        match branch.out {
            Err(e) => {},
            Ok(fragment) => {
                let hung = attached(branch.states, union_start, union_end, fragment);
                if pos < branch.pos < pattern.len() && pattern[branch.pos] == '|' {
                    lemma_branches_len(hung, pattern, branch.pos, union_start, union_end);
                }
            },
        }
    }
}

/// A group adds states and takes none away.
pub proof fn lemma_group_len(states: Seq<StateView>, pattern: Seq<char>, pos: int, outermost: bool)
    ensures
        states.len() <= thompson_group(states, pattern, pos, outermost).states.len(),
    decreases pattern.len() - pos, 4int,
{
    let head = thompson_concat(states, pattern, pos);
    lemma_concat_len(states, pattern, pos);
    match head.out {
        Err(e) => {},
        Ok(fragment) => {
            if 0 <= pos <= head.pos < pattern.len() && pattern[head.pos] == '|' {
                let union_start = head.states.len() as usize;
                let union_end = (head.states.len() + 1) as usize;
                let hung = attached(head.states.push(blank()).push(blank()), union_start, union_end, fragment);
                lemma_branches_len(hung, pattern, head.pos, union_start, union_end);
            }
        },
    }
}

/// The automaton of a pattern is built behind the states that are there and
/// changes none of them, and of the states that it adds exactly one accepts:
/// the one where the outermost group is left.
pub proof fn lemma_one_accepting_state(states: Seq<StateView>, pattern: Seq<char>)
    requires
        thompson_regex(states, pattern).states.len() <= usize::MAX,
    ensures
        states.len() <= thompson_regex(states, pattern).states.len(),
        forall|q: int| 0 <= q < states.len() ==> #[trigger] thompson_regex(states, pattern).states[q] == states[q],
        thompson_regex(states, pattern).out is Ok ==> {
            &&& states.len() <= thompson_regex(states, pattern).out->Ok_0.entry() < thompson_regex(states, pattern).states.len()
            &&& states.len() <= thompson_regex(states, pattern).out->Ok_0.exit() < thompson_regex(states, pattern).states.len()
            &&& forall|q: int|
                states.len() <= q < thompson_regex(states, pattern).states.len() ==> ((#[trigger] thompson_regex(
                    states,
                    pattern,
                ).states[q]).accept <==> q == thompson_regex(states, pattern).out->Ok_0.exit())
        },
        thompson_regex(states, pattern).out is Err ==> forall|q: int|
            states.len() <= q < thompson_regex(states, pattern).states.len() ==> !(#[trigger] thompson_regex(
                states,
                pattern,
            ).states[q]).accept,
{
    lemma_group_grows(states, pattern, 0, true);
}

/// Where only quantifiers follow, they end at the end of the pattern.
pub proof fn lemma_quantifiers_to_the_end(pattern: Seq<char>, pos: int)
    requires
        0 <= pos <= pattern.len(),
        forall|i: int| pos <= i < pattern.len() ==> is_quantifier(#[trigger] pattern[i]),
    ensures
        quantifiers_end(pattern, pos) == pattern.len(),
    decreases pattern.len() - pos,
{
    if pos < pattern.len() {
        assert(is_quantifier(pattern[pos]));
        lemma_quantifiers_to_the_end(pattern, pos + 1);
    }
}

/// The states of a pattern that is one literal and quantifiers behind it: a
/// state for the start, and for the literal an entry, reached from the start on
/// the empty word, and an end; the transition on the literal between those two,
/// the transition back where a quantifier asks for a cycle, the transition
/// forward where one asks for a skip, and the end accepting.
pub open spec fn literal_states(states: Seq<StateView>, literal: char, cycle: bool, skip: bool) -> Seq<StateView> {
    let first = states.len() as usize;
    let entry = (states.len() + 1) as usize;
    let end = (states.len() + 2) as usize;
    let linked = link(
        link(states.push(blank()).push(blank()).push(blank()), first, None, entry),
        entry,
        Some(literal),
        end,
    );
    let cycled = if cycle {
        link(linked, end, None, entry)
    } else {
        linked
    };
    let skipped = if skip {
        link(cycled, entry, None, end)
    } else {
        cycled
    };
    accepting(skipped, end)
}

/// The automaton of a literal with quantifiers behind it, one or more, is made of
/// the states of `literal_states`, entered at the first and left at the third.
pub proof fn lemma_quantified_literal(states: Seq<StateView>, pattern: Seq<char>)
    requires
        pattern.len() >= 2,
        !is_operator(pattern[0]),
        forall|i: int| 1 <= i < pattern.len() ==> is_quantifier(#[trigger] pattern[i]),
        states.len() + 3 <= usize::MAX,
    ensures
        thompson_regex(states, pattern).states == literal_states(
            states,
            pattern[0],
            asks_cycle(pattern, 1, pattern.len() as int),
            asks_skip(pattern, 1, pattern.len() as int),
        ),
        thompson_regex(states, pattern).out == Ok::<Fragment, ParseError>(
            Fragment::NonEmpty(states.len() as usize, (states.len() + 2) as usize),
        ),
{
    reveal_with_fuel(thompson_concat_from, 3);
    let first = states.len() as usize;
    let entry = (states.len() + 1) as usize;
    let end = (states.len() + 2) as usize;
    let pushed = states.push(blank());
    let linked = link(link(pushed.push(blank()).push(blank()), first, None, entry), entry, Some(pattern[0]), end);
    lemma_quantifiers_to_the_end(pattern, 1);
    assert(is_quantifier(pattern[1]));
    let base = thompson_base(pushed, pattern, 0, first);
    assert(base == quantified(linked, pattern, 1, entry, end));
    assert(base.pos == pattern.len());
    let rest = thompson_concat_from(base.states, pattern, base.pos, first, end, true);
    assert(rest == Built { states: base.states, pos: base.pos, out: Ok::<Fragment, ParseError>(Fragment::NonEmpty(first, end)) });
    let concat = thompson_concat(states, pattern, 0);
    assert(concat == thompson_concat_from(pushed, pattern, 0, first, first, false));
    assert(concat == rest);
    let group = thompson_group(states, pattern, 0, true);
    assert(group == closed(concat.states, pattern, concat.pos, true, Fragment::NonEmpty(first, end)));
}

/// Quantifiers stacked on a literal say no more than `*` where one of them asks
/// for a cycle and one for a skip: the pattern builds the very automaton of the
/// literal followed by `*`, and so accepts the same inputs. `a**`, `a*?*`, `a+*`
/// and `a+?` are of this kind.
pub proof fn lemma_stacked_quantifiers(states: Seq<StateView>, literal: char, quantifiers: Seq<char>)
    requires
        !is_operator(literal),
        forall|i: int| 0 <= i < quantifiers.len() ==> is_quantifier(#[trigger] quantifiers[i]),
        exists|i: int| 0 <= i < quantifiers.len() && (#[trigger] quantifiers[i] == '+' || quantifiers[i] == '*'),
        exists|i: int| 0 <= i < quantifiers.len() && (#[trigger] quantifiers[i] == '?' || quantifiers[i] == '*'),
        states.len() + 3 <= usize::MAX,
    ensures
        thompson_regex(states, seq![literal] + quantifiers).states == thompson_regex(states, seq![literal, '*']).states,
        thompson_regex(states, seq![literal] + quantifiers).out == thompson_regex(states, seq![literal, '*']).out,
        forall|input: Seq<char>|
            nfa_accepts(
                thompson_regex(states, seq![literal] + quantifiers).states,
                thompson_regex(states, seq![literal] + quantifiers).out->Ok_0.entry() as int,
                input,
            ) == nfa_accepts(
                thompson_regex(states, seq![literal, '*']).states,
                thompson_regex(states, seq![literal, '*']).out->Ok_0.entry() as int,
                input,
            ),
{
    let stacked = seq![literal] + quantifiers;
    let plain = seq![literal, '*'];
    assert forall|i: int| 1 <= i < stacked.len() implies is_quantifier(#[trigger] stacked[i]) by {
        assert(stacked[i] == quantifiers[i - 1]);
    }
    lemma_quantified_literal(states, stacked);
    lemma_quantified_literal(states, plain);
    let c = choose|i: int| 0 <= i < quantifiers.len() && (#[trigger] quantifiers[i] == '+' || quantifiers[i] == '*');
    let k = choose|i: int| 0 <= i < quantifiers.len() && (#[trigger] quantifiers[i] == '?' || quantifiers[i] == '*');
    assert(stacked[c + 1] == quantifiers[c]);
    assert(stacked[k + 1] == quantifiers[k]);
    assert(asks_cycle(stacked, 1, stacked.len() as int));
    assert(asks_skip(stacked, 1, stacked.len() as int));
    assert(plain[1] == '*');
    assert(asks_cycle(plain, 1, plain.len() as int));
    assert(asks_skip(plain, 1, plain.len() as int));
}

} // verus!
