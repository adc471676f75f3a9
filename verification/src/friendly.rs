//! Running a non-deterministic automaton without a record of the states that
//! were met.
//!
//! The list of states the automaton may be in is allowed to hold a state more
//! than once. That saves the bookkeeping, and it comes to an end only where no
//! state that the run can come to is reached from itself without reading a
//! symbol: with such a cycle the list would grow for ever. So the automaton has
//! to be free of them, as far as it is reached from its start.

use crate::chars::collect_chars;
use crate::corrida::Corrida;
use crate::nfa::{
    any_accept, edge, eps_closure, handles, lemma_closure_closed, lemma_closure_holds_seed,
    lemma_closure_least, lemma_closure_of_start, move_on, nfa_accepts, reached_from, resolve,
    state_views, states_after, Nfa, State, StateView,
};
use crate::tables::{state_list_as_slice, state_list_new, state_list_push, state_list_view, StateList};
use std::str::Chars;
use vstd::prelude::*;
use vstd::std_specs::iter::IteratorSpec;
use vstd::string::into_iter_elts;

verus! {

/// No transition leads out of `region`, and `rank` gives every state of it a
/// number that is above the numbers of the states it has a transition to on the
/// empty word.
#[verifier::opaque]
pub open spec fn ranked_on(states: Seq<StateView>, rank: Seq<nat>, region: Set<int>) -> bool {
    &&& rank.len() == states.len()
    &&& forall|p: int, symbol: Option<char>, q: int|
        region.contains(p) && #[trigger] edge(states, p, symbol, q) ==> region.contains(q)
    &&& forall|p: int, q: int| region.contains(p) && #[trigger] edge(states, p, None, q) ==> rank[q] < rank[p]
}

/// No state that is reached from `start`, by transitions of any kind, is reached
/// from itself by transitions on the empty word, one or more: the states that
/// are reached from `start` lie in a region that can be ranked.
pub open spec fn eps_acyclic_from(states: Seq<StateView>, start: int) -> bool {
    exists|rank: Seq<nat>, region: Set<int>| #[trigger] ranked_on(states, rank, region) && region.contains(start)
}

/// No state at all is reached from itself by transitions on the empty word, one
/// or more: all the states can be ranked.
pub open spec fn eps_acyclic(states: Seq<StateView>) -> bool {
    exists|rank: Seq<nat>| ranked_on(states, rank, Set::full())
}

/// An automaton without any cycle of transitions on the empty word has none that
/// is reached from its start, wherever it starts.
pub proof fn lemma_acyclic_everywhere(states: Seq<StateView>, start: int)
    requires
        eps_acyclic(states),
    ensures
        eps_acyclic_from(states, start),
{
    let rank = choose|rank: Seq<nat>| ranked_on(states, rank, Set::full());
    assert(ranked_on(states, rank, Set::full()) && Set::<int>::full().contains(start));
}

/// A transition from a state of a ranked region leads into the region, and to a
/// state of lower rank where it is one on the empty word.
pub proof fn lemma_region_step(
    states: Seq<StateView>,
    rank: Seq<nat>,
    region: Set<int>,
    p: int,
    symbol: Option<char>,
    q: int,
)
    requires
        ranked_on(states, rank, region),
        region.contains(p),
        edge(states, p, symbol, q),
    ensures
        region.contains(q),
        rank.len() == states.len(),
        symbol is None ==> rank[q] < rank[p],
{
    reveal(ranked_on);
}

/// Of the first `upto` items of `targets`, those that stand for a state that
/// exists, as handles and in their order.
pub open spec fn live_prefix(owner: int, targets: Seq<Option<usize>>, n: int, upto: int) -> Seq<usize>
    decreases upto,
{
    if upto <= 0 || upto > targets.len() {
        Seq::empty()
    } else {
        let before = live_prefix(owner, targets, n, upto - 1);
        let target = resolve(owner, targets[upto - 1]);
        if 0 <= target < n && target <= usize::MAX {
            before.push(target as usize)
        } else {
            before
        }
    }
}

/// The states that `owner` has a transition to on `symbol`, once for each
/// transition, in the order of its target list.
pub open spec fn live_targets(states: Seq<StateView>, owner: int, symbol: Option<char>) -> Seq<usize> {
    live_prefix(owner, states[owner].targets_on(symbol), states.len() as int, states[owner].targets_on(symbol).len() as int)
}

/// A handle is among the live targets of the first `upto` items exactly if one of
/// those items stands for it and it exists.
pub proof fn lemma_live_prefix(owner: int, targets: Seq<Option<usize>>, n: int, upto: int, q: usize)
    requires
        0 <= upto <= targets.len(),
    ensures
        live_prefix(owner, targets, n, upto).contains(q) <==> (q < n && exists|i: int|
            0 <= i < upto && resolve(owner, #[trigger] targets[i]) == q),
    decreases upto,
{
    if upto > 0 {
        lemma_live_prefix(owner, targets, n, upto - 1, q);
        let before = live_prefix(owner, targets, n, upto - 1);
        let now = live_prefix(owner, targets, n, upto);
        let target = resolve(owner, targets[upto - 1]);
        if 0 <= target < n && target <= usize::MAX {
            assert(now == before.push(target as usize));
            if now.contains(q) {
                let k = choose|k: int| 0 <= k < now.len() && now[k] == q;
                if k < before.len() {
                    assert(before[k] == q);
                    assert(before.contains(q));
                }
            }
            if before.contains(q) {
                let k = choose|k: int| 0 <= k < before.len() && before[k] == q;
                assert(now[k] == q);
            }
            if target == q {
                assert(now[before.len() as int] == q);
            }
        }
        if q < n && exists|i: int| 0 <= i < upto && resolve(owner, #[trigger] targets[i]) == q {
            let i = choose|i: int| 0 <= i < upto && resolve(owner, #[trigger] targets[i]) == q;
            if i < upto - 1 {
                assert(before.contains(q));
            }
        }
    }
}

/// The live targets of a state on a symbol are the states it has a transition to
/// on that symbol.
pub proof fn lemma_live_targets(states: Seq<StateView>, owner: int, symbol: Option<char>, q: usize)
    requires
        0 <= owner < states.len(),
    ensures
        live_targets(states, owner, symbol).contains(q) <==> edge(states, owner, symbol, q as int),
{
    let targets = states[owner].targets_on(symbol);
    lemma_live_prefix(owner, targets, states.len() as int, targets.len() as int, q);
    if edge(states, owner, symbol, q as int) {
        let i = choose|i: int| 0 <= i < targets.len() && resolve(owner, #[trigger] targets[i]) == q as int;
    }
}

/// The weights of the states of `list` that rank below `bound`, added up.
pub open spec fn weight_below(states: Seq<StateView>, rank: Seq<nat>, list: Seq<usize>, bound: nat) -> nat
    decreases bound, 0int, list.len(),
{
    if list.len() == 0 {
        0
    } else {
        let q = list.last() as int;
        weight_below(states, rank, list.drop_last(), bound) + if q < states.len() && q < rank.len() && rank[q] < bound {
            weight(states, rank, q)
        } else {
            0
        }
    }
}

/// How many ways lead on from state `q` by transitions on the empty word, none
/// at all counted as one way: the number of items that `q` brings into a list
/// that takes in the targets of each of its items.
pub open spec fn weight(states: Seq<StateView>, rank: Seq<nat>, q: int) -> nat
    decreases
            (if 0 <= q < rank.len() {
                rank[q]
            } else {
                0
            }),
            1int,
            0int,
{
    if 0 <= q < rank.len() && q < states.len() {
        1 + weight_below(states, rank, live_targets(states, q, None), rank[q])
    } else {
        1
    }
}

/// The weights of the states of `list`, added up.
pub open spec fn weight_sum(states: Seq<StateView>, rank: Seq<nat>, list: Seq<usize>) -> nat
    decreases list.len(),
{
    if list.len() == 0 {
        0
    } else {
        weight_sum(states, rank, list.drop_last()) + weight(states, rank, list.last() as int)
    }
}

/// Where every state of `list` exists and ranks below `bound`, nothing is left
/// out of the sum.
pub proof fn lemma_weight_below_is_sum(states: Seq<StateView>, rank: Seq<nat>, list: Seq<usize>, bound: nat)
    requires
        rank.len() == states.len(),
        forall|i: int| 0 <= i < list.len() ==> (#[trigger] list[i]) < states.len() && rank[list[i] as int] < bound,
    ensures
        weight_below(states, rank, list, bound) == weight_sum(states, rank, list),
    decreases list.len(),
{
    if list.len() > 0 {
        lemma_weight_below_is_sum(states, rank, list.drop_last(), bound);
    }
}

/// The weight of a state is one more than the weights of its live targets.
pub proof fn lemma_weight_unfolds(states: Seq<StateView>, rank: Seq<nat>, region: Set<int>, q: int)
    requires
        ranked_on(states, rank, region),
        region.contains(q),
        0 <= q < states.len(),
    ensures
        weight(states, rank, q) == 1 + weight_sum(states, rank, live_targets(states, q, None)),
{
    let live = live_targets(states, q, None);
    assert forall|i: int| 0 <= i < live.len() implies (#[trigger] live[i]) < states.len() && rank[live[i] as int] < rank[q] by {
        assert(live.contains(live[i]));
        lemma_live_targets(states, q, None, live[i]);
        lemma_region_step(states, rank, region, q, None, live[i] as int);
    }
    assert(rank.len() == states.len()) by {
        reveal(ranked_on);
    }
    lemma_weight_below_is_sum(states, rank, live, rank[q]);
}

/// The sum over two lists, one behind the other, is the sum of their sums.
pub proof fn lemma_weight_sum_concat(states: Seq<StateView>, rank: Seq<nat>, a: Seq<usize>, b: Seq<usize>)
    ensures
        weight_sum(states, rank, a + b) == weight_sum(states, rank, a) + weight_sum(states, rank, b),
    decreases b.len(),
{
    if b.len() == 0 {
        assert(a + b =~= a);
    } else {
        assert((a + b).drop_last() =~= a + b.drop_last());
        assert((a + b).last() == b.last());
        lemma_weight_sum_concat(states, rank, a, b.drop_last());
    }
}

/// Adds to `list` the states that `owner` has a transition to on `symbol`, once
/// for each transition, whether they are in the list or not.
pub(crate) fn push_all_targets(arena: &Corrida<State>, owner: usize, symbol: Option<char>, list: &mut StateList)
    requires
        owner < arena@.len(),
    ensures
        state_list_view(*final(list)) == state_list_view(*old(list)) + live_targets(
            state_views(arena@),
            owner as int,
            symbol,
        ),
{
    let n = arena.len();
    let ghost states = state_views(arena@);
    let ghost first = state_list_view(*list);
    let mut iter = arena.get(owner).get_transitions(symbol);
    let ghost targets = iter.targets();
    assert(targets == states[owner as int].targets_on(symbol));
    assert(first + live_prefix(owner as int, targets, n as int, 0) =~= first);
    loop
        invariant
            n == arena@.len(),
            owner < n,
            iter.wf(),
            iter.targets() == targets,
            0 <= iter.position() <= targets.len(),
            state_list_view(*list) == first + live_prefix(owner as int, targets, n as int, iter.position()),
        ensures
            iter.position() == targets.len(),
        decreases targets.len() - iter.position(),
    {
        let ghost at = iter.position();
        let ghost before = state_list_view(*list);
        match iter.next() {
            Some(target) => {
                let t: usize = match target {
                    Some(t) => t,
                    None => owner,
                };
                if t < n {
                    state_list_push(list, t);
                }
                proof {
                    let earlier = live_prefix(owner as int, targets, n as int, at);
                    let later = live_prefix(owner as int, targets, n as int, at + 1);
                    assert(t as int == resolve(owner as int, targets[at]));
                    if t < n {
                        assert(later == earlier.push(t));
                        assert(first + later =~= (first + earlier).push(t));
                    }
                }
            },
            None => {
                break ;
            },
        }
    }
}

/// Every handle in `list` is that of a state that exists.
pub open spec fn all_below(list: Seq<usize>, n: int) -> bool {
    forall|i: int| 0 <= i < list.len() ==> #[trigger] list[i] < n
}

/// Every handle in `list` is that of a state of `region`.
pub open spec fn all_inside(list: Seq<usize>, region: Set<int>) -> bool {
    forall|i: int| 0 <= i < list.len() ==> region.contains(#[trigger] list[i] as int)
}

/// Extends `list` to the closure of its handles, keeping no record of the states
/// that are in it: behind each item come its targets on the empty word. The
/// list lies in a region that `rank` ranks, and stays in it.
pub(crate) fn epsilon_close_friendly(
    arena: &Corrida<State>,
    list: &mut StateList,
    Ghost(rank): Ghost<Seq<nat>>,
    Ghost(region): Ghost<Set<int>>,
)
    requires
        ranked_on(state_views(arena@), rank, region),
        all_below(state_list_view(*old(list)), arena@.len() as int),
        all_inside(state_list_view(*old(list)), region),
    ensures
        all_below(state_list_view(*final(list)), arena@.len() as int),
        all_inside(state_list_view(*final(list)), region),
        handles(state_list_view(*final(list))) == eps_closure(
            state_views(arena@),
            handles(state_list_view(*old(list))),
        ),
{
    let n = arena.len();
    let ghost states = state_views(arena@);
    let ghost first = state_list_view(*list);
    let ghost seed = handles(first);
    let mut i: usize = 0;
    proof {
        assert forall|j: int| 0 <= j < first.len() implies eps_closure(states, seed).contains(#[trigger] first[j] as int) by {
            assert(first.contains(first[j]));
            lemma_closure_holds_seed(states, seed, first[j] as int);
        }
        assert(first.skip(0) =~= first);
    }
    while i < state_list_as_slice(list).len()
        invariant
            n == arena@.len(),
            states == state_views(arena@),
            ranked_on(states, rank, region),
            seed == handles(first),
            0 <= i <= state_list_view(*list).len(),
            all_below(state_list_view(*list), n as int),
            all_inside(state_list_view(*list), region),
            first.is_prefix_of(state_list_view(*list)),
            forall|j: int|
                0 <= j < state_list_view(*list).len() ==> eps_closure(states, seed).contains(
                    #[trigger] state_list_view(*list)[j] as int,
                ),
            forall|j: int, q: int|
                0 <= j < i && #[trigger] edge(states, state_list_view(*list)[j] as int, None, q) ==> state_list_view(
                    *list,
                ).contains(q as usize),
        decreases weight_sum(states, rank, state_list_view(*list).skip(i as int)),
    {
        let ghost before = state_list_view(*list);
        let owner: usize = state_list_as_slice(list)[i];
        push_all_targets(arena, owner, None, list);
        proof {
            let after = state_list_view(*list);
            let live = live_targets(states, owner as int, None);
            assert(after == before + live);
            assert(region.contains(before[i as int] as int));
            assert forall|j: int| 0 <= j < after.len() implies #[trigger] after[j] < n && eps_closure(states, seed).contains(
                after[j] as int,
            ) && region.contains(after[j] as int) by {
                if j < before.len() {
                    assert(after[j] == before[j]);
                } else {
                    assert(after[j] == live[j - before.len()]);
                    assert(live.contains(live[j - before.len()]));
                    lemma_live_targets(states, owner as int, None, after[j]);
                    lemma_closure_closed(states, seed, owner as int, after[j] as int);
                    lemma_region_step(states, rank, region, owner as int, None, after[j] as int);
                }
            }
            assert forall|j: int, q: int|
                0 <= j < i + 1 && #[trigger] edge(states, after[j] as int, None, q) implies after.contains(q as usize) by {
                assert(after[j] == before[j]);
                if j < i {
                    assert(before.contains(q as usize));
                    let k = choose|k: int| 0 <= k < before.len() && before[k] == q as usize;
                    assert(after[k] == q as usize);
                } else {
                    lemma_live_targets(states, owner as int, None, q as usize);
                    let k = choose|k: int| 0 <= k < live.len() && live[k] == q as usize;
                    assert(after[before.len() + k] == q as usize);
                }
            }
            assert(before.skip(i as int) =~= seq![owner] + before.skip(i + 1));
            assert(after.skip(i + 1) =~= before.skip(i + 1) + live);
            lemma_weight_sum_concat(states, rank, seq![owner], before.skip(i + 1));
            lemma_weight_sum_concat(states, rank, before.skip(i + 1), live);
            lemma_weight_unfolds(states, rank, region, owner as int);
            assert(seq![owner].drop_last() =~= Seq::<usize>::empty());
            assert(seq![owner].last() == owner);
            assert(weight_sum(states, rank, Seq::<usize>::empty()) == 0);
            assert(weight_sum(states, rank, seq![owner]) == weight_sum(states, rank, seq![owner].drop_last()) + weight(
                states,
                rank,
                seq![owner].last() as int,
            ));
            assert(weight_sum(states, rank, seq![owner]) == weight(states, rank, owner as int));
        }
        i += 1;
    }
    proof {
        let last = state_list_view(*list);
        let inside = handles(last);
        assert forall|s: int| seed.contains(s) && 0 <= s < states.len() implies inside.contains(s) by {
            let k = choose|k: int| 0 <= k < first.len() && first[k] == s as usize;
            assert(last[k] == first[k]);
        }
        assert forall|m: int, t: int| inside.contains(m) && #[trigger] edge(states, m, None, t) implies inside.contains(t) by {
            let j = choose|j: int| 0 <= j < last.len() && last[j] == m as usize;
            assert(edge(states, last[j] as int, None, t));
        }
        lemma_closure_least(states, seed, inside);
        assert forall|q: int| inside.contains(q) implies eps_closure(states, seed).contains(q) by {
            let j = choose|j: int| 0 <= j < last.len() && last[j] == q as usize;
            assert(eps_closure(states, seed).contains(last[j] as int));
        }
        assert(inside =~= eps_closure(states, seed));
    }
}

/// The states the automaton may be in after reading `symbol` when it was in one
/// of `current` before, with no record kept of the states that were met. The
/// list lies in a region that `rank` ranks, and so does the result.
pub(crate) fn step_friendly(
    arena: &Corrida<State>,
    current: &StateList,
    symbol: char,
    Ghost(rank): Ghost<Seq<nat>>,
    Ghost(region): Ghost<Set<int>>,
) -> (next: StateList)
    requires
        ranked_on(state_views(arena@), rank, region),
        all_below(state_list_view(*current), arena@.len() as int),
        all_inside(state_list_view(*current), region),
    ensures
        all_below(state_list_view(next), arena@.len() as int),
        all_inside(state_list_view(next), region),
        handles(state_list_view(next)) == eps_closure(
            state_views(arena@),
            move_on(state_views(arena@), handles(state_list_view(*current)), symbol),
        ),
{
    let ghost states = state_views(arena@);
    let ghost sources = state_list_view(*current);
    let mut next = state_list_new();
    let from = state_list_as_slice(current);
    let mut j: usize = 0;
    assert(state_list_view(next) =~= Seq::<usize>::empty());
    while j < from.len()
        invariant
            states == state_views(arena@),
            from@ == sources,
            0 <= j <= sources.len(),
            ranked_on(states, rank, region),
            all_below(sources, arena@.len() as int),
            all_inside(sources, region),
            all_below(state_list_view(next), arena@.len() as int),
            all_inside(state_list_view(next), region),
            forall|q: usize|
                #[trigger] state_list_view(next).contains(q) <==> reached_from(
                    states,
                    sources.take(j as int),
                    Some(symbol),
                    q as int,
                ),
        decreases sources.len() - j,
    {
        let ghost before = state_list_view(next);
        push_all_targets(arena, from[j], Some(symbol), &mut next);
        proof {
            let after = state_list_view(next);
            let live = live_targets(states, sources[j as int] as int, Some(symbol));
            let shorter = sources.take(j as int);
            let longer = sources.take(j + 1);
            assert(region.contains(sources[j as int] as int));
            assert forall|i: int| 0 <= i < after.len() implies #[trigger] after[i] < arena@.len() && region.contains(
                after[i] as int,
            ) by {
                if i < before.len() {
                    assert(after[i] == before[i]);
                } else {
                    assert(after[i] == live[i - before.len()]);
                    assert(live.contains(live[i - before.len()]));
                    lemma_live_targets(states, sources[j as int] as int, Some(symbol), after[i]);
                    lemma_region_step(states, rank, region, sources[j as int] as int, Some(symbol), after[i] as int);
                }
            }
            assert forall|q: usize| #[trigger] after.contains(q) <==> reached_from(states, longer, Some(symbol), q as int) by {
                lemma_live_targets(states, sources[j as int] as int, Some(symbol), q);
                if reached_from(states, longer, Some(symbol), q as int) {
                    let k = choose|k: int| 0 <= k < longer.len() && #[trigger] edge(states, longer[k] as int, Some(symbol), q as int);
                    if k < j {
                        assert(edge(states, shorter[k] as int, Some(symbol), q as int));
                        assert(before.contains(q));
                        let m = choose|m: int| 0 <= m < before.len() && before[m] == q;
                        assert(after[m] == q);
                    } else {
                        let m = choose|m: int| 0 <= m < live.len() && live[m] == q;
                        assert(after[before.len() + m] == q);
                    }
                }
                if after.contains(q) {
                    let m = choose|m: int| 0 <= m < after.len() && after[m] == q;
                    if m < before.len() {
                        assert(before[m] == q);
                        assert(before.contains(q));
                        let k = choose|k: int| 0 <= k < shorter.len() && #[trigger] edge(states, shorter[k] as int, Some(symbol), q as int);
                        assert(edge(states, longer[k] as int, Some(symbol), q as int));
                    } else {
                        assert(live[m - before.len()] == q);
                        assert(live.contains(q));
                        assert(edge(states, longer[j as int] as int, Some(symbol), q as int));
                    }
                }
            }
        }
        j += 1;
    }
    let ghost moved = state_list_view(next);
    epsilon_close_friendly(arena, &mut next, Ghost(rank), Ghost(region));
    proof {
        assert(sources.take(j as int) =~= sources);
        let target = move_on(states, handles(sources), symbol);
        assert(handles(moved) =~= target) by {
            assert forall|q: int| handles(moved).contains(q) implies target.contains(q) by {
                let k = choose|k: int| 0 <= k < sources.len() && #[trigger] edge(states, sources[k] as int, Some(symbol), q);
                assert(sources.contains(sources[k]));
                assert(handles(sources).contains(sources[k] as int));
            }
            assert forall|q: int| target.contains(q) implies handles(moved).contains(q) by {
                let p = choose|p: int| handles(sources).contains(p) && #[trigger] edge(states, p, Some(symbol), q);
                let k = choose|k: int| 0 <= k < sources.len() && sources[k] == p as usize;
                assert(edge(states, sources[k] as int, Some(symbol), q));
                assert(reached_from(states, sources, Some(symbol), q));
                assert(moved.contains(q as usize));
            }
        }
    }
    next
}

impl<'a> Nfa<'a> {
    /// Whether the automaton accepts `input` as a whole, found without a record
    /// of the states that were met.
    ///
    /// No cycle of transitions on the empty word may be reached from the start:
    /// on an automaton that has such a cycle this way of running it would not
    /// come to an end. Where it may be used it gives what `simulate_slice` gives.
    pub fn simulate_slice_friendly(&self, input: &[char]) -> (accepted: bool)
        requires
            eps_acyclic_from(self.states(), self.start()),
        ensures
            accepted == nfa_accepts(self.states(), self.start(), input@),
    {
        let arena = self.arena();
        let start_node = self.start_node();
        let ghost states = state_views(arena@);
        let ghost ranking = choose|rank: Seq<nat>, region: Set<int>| #[trigger]
            ranked_on(states, rank, region) && region.contains(start_node as int);
        let ghost rank = ranking.0;
        let ghost region = ranking.1;
        let mut current_states = state_list_new();
        if start_node < arena.len() {
            state_list_push(&mut current_states, start_node);
        }
        let ghost first = state_list_view(current_states);
        epsilon_close_friendly(arena, &mut current_states, Ghost(rank), Ghost(region));
        proof {
            assert(start_node < states.len() ==> first =~= seq![start_node]);
            lemma_closure_of_start(states, start_node, first);
            assert(input@.take(0).len() == 0);
        }
        let mut k: usize = 0;
        while k < input.len()
            invariant
                states == state_views(arena@),
                ranked_on(states, rank, region),
                0 <= k <= input@.len(),
                all_below(state_list_view(current_states), arena@.len() as int),
                all_inside(state_list_view(current_states), region),
                handles(state_list_view(current_states)) == states_after(states, start_node as int, input@.take(k as int)),
            decreases input@.len() - k,
        {
            let next_states = step_friendly(arena, &current_states, input[k], Ghost(rank), Ghost(region));
            proof {
                let longer = input@.take(k + 1);
                assert(longer.drop_last() =~= input@.take(k as int));
                assert(longer.last() == input@[k as int]);
            }
            current_states = next_states;
            k += 1;
        }
        assert(input@.take(k as int) =~= input@);
        any_accept(arena, &current_states)
    }

    /// Whether the automaton accepts, as a whole, the characters that `input`
    /// hands out, found without a record of the states that were met. No cycle
    /// of transitions on the empty word may be reached from the start.
    pub fn simulate_iter_friendly(&self, input: Chars<'_>) -> (accepted: bool)
        requires
            input.decrease() is Some,
            input.initial_value_relation(&input),
            eps_acyclic_from(self.states(), self.start()),
        ensures
            accepted == nfa_accepts(self.states(), self.start(), into_iter_elts(input)),
    {
        let symbols = collect_chars(input);
        self.simulate_slice_friendly(symbols.as_slice())
    }
}

} // verus!
