//! What holds between the ways of running an automaton, and of the handles that
//! an arena gives out.

use crate::dfa::{dfa_accepts, Dfa, PartialState};
use crate::friendly::eps_acyclic_from;
use crate::nfa::{nfa_accepts, Nfa};
use vstd::prelude::*;

verus! {

/// On an automaton from whose start no cycle of transitions on the empty word
/// is reached, the run that keeps no record of the states it met gives what the
/// run that keeps one gives: whatever the two return for one input, it is the
/// same.
pub proof fn lemma_friendly_run_agrees(nfa: Nfa<'_>, input: &[char], general: bool, friendly: bool)
    requires
        eps_acyclic_from(nfa.states(), nfa.start()),
        call_ensures(Nfa::simulate_slice, (&nfa, input), general),
        call_ensures(Nfa::simulate_slice_friendly, (&nfa, input), friendly),
    ensures
        general == friendly,
{
}

/// A deterministic automaton that accepts the inputs of a non-deterministic one,
/// as the one that `as_dfa` builds does, gives on every input what the other
/// gives: whatever the two runs return for one input, it is the same.
pub proof fn lemma_deterministic_run_agrees(
    nfa: Nfa<'_>,
    dfa: Dfa<'_, PartialState>,
    input: &[char],
    by_nfa: bool,
    by_dfa: bool,
)
    requires
        forall|word: Seq<char>|
            #[trigger] dfa_accepts(dfa.states(), dfa.start(), word) == nfa_accepts(nfa.states(), nfa.start(), word),
        call_ensures(Nfa::simulate_slice, (&nfa, input), by_nfa),
        call_ensures(Dfa::<PartialState>::simulate_slice, (&dfa, input), by_dfa),
    ensures
        by_nfa == by_dfa,
{
    assert(dfa_accepts(dfa.states(), dfa.start(), input@) == nfa_accepts(nfa.states(), nfa.start(), input@));
}

/// What an arena holds when `values` have been put into it one after the other,
/// and it held `before` at first.
pub open spec fn allocated<T>(before: Seq<T>, values: Seq<T>) -> Seq<T>
    decreases values.len(),
{
    if values.len() == 0 {
        before
    } else {
        allocated(before, values.drop_last()).push(values.last())
    }
}

/// Putting values into an arena adds them behind what it holds.
pub proof fn lemma_allocated<T>(before: Seq<T>, values: Seq<T>)
    ensures
        allocated(before, values) == before + values,
    decreases values.len(),
{
    if values.len() == 0 {
        assert(before + values =~= before);
    } else {
        lemma_allocated(before, values.drop_last());
        assert(before + values =~= (before + values.drop_last()).push(values.last()));
    }
}

/// A handle stands for the value that was put into the arena when it was given
/// out, however many values are put in afterwards: the handle of the value at
/// place `k` of `values` is `before.len() + k`, and after `later` values in all,
/// that one and more, it still yields that value. What the arena held before
/// stays as well.
pub proof fn lemma_handles_keep_their_values<T>(before: Seq<T>, values: Seq<T>, k: int, later: int)
    requires
        0 <= k < later <= values.len(),
    ensures
        allocated(before, values.take(later))[before.len() + k] == values[k],
        forall|h: int| 0 <= h < before.len() ==> allocated(before, values.take(later))[h] == before[h],
{
    lemma_allocated(before, values.take(later));
}

} // verus!
