//! From a non-deterministic automaton to a deterministic one.
//!
//! A state of the deterministic automaton stands for a set of states of the
//! other: those it may be in after some input. A set is known by its key, the
//! increasing list of its handles, so that one set has one key however it was
//! found.

use crate::corrida::{pow2, Corrida};
use crate::dfa::State as _;
use crate::dfa::{dfa_accepts, dfa_after, partial_views, Dfa, PartialState, PartialStateView};
use crate::nfa::{
    any_accept, any_accepting, distinct_below, edge, eps_closure, handles,
    move_on, nfa_accepts, start_set, state_views, states_after, step, Nfa, State, StateView,
};
use crate::tables::{state_list_as_slice, state_list_view, StateList};
use std::collections::HashSet;
use vstd::prelude::*;
use vstd::set_lib::{lemma_int_range, lemma_len_subset, set_int_range};

verus! {

/// Each item of `key` is below the next.
pub open spec fn increasing(key: Seq<usize>) -> bool {
    forall|i: int, j: int| 0 <= i < j < key.len() ==> key[i] < key[j]
}

/// Two increasing lists with the same items are the same list.
pub proof fn lemma_key_unique(a: Seq<usize>, b: Seq<usize>)
    requires
        increasing(a),
        increasing(b),
        forall|q: usize| a.contains(q) <==> b.contains(q),
    ensures
        a == b,
    decreases a.len(),
{
    if a.len() == 0 {
        if b.len() > 0 {
            assert(b.contains(b[0]));
        }
        assert(a =~= b);
    } else {
        let top = a.last();
        assert(a.contains(top));
        assert(b.contains(top));
        let at = choose|at: int| 0 <= at < b.len() && b[at] == top;
        if at < b.len() - 1 {
            assert(b.contains(b.last()));
            let back = choose|back: int| 0 <= back < a.len() && a[back] == b.last();
            assert(false);
        }
        let a_rest = a.drop_last();
        let b_rest = b.drop_last();
        assert forall|q: usize| a_rest.contains(q) <==> b_rest.contains(q) by {
            if a_rest.contains(q) {
                let i = choose|i: int| 0 <= i < a_rest.len() && a_rest[i] == q;
                assert(a[i] == q);
                assert(a.contains(q));
                let j = choose|j: int| 0 <= j < b.len() && b[j] == q;
                assert(b_rest[j] == q);
            }
            if b_rest.contains(q) {
                let j = choose|j: int| 0 <= j < b_rest.len() && b_rest[j] == q;
                assert(b[j] == q);
                assert(b.contains(q));
                let i = choose|i: int| 0 <= i < a.len() && a[i] == q;
                assert(a_rest[i] == q);
            }
        }
        lemma_key_unique(a_rest, b_rest);
        assert(a =~= a_rest.push(top));
        assert(b =~= b_rest.push(top));
    }
}

/// A set of handles below `n` as a number: the sum of two to the power of each
/// handle that is in it.
pub open spec fn subset_code(set: Set<int>, n: nat) -> nat
    decreases n,
{
    if n == 0 {
        0
    } else {
        subset_code(set, (n - 1) as nat) + if set.contains(n - 1) {
            pow2((n - 1) as nat)
        } else {
            0
        }
    }
}

/// The code of a set of handles below `n` is below two to the power `n`.
pub proof fn lemma_code_bounded(set: Set<int>, n: nat)
    ensures
        subset_code(set, n) < pow2(n),
    decreases n,
{
    if n > 0 {
        lemma_code_bounded(set, (n - 1) as nat);
    }
}

/// Sets with the same code hold the same handles below `n`.
pub proof fn lemma_code_injective(a: Set<int>, b: Set<int>, n: nat)
    requires
        subset_code(a, n) == subset_code(b, n),
    ensures
        forall|q: int| 0 <= q < n ==> a.contains(q) == b.contains(q),
    decreases n,
{
    if n > 0 {
        lemma_code_bounded(a, (n - 1) as nat);
        lemma_code_bounded(b, (n - 1) as nat);
        lemma_code_injective(a, b, (n - 1) as nat);
    }
}

/// A list of distinct numbers from 0 up to `m` has at most `m` items.
pub proof fn lemma_distinct_ints_bounded(ints: Seq<int>, m: int)
    requires
        m >= 0,
        ints.no_duplicates(),
        forall|i: int| 0 <= i < ints.len() ==> 0 <= #[trigger] ints[i] < m,
    ensures
        ints.len() <= m,
{
    ints.unique_seq_to_set();
    lemma_int_range(0, m);
    assert(ints.to_set().subset_of(set_int_range(0, m))) by {
        assert forall|x: int| ints.to_set().contains(x) implies set_int_range(0, m).contains(x) by {
            let i = choose|i: int| 0 <= i < ints.len() && ints[i] == x;
        }
    }
    lemma_len_subset(ints.to_set(), set_int_range(0, m));
}

/// Different increasing keys of handles below `n` number at most two to the
/// power `n`.
pub proof fn lemma_keys_bounded(keys: Seq<Seq<usize>>, n: nat)
    requires
        forall|i: int| 0 <= i < keys.len() ==> increasing(#[trigger] keys[i]),
        forall|i: int, k: int| 0 <= i < keys.len() && 0 <= k < keys[i].len() ==> #[trigger] keys[i][k] < n,
        forall|i: int, j: int| 0 <= i < keys.len() && 0 <= j < keys.len() && i != j ==> keys[i] != keys[j],
    ensures
        keys.len() <= pow2(n),
{
    let codes = Seq::new(keys.len(), |i: int| subset_code(handles(keys[i]), n) as int);
    assert forall|i: int, j: int| 0 <= i < codes.len() && 0 <= j < codes.len() && i != j implies codes[i] != codes[j] by {
        if codes[i] == codes[j] {
            lemma_code_injective(handles(keys[i]), handles(keys[j]), n);
            assert forall|q: usize| keys[i].contains(q) <==> keys[j].contains(q) by {
                if keys[i].contains(q) {
                    let k = choose|k: int| 0 <= k < keys[i].len() && keys[i][k] == q;
                    assert(keys[i][k] < n);
                    assert(handles(keys[i]).contains(q as int));
                    assert(handles(keys[j]).contains(q as int));
                }
                if keys[j].contains(q) {
                    let k = choose|k: int| 0 <= k < keys[j].len() && keys[j][k] == q;
                    assert(keys[j][k] < n);
                    assert(handles(keys[j]).contains(q as int));
                    assert(handles(keys[i]).contains(q as int));
                }
            }
            lemma_key_unique(keys[i], keys[j]);
        }
    }
    assert forall|i: int| 0 <= i < codes.len() implies 0 <= #[trigger] codes[i] < pow2(n) by {
        lemma_code_bounded(handles(keys[i]), n);
    }
    lemma_distinct_ints_bounded(codes, pow2(n) as int);
}

/// The key of the set of states in `list`: its handles in increasing order.
pub(crate) fn subset_key(list: &StateList) -> (key: Vec<usize>)
    requires
        state_list_view(*list).no_duplicates(),
    ensures
        increasing(key@),
        forall|q: usize| key@.contains(q) <==> state_list_view(*list).contains(q),
{
    let items = state_list_as_slice(list);
    let mut key: Vec<usize> = Vec::new();
    let mut i: usize = 0;
    while i < items.len()
        invariant
            items@ == state_list_view(*list),
            items@.no_duplicates(),
            0 <= i <= items@.len(),
            increasing(key@),
            forall|q: usize| key@.contains(q) <==> items@.take(i as int).contains(q),
        decreases items@.len() - i,
    {
        let x: usize = items[i];
        let mut at: usize = key.len();
        while at > 0 && key[at - 1] > x
            invariant
                0 <= at <= key@.len(),
                0 <= i < items@.len(),
                x == items@[i as int],
                items@.no_duplicates(),
                increasing(key@),
                forall|q: usize| key@.contains(q) <==> items@.take(i as int).contains(q),
                forall|k: int| at <= k < key@.len() ==> key@[k] > x,
            decreases at,
        {
            at -= 1;
        }
        let ghost before = key@;
        proof {
            let taken = items@.take(i as int);
            assert(!before.contains(x)) by {
                if before.contains(x) {
                    let k = choose|k: int| 0 <= k < taken.len() && taken[k] == x;
                    assert(items@[k] == x && items@[i as int] == x);
                }
            }
            assert forall|k: int| 0 <= k < at implies before[k] < x by {
                assert(before.contains(before[k]));
                if at > 0 {
                    assert(before[at - 1] <= x);
                    assert(before.contains(before[at - 1]));
                }
            }
        }
        key.insert(at, x);
        proof {
            let after = key@;
            let taken = items@.take(i as int);
            let longer = items@.take(i + 1);
            assert(longer =~= taken.push(x));
            assert forall|q: usize| after.contains(q) <==> longer.contains(q) by {
                if after.contains(q) {
                    let k = choose|k: int| 0 <= k < after.len() && after[k] == q;
                    if k < at {
                        assert(before[k] == q);
                        assert(before.contains(q));
                        let m = choose|m: int| 0 <= m < taken.len() && taken[m] == q;
                        assert(longer[m] == q);
                    } else if k == at {
                        assert(longer[i as int] == q);
                    } else {
                        assert(before[k - 1] == q);
                        assert(before.contains(q));
                        let m = choose|m: int| 0 <= m < taken.len() && taken[m] == q;
                        assert(longer[m] == q);
                    }
                }
                if longer.contains(q) {
                    let m = choose|m: int| 0 <= m < longer.len() && longer[m] == q;
                    if m < i {
                        assert(taken[m] == q);
                        assert(taken.contains(q));
                        assert(before.contains(q));
                        let k = choose|k: int| 0 <= k < before.len() && before[k] == q;
                        if k < at {
                            assert(after[k] == q);
                        } else {
                            assert(after[k + 1] == q);
                        }
                    } else {
                        assert(after[at as int] == q);
                    }
                }
            }
        }
        i += 1;
    }
    assert(items@.take(i as int) =~= items@);
    key
}

/// Where `key` stands in `keys`, if it is there.
pub(crate) fn find_key(keys: &Vec<Vec<usize>>, key: &Vec<usize>) -> (found: Option<usize>)
    ensures
        match found {
            Some(i) => i < keys@.len() && keys@[i as int]@ == key@,
            None => forall|i: int| 0 <= i < keys@.len() ==> (#[trigger] keys@[i])@ != key@,
        },
{
    let mut i: usize = 0;
    while i < keys.len()
        invariant
            0 <= i <= keys@.len(),
            forall|j: int| 0 <= j < i ==> (#[trigger] keys@[j])@ != key@,
        decreases keys@.len() - i,
    {
        if same_key(&keys[i], key) {
            return Some(i);
        }
        i += 1;
    }
    None
}

/// Whether two keys are the same list.
pub(crate) fn same_key(a: &Vec<usize>, b: &Vec<usize>) -> (same: bool)
    ensures
        same == (a@ == b@),
{
    if a.len() != b.len() {
        return false;
    }
    let mut i: usize = 0;
    while i < a.len()
        invariant
            a@.len() == b@.len(),
            0 <= i <= a@.len(),
            forall|j: int| 0 <= j < i ==> a@[j] == b@[j],
        decreases a@.len() - i,
    {
        if a[i] != b[i] {
            return false;
        }
        i += 1;
    }
    assert(a@ =~= b@);
    true
}

/// Some state of `set` has transitions on `symbol`.
pub open spec fn has_symbol(nfa: Seq<StateView>, set: Set<int>, symbol: char) -> bool {
    exists|p: int| 0 <= p < nfa.len() && #[trigger] set.contains(p) && nfa[p].transitions.contains_key(Some(symbol))
}

/// How far a subset construction has come: the key of each set that was found,
/// a word that leads to it, whether its transitions have been made, and the sets
/// that still wait for that, in the order in which they wait. The deterministic
/// state of the set at place `i` is the one at handle `base + i`.
pub struct Progress {
    pub keys: Seq<Seq<usize>>,
    pub words: Seq<Seq<char>>,
    pub processed: Seq<bool>,
    pub waiting: Seq<int>,
}

/// The deterministic state of the set at place `i` has the right transition on
/// `symbol`: to the state of the set that is reached on it, or none where no state
/// of the set has transitions on it.
pub open spec fn row_right(nfa: Seq<StateView>, rows: Seq<PartialStateView>, base: int, keys: Seq<Seq<usize>>, i: int, symbol: char) -> bool {
    let row = rows[i].transitions;
    if has_symbol(nfa, handles(keys[i]), symbol) {
        &&& row.contains_key(symbol)
        &&& row[symbol] is Some
        &&& base <= row[symbol]->Some_0 < base + keys.len()
        &&& handles(keys[row[symbol]->Some_0 - base]) == eps_closure(nfa, move_on(nfa, handles(keys[i]), symbol))
    } else {
        !row.contains_key(symbol)
    }
}

/// The deterministic state of the set at place `current` is right on `symbol` as
/// far as its transitions have been made: as `row_right` says where `symbol` is
/// in `done`, and without a transition on it where it is not.
pub open spec fn row_right_so_far(
    nfa: Seq<StateView>,
    rows: Seq<PartialStateView>,
    base: int,
    keys: Seq<Seq<usize>>,
    current: int,
    done: Seq<char>,
    symbol: char,
) -> bool {
    if done.contains(symbol) {
        has_symbol(nfa, handles(keys[current]), symbol) && row_right(nfa, rows, base, keys, current, symbol)
    } else {
        !rows[current].transitions.contains_key(symbol)
    }
}

/// The sets that were found are told apart by their keys, each has its state in
/// the deterministic automaton, accepting where one of its members is, and each
/// is what the other automaton may be in after the word that is kept for it.
pub open spec fn table_ok(nfa: Seq<StateView>, start: int, rows: Seq<PartialStateView>, base: int, progress: Progress) -> bool {
    &&& 0 <= base
    &&& rows.len() == progress.keys.len()
    &&& progress.words.len() == progress.keys.len()
    &&& progress.processed.len() == progress.keys.len()
    &&& forall|i: int| 0 <= i < progress.keys.len() ==> increasing(#[trigger] progress.keys[i])
    &&& forall|i: int, k: int|
        0 <= i < progress.keys.len() && 0 <= k < progress.keys[i].len() ==> #[trigger] progress.keys[i][k] < nfa.len()
    &&& forall|i: int, j: int|
        0 <= i < progress.keys.len() && 0 <= j < progress.keys.len() && i != j ==> progress.keys[i] != progress.keys[j]
    &&& forall|i: int|
        0 <= i < progress.keys.len() ==> (#[trigger] rows[i]).accept == any_accepting(nfa, handles(progress.keys[i]))
    &&& forall|i: int|
        0 <= i < progress.keys.len() ==> states_after(nfa, start, #[trigger] progress.words[i]) == handles(progress.keys[i])
}

/// The transitions of the deterministic states are right as far as they have
/// been made: in full for a set that is processed, on the symbols of `done` for
/// the set at place `current`, and not at all for the others.
pub open spec fn rows_ok(
    nfa: Seq<StateView>,
    rows: Seq<PartialStateView>,
    base: int,
    progress: Progress,
    current: int,
    done: Seq<char>,
) -> bool {
    &&& forall|i: int, symbol: char|
        0 <= i < progress.keys.len() && progress.processed[i] ==> #[trigger] row_right(nfa, rows, base, progress.keys, i, symbol)
    &&& forall|i: int, symbol: char|
        0 <= i < progress.keys.len() && !progress.processed[i] && i != current ==> !(#[trigger] rows[i].transitions.contains_key(
            symbol,
        ))
    &&& 0 <= current < progress.keys.len() ==> {
        &&& !progress.processed[current]
        &&& forall|symbol: char| #[trigger] row_right_so_far(nfa, rows, base, progress.keys, current, done, symbol)
    }
}

/// The sets that wait are those that are neither processed nor at place
/// `current`, each of them once.
pub open spec fn queue_ok(progress: Progress, current: int) -> bool {
    &&& forall|a: int|
        0 <= a < progress.waiting.len() ==> {
            &&& 0 <= #[trigger] progress.waiting[a] < progress.keys.len()
            &&& !progress.processed[progress.waiting[a]]
            &&& progress.waiting[a] != current
        }
    &&& forall|a: int, b: int|
        0 <= a < progress.waiting.len() && 0 <= b < progress.waiting.len() && a != b ==> progress.waiting[a]
            != progress.waiting[b]
    &&& forall|i: int|
        0 <= i < progress.keys.len() && !#[trigger] progress.processed[i] && i != current ==> progress.waiting.contains(i)
}

/// No state is reached on `symbol` from a set none of whose states has
/// transitions on it.
pub proof fn lemma_no_symbol_no_move(nfa: Seq<StateView>, set: Set<int>, symbol: char)
    requires
        !has_symbol(nfa, set, symbol),
    ensures
        eps_closure(nfa, move_on(nfa, set, symbol)) == Set::<int>::empty(),
{
    let moved = move_on(nfa, set, symbol);
    assert forall|q: int| !moved.contains(q) by {
        if moved.contains(q) {
            let p = choose|p: int| set.contains(p) && #[trigger] edge(nfa, p, Some(symbol), q);
            assert(set.contains(p) && nfa[p].transitions.contains_key(Some(symbol)));
        }
    }
    assert(eps_closure(nfa, moved) =~= Set::<int>::empty());
}

/// When every set that was found is processed, the deterministic automaton is,
/// after any input, in the state of the set the other automaton may be in; or it
/// has met a missing transition, and the other automaton may be nowhere.
pub proof fn lemma_runs_agree(
    nfa: Seq<StateView>,
    start: int,
    dfa: Seq<PartialStateView>,
    base: int,
    progress: Progress,
    input: Seq<char>,
)
    requires
        0 <= base <= dfa.len(),
        table_ok(nfa, start, dfa.skip(base), base, progress),
        rows_ok(nfa, dfa.skip(base), base, progress, -1, Seq::empty()),
        progress.keys.len() >= 1,
        progress.words[0] == Seq::<char>::empty(),
        forall|i: int| 0 <= i < progress.keys.len() ==> progress.processed[i],
    ensures
        match dfa_after(dfa, base, input) {
            Some(q) => base <= q < base + progress.keys.len() && handles(progress.keys[q - base]) == states_after(
                nfa,
                start,
                input,
            ),
            None => states_after(nfa, start, input) == Set::<int>::empty(),
        },
    decreases input.len(),
{
    let rows = dfa.skip(base);
    if input.len() == 0 {
        assert(states_after(nfa, start, progress.words[0]) == handles(progress.keys[0]));
        assert(input =~= Seq::<char>::empty());
    } else {
        let shorter = input.drop_last();
        let symbol = input.last();
        lemma_runs_agree(nfa, start, dfa, base, progress, shorter);
        match dfa_after(dfa, base, shorter) {
            Some(q) => {
                let i = q - base;
                assert(rows[i] == dfa[q]);
                assert(row_right(nfa, rows, base, progress.keys, i, symbol));
                if !has_symbol(nfa, handles(progress.keys[i]), symbol) {
                    lemma_no_symbol_no_move(nfa, handles(progress.keys[i]), symbol);
                }
            },
            None => {
                lemma_no_symbol_no_move(nfa, Set::<int>::empty(), symbol);
            },
        }
    }
}

/// When every set that was found is processed, the two automata accept the same
/// inputs.
pub proof fn lemma_languages_agree(
    nfa: Seq<StateView>,
    start: int,
    dfa: Seq<PartialStateView>,
    base: int,
    progress: Progress,
    input: Seq<char>,
)
    requires
        0 <= base <= dfa.len(),
        table_ok(nfa, start, dfa.skip(base), base, progress),
        rows_ok(nfa, dfa.skip(base), base, progress, -1, Seq::empty()),
        progress.keys.len() >= 1,
        progress.words[0] == Seq::<char>::empty(),
        forall|i: int| 0 <= i < progress.keys.len() ==> progress.processed[i],
    ensures
        dfa_accepts(dfa, base, input) == nfa_accepts(nfa, start, input),
{
    lemma_runs_agree(nfa, start, dfa, base, progress, input);
    let rows = dfa.skip(base);
    match dfa_after(dfa, base, input) {
        Some(q) => {
            assert(rows[q - base] == dfa[q]);
            assert(rows[q - base].accept == any_accepting(nfa, handles(progress.keys[q - base])));
        },
        None => {},
    }
}

/// When every set that was found is processed, one of the deterministic states
/// that were made accepts exactly if some input is accepted.
pub proof fn lemma_accepting_state_iff_nonempty(
    nfa: Seq<StateView>,
    start: int,
    dfa: Seq<PartialStateView>,
    base: int,
    progress: Progress,
)
    requires
        0 <= base <= dfa.len(),
        table_ok(nfa, start, dfa.skip(base), base, progress),
        rows_ok(nfa, dfa.skip(base), base, progress, -1, Seq::empty()),
        progress.keys.len() >= 1,
        progress.words[0] == Seq::<char>::empty(),
        forall|i: int| 0 <= i < progress.keys.len() ==> progress.processed[i],
    ensures
        (exists|q: int| base <= q < dfa.len() && (#[trigger] dfa[q]).accept) <==> (exists|input: Seq<char>| #[trigger]
            nfa_accepts(nfa, start, input)),
{
    let rows = dfa.skip(base);
    if exists|q: int| base <= q < dfa.len() && (#[trigger] dfa[q]).accept {
        let q = choose|q: int| base <= q < dfa.len() && (#[trigger] dfa[q]).accept;
        let i = q - base;
        assert(rows[i] == dfa[q]);
        assert(states_after(nfa, start, progress.words[i]) == handles(progress.keys[i]));
        assert(nfa_accepts(nfa, start, progress.words[i]));
    }
    if exists|input: Seq<char>| #[trigger] nfa_accepts(nfa, start, input) {
        let input = choose|input: Seq<char>| #[trigger] nfa_accepts(nfa, start, input);
        lemma_languages_agree(nfa, start, dfa, base, progress, input);
        lemma_runs_agree(nfa, start, dfa, base, progress, input);
        let q = dfa_after(dfa, base, input)->Some_0;
        assert(dfa[q].accept);
    }
}

/// The progress after a set with a key that was not there yet has been entered,
/// to wait behind those that wait.
pub open spec fn with_new_set(progress: Progress, key: Seq<usize>, word: Seq<char>) -> Progress {
    Progress {
        keys: progress.keys.push(key),
        words: progress.words.push(word),
        processed: progress.processed.push(false),
        waiting: progress.waiting.push(progress.keys.len() as int),
    }
}

/// A deterministic state without transitions.
pub open spec fn bare(accept: bool) -> PartialStateView {
    PartialStateView { accept, transitions: Map::empty() }
}

/// Entering a new set, with a new state for it, keeps all that holds of the
/// construction.
pub proof fn lemma_new_set_keeps(
    nfa: Seq<StateView>,
    start: int,
    rows: Seq<PartialStateView>,
    base: int,
    progress: Progress,
    current: int,
    done: Seq<char>,
    key: Seq<usize>,
    word: Seq<char>,
)
    requires
        table_ok(nfa, start, rows, base, progress),
        rows_ok(nfa, rows, base, progress, current, done),
        queue_ok(progress, current),
        0 <= current < progress.keys.len(),
        increasing(key),
        forall|k: int| 0 <= k < key.len() ==> #[trigger] key[k] < nfa.len(),
        forall|i: int| 0 <= i < progress.keys.len() ==> #[trigger] progress.keys[i] != key,
        states_after(nfa, start, word) == handles(key),
    ensures
        table_ok(
            nfa,
            start,
            rows.push(bare(any_accepting(nfa, handles(key)))),
            base,
            with_new_set(progress, key, word),
        ),
        rows_ok(
            nfa,
            rows.push(bare(any_accepting(nfa, handles(key)))),
            base,
            with_new_set(progress, key, word),
            current,
            done,
        ),
        queue_ok(with_new_set(progress, key, word), current),
{
    let longer = rows.push(bare(any_accepting(nfa, handles(key))));
    let next = with_new_set(progress, key, word);
    let fresh = progress.keys.len() as int;
    assert forall|i: int| 0 <= i < next.keys.len() implies (#[trigger] longer[i]).accept == any_accepting(
        nfa,
        handles(next.keys[i]),
    ) by {
        if i < fresh {
            assert(longer[i] == rows[i]);
        }
    }
    assert forall|i: int| 0 <= i < next.keys.len() implies states_after(nfa, start, #[trigger] next.words[i]) == handles(
        next.keys[i],
    ) by {
        if i < fresh {
            assert(next.words[i] == progress.words[i]);
        }
    }
    assert forall|i: int, k: int| 0 <= i < next.keys.len() && 0 <= k < next.keys[i].len() implies #[trigger] next.keys[i][k]
        < nfa.len() by {
        if i < fresh {
            assert(progress.keys[i][k] < nfa.len());
        }
    }
    assert forall|i: int, symbol: char| 0 <= i < next.keys.len() && next.processed[i] implies #[trigger] row_right(
        nfa,
        longer,
        base,
        next.keys,
        i,
        symbol,
    ) by {
        assert(row_right(nfa, rows, base, progress.keys, i, symbol));
        assert(longer[i] == rows[i]);
    }
    assert forall|i: int, symbol: char| 0 <= i < next.keys.len() && !next.processed[i] && i != current implies !(
    #[trigger] longer[i].transitions.contains_key(symbol)) by {
        if i < fresh {
            assert(longer[i] == rows[i]);
            assert(!rows[i].transitions.contains_key(symbol));
        }
    }
    assert forall|symbol: char| #[trigger] row_right_so_far(nfa, longer, base, next.keys, current, done, symbol) by {
        assert(longer[current] == rows[current]);
        assert(row_right_so_far(nfa, rows, base, progress.keys, current, done, symbol));
        assert(next.keys[current] == progress.keys[current]);
    }
    assert forall|a: int, b: int| 0 <= a < next.waiting.len() && 0 <= b < next.waiting.len() && a != b implies next.waiting[a]
        != next.waiting[b] by {
        if a < progress.waiting.len() {
            assert(progress.waiting[a] < fresh);
        }
        if b < progress.waiting.len() {
            assert(progress.waiting[b] < fresh);
        }
    }
    assert forall|i: int| 0 <= i < next.keys.len() && !#[trigger] next.processed[i] && i != current implies next.waiting.contains(
        i,
    ) by {
        if i < fresh {
            assert(!progress.processed[i]);
            assert(progress.waiting.contains(i));
            let a = choose|a: int| 0 <= a < progress.waiting.len() && progress.waiting[a] == i;
            assert(next.waiting[a] == i);
        } else {
            assert(next.waiting[progress.waiting.len() as int] == i);
        }
    }
    assert forall|a: int| 0 <= a < next.waiting.len() implies {
        &&& 0 <= #[trigger] next.waiting[a] < next.keys.len()
        &&& !next.processed[next.waiting[a]]
        &&& next.waiting[a] != current
    } by {
        if a < progress.waiting.len() {
            assert(next.waiting[a] == progress.waiting[a]);
        }
    }
}

/// `rows` with the transition on `symbol` of the state at place `current` set to
/// the state at `base + target`.
pub open spec fn with_link(rows: Seq<PartialStateView>, base: int, current: int, symbol: char, target: int) -> Seq<PartialStateView> {
    rows.update(
        current,
        PartialStateView {
            accept: rows[current].accept,
            transitions: rows[current].transitions.insert(symbol, Some((base + target) as usize)),
        },
    )
}

/// A transition made in the state at `base + current` leaves the transitions of
/// every other state right where they were right.
pub proof fn lemma_link_keeps_other_rows(
    nfa: Seq<StateView>,
    rows: Seq<PartialStateView>,
    base: int,
    keys: Seq<Seq<usize>>,
    current: int,
    symbol: char,
    target: int,
    i: int,
    other: char,
)
    requires
        0 <= base,
        rows.len() == keys.len(),
        0 <= current < keys.len(),
        0 <= i < keys.len(),
        i != current || other != symbol,
        row_right(nfa, rows, base, keys, i, other),
    ensures
        row_right(nfa, with_link(rows, base, current, symbol, target), base, keys, i, other),
{
    let linked = with_link(rows, base, current, symbol, target);
    if i != current {
        assert(linked[i] == rows[i]);
    } else {
        assert(linked[i].transitions == rows[i].transitions.insert(symbol, Some((base + target) as usize)));
    }
}

/// A transition made on `symbol` to the state of the set that is reached on it is
/// right.
pub proof fn lemma_link_right(
    nfa: Seq<StateView>,
    rows: Seq<PartialStateView>,
    base: int,
    keys: Seq<Seq<usize>>,
    current: int,
    symbol: char,
    target: int,
)
    requires
        0 <= base,
        rows.len() == keys.len(),
        0 <= current < keys.len(),
        0 <= target < keys.len(),
        base + target <= usize::MAX,
        has_symbol(nfa, handles(keys[current]), symbol),
        handles(keys[target]) == eps_closure(nfa, move_on(nfa, handles(keys[current]), symbol)),
    ensures
        row_right(nfa, with_link(rows, base, current, symbol, target), base, keys, current, symbol),
{
    let linked = with_link(rows, base, current, symbol, target);
    let row = linked[current].transitions;
    assert(row == rows[current].transitions.insert(symbol, Some((base + target) as usize)));
    assert(row[symbol] == Some((base + target) as usize));
    assert(row[symbol]->Some_0 - base == target);
}

/// A transition made in one state keeps what holds of the table of sets.
pub proof fn lemma_link_keeps_table(
    nfa: Seq<StateView>,
    start: int,
    rows: Seq<PartialStateView>,
    base: int,
    progress: Progress,
    current: int,
    symbol: char,
    target: int,
)
    requires
        table_ok(nfa, start, rows, base, progress),
        0 <= current < progress.keys.len(),
    ensures
        table_ok(nfa, start, with_link(rows, base, current, symbol, target), base, progress),
{
    let linked = with_link(rows, base, current, symbol, target);
    assert forall|i: int| 0 <= i < progress.keys.len() implies (#[trigger] linked[i]).accept == any_accepting(
        nfa,
        handles(progress.keys[i]),
    ) by {
        assert(rows[i].accept == any_accepting(nfa, handles(progress.keys[i])));
    }
}

/// The state at place `current` is right so far on `other` after the transition
/// on `symbol` has been made in it.
pub proof fn lemma_link_keeps_so_far(
    nfa: Seq<StateView>,
    rows: Seq<PartialStateView>,
    base: int,
    keys: Seq<Seq<usize>>,
    current: int,
    done: Seq<char>,
    symbol: char,
    target: int,
    other: char,
)
    requires
        0 <= base,
        rows.len() == keys.len(),
        0 <= current < keys.len(),
        0 <= target < keys.len(),
        base + target <= usize::MAX,
        has_symbol(nfa, handles(keys[current]), symbol),
        handles(keys[target]) == eps_closure(nfa, move_on(nfa, handles(keys[current]), symbol)),
        row_right_so_far(nfa, rows, base, keys, current, done, other),
    ensures
        row_right_so_far(nfa, with_link(rows, base, current, symbol, target), base, keys, current, done.push(symbol), other),
{
    let linked = with_link(rows, base, current, symbol, target);
    let longer = done.push(symbol);
    if other == symbol {
        assert(longer[done.len() as int] == symbol);
        lemma_link_right(nfa, rows, base, keys, current, symbol, target);
    } else {
        assert(linked[current].transitions == rows[current].transitions.insert(symbol, Some((base + target) as usize)));
        if longer.contains(other) {
            let k = choose|k: int| 0 <= k < longer.len() && longer[k] == other;
            assert(done[k] == other);
            assert(done.contains(other));
            lemma_link_keeps_other_rows(nfa, rows, base, keys, current, symbol, target, current, other);
        } else {
            if done.contains(other) {
                let k = choose|k: int| 0 <= k < done.len() && done[k] == other;
                assert(longer[k] == other);
            }
        }
    }
}

/// Making the transition on one more symbol of the set at place `current`, to the
/// state of the set that is reached on it, keeps what holds of the transitions.
pub proof fn lemma_link_keeps_rows(
    nfa: Seq<StateView>,
    rows: Seq<PartialStateView>,
    base: int,
    progress: Progress,
    current: int,
    done: Seq<char>,
    symbol: char,
    target: int,
)
    requires
        0 <= base,
        rows.len() == progress.keys.len(),
        rows_ok(nfa, rows, base, progress, current, done),
        0 <= current < progress.keys.len(),
        0 <= target < progress.keys.len(),
        base + target <= usize::MAX,
        has_symbol(nfa, handles(progress.keys[current]), symbol),
        handles(progress.keys[target]) == eps_closure(nfa, move_on(nfa, handles(progress.keys[current]), symbol)),
    ensures
        rows_ok(nfa, with_link(rows, base, current, symbol, target), base, progress, current, done.push(symbol)),
{
    let linked = with_link(rows, base, current, symbol, target);
    let keys = progress.keys;
    assert forall|i: int, other: char| 0 <= i < keys.len() && progress.processed[i] implies #[trigger] row_right(
        nfa,
        linked,
        base,
        keys,
        i,
        other,
    ) by {
        assert(row_right(nfa, rows, base, keys, i, other));
        lemma_link_keeps_other_rows(nfa, rows, base, keys, current, symbol, target, i, other);
    }
    assert forall|i: int, other: char| 0 <= i < keys.len() && !progress.processed[i] && i != current implies !(
    #[trigger] linked[i].transitions.contains_key(other)) by {
        assert(linked[i] == rows[i]);
        assert(!rows[i].transitions.contains_key(other));
    }
    assert forall|other: char| #[trigger] row_right_so_far(nfa, linked, base, keys, current, done.push(symbol), other) by {
        assert(row_right_so_far(nfa, rows, base, keys, current, done, other));
        lemma_link_keeps_so_far(nfa, rows, base, keys, current, done, symbol, target, other);
    }
}

/// When the transitions of the set at place `current` have been made on every
/// symbol that one of its states has transitions on, the set is processed.
pub proof fn lemma_finish_keeps(
    nfa: Seq<StateView>,
    start: int,
    rows: Seq<PartialStateView>,
    base: int,
    progress: Progress,
    current: int,
    done: Seq<char>,
)
    requires
        table_ok(nfa, start, rows, base, progress),
        rows_ok(nfa, rows, base, progress, current, done),
        queue_ok(progress, current),
        0 <= current < progress.keys.len(),
        forall|symbol: char| done.contains(symbol) <==> has_symbol(nfa, handles(progress.keys[current]), symbol),
    ensures
        table_ok(nfa, start, rows, base,
            Progress { processed: progress.processed.update(current, true), ..progress },
        ),
        rows_ok(nfa, rows, base,
            Progress { processed: progress.processed.update(current, true), ..progress },
            -1,
            Seq::empty(),
        ),
        queue_ok(Progress { processed: progress.processed.update(current, true), ..progress }, -1),
{
    let next = Progress { processed: progress.processed.update(current, true), ..progress };
    assert forall|i: int, symbol: char| 0 <= i < next.keys.len() && next.processed[i] implies #[trigger] row_right(nfa, rows, base,
        next.keys,
        i,
        symbol,
    ) by {
        if i == current {
            assert(row_right_so_far(nfa, rows, base, progress.keys, current, done, symbol));
        } else {
            assert(progress.processed[i]);
            assert(row_right(nfa, rows, base, progress.keys, i, symbol));
        }
    }
    assert forall|i: int, symbol: char| 0 <= i < next.keys.len() && !next.processed[i] && i != -1 implies !(
    #[trigger] rows[i].transitions.contains_key(symbol)) by {
        assert(!progress.processed[i] && i != current);
    }
    assert forall|i: int| 0 <= i < next.keys.len() && !#[trigger] next.processed[i] && i != -1 implies next.waiting.contains(
        i,
    ) by {
        assert(!progress.processed[i] && i != current);
    }
    assert forall|a: int| 0 <= a < next.waiting.len() implies {
        &&& 0 <= #[trigger] next.waiting[a] < next.keys.len()
        &&& !next.processed[next.waiting[a]]
        &&& next.waiting[a] != -1
    } by {
        assert(progress.waiting[a] != current);
    }
}

/// Taking the set that waits last out of the queue makes it the current one,
/// with no transition made yet.
pub proof fn lemma_pop_keeps(
    nfa: Seq<StateView>,
    start: int,
    rows: Seq<PartialStateView>,
    base: int,
    progress: Progress,
)
    requires
        table_ok(nfa, start, rows, base, progress),
        rows_ok(nfa, rows, base, progress, -1, Seq::empty()),
        queue_ok(progress, -1),
        progress.waiting.len() > 0,
    ensures
        table_ok(nfa, start, rows, base, Progress { waiting: progress.waiting.drop_last(), ..progress }),
        rows_ok(nfa, rows, base,
            Progress { waiting: progress.waiting.drop_last(), ..progress },
            progress.waiting.last(),
            Seq::empty(),
        ),
        queue_ok(Progress { waiting: progress.waiting.drop_last(), ..progress }, progress.waiting.last()),
        0 <= progress.waiting.last() < progress.keys.len(),
{
    let next = Progress { waiting: progress.waiting.drop_last(), ..progress };
    let current = progress.waiting.last();
    let top = progress.waiting.len() - 1;
    assert(progress.waiting[top] == current);
    assert forall|symbol: char| #[trigger] row_right_so_far(nfa, rows, base, next.keys, current, Seq::<char>::empty(), symbol) by {
        assert(!progress.processed[current]);
        assert(!rows[current].transitions.contains_key(symbol));
    }
    assert forall|a: int| 0 <= a < next.waiting.len() implies {
        &&& 0 <= #[trigger] next.waiting[a] < next.keys.len()
        &&& !next.processed[next.waiting[a]]
        &&& next.waiting[a] != current
    } by {
        assert(next.waiting[a] == progress.waiting[a]);
        assert(progress.waiting[a] != progress.waiting[top]);
    }
    assert forall|a: int, b: int| 0 <= a < next.waiting.len() && 0 <= b < next.waiting.len() && a != b implies next.waiting[a]
        != next.waiting[b] by {
        assert(next.waiting[a] == progress.waiting[a]);
        assert(next.waiting[b] == progress.waiting[b]);
    }
    assert forall|i: int| 0 <= i < next.keys.len() && !#[trigger] next.processed[i] && i != current implies next.waiting.contains(
        i,
    ) by {
        assert(progress.waiting.contains(i));
        let a = choose|a: int| 0 <= a < progress.waiting.len() && progress.waiting[a] == i;
        assert(next.waiting[a] == i);
    }
}

/// Whether `symbol` is in `symbols`.
pub(crate) fn holds_symbol(symbols: &Vec<char>, symbol: char) -> (found: bool)
    ensures
        found == symbols@.contains(symbol),
{
    let mut i: usize = 0;
    while i < symbols.len()
        invariant
            0 <= i <= symbols@.len(),
            forall|j: int| 0 <= j < i ==> symbols@[j] != symbol,
        decreases symbols@.len() - i,
    {
        if symbols[i] == symbol {
            return true;
        }
        i += 1;
    }
    false
}

/// The symbols on which some state of `subset` has transitions, each once.
pub(crate) fn collect_symbols(arena: &Corrida<State>, subset: &StateList) -> (symbols: Vec<char>)
    requires
        distinct_below(state_list_view(*subset), arena@.len() as int),
    ensures
        forall|symbol: char|
            symbols@.contains(symbol) <==> has_symbol(state_views(arena@), handles(state_list_view(*subset)), symbol),
{
    let ghost nfa = state_views(arena@);
    let members = state_list_as_slice(subset);
    let mut symbols: Vec<char> = Vec::new();
    let mut i: usize = 0;
    while i < members.len()
        invariant
            nfa == state_views(arena@),
            members@ == state_list_view(*subset),
            distinct_below(members@, arena@.len() as int),
            0 <= i <= members@.len(),
            forall|symbol: char|
                symbols@.contains(symbol) <==> has_symbol(nfa, handles(members@.take(i as int)), symbol),
        decreases members@.len() - i,
    {
        let member: usize = members[i];
        let own = arena.get(member).symbols();
        let ghost before = symbols@;
        let mut j: usize = 0;
        while j < own.len()
            invariant
                0 <= j <= own@.len(),
                forall|symbol: char| symbols@.contains(symbol) <==> before.contains(symbol) || own@.take(j as int).contains(symbol),
            decreases own@.len() - j,
        {
            let ghost earlier = symbols@;
            let symbol = own[j];
            if !holds_symbol(&symbols, symbol) {
                symbols.push(symbol);
            }
            proof {
                let now = symbols@;
                let shorter = own@.take(j as int);
                let longer = own@.take(j + 1);
                assert(longer =~= shorter.push(symbol));
                assert forall|other: char| now.contains(other) <==> before.contains(other) || longer.contains(other) by {
                    if now.contains(other) {
                        let k = choose|k: int| 0 <= k < now.len() && now[k] == other;
                        if k < earlier.len() {
                            assert(earlier[k] == other);
                            assert(earlier.contains(other));
                            if shorter.contains(other) {
                                let m = choose|m: int| 0 <= m < shorter.len() && shorter[m] == other;
                                assert(longer[m] == other);
                            }
                        } else {
                            assert(longer[j as int] == other);
                        }
                    }
                    if before.contains(other) || shorter.contains(other) {
                        assert(earlier.contains(other));
                        let k = choose|k: int| 0 <= k < earlier.len() && earlier[k] == other;
                        assert(now[k] == other);
                    }
                    if longer.contains(other) && !shorter.contains(other) {
                        let m = choose|m: int| 0 <= m < longer.len() && longer[m] == other;
                        if m < j {
                            assert(shorter[m] == other);
                        }
                        assert(other == symbol);
                        if earlier.contains(symbol) {
                            let k = choose|k: int| 0 <= k < earlier.len() && earlier[k] == symbol;
                            assert(now[k] == symbol);
                        } else {
                            assert(now[now.len() - 1] == symbol);
                        }
                    }
                }
            }
            j += 1;
        }
        proof {
            assert(own@.take(j as int) =~= own@);
            let shorter = members@.take(i as int);
            let longer = members@.take(i + 1);
            assert(longer =~= shorter.push(member));
            assert forall|symbol: char| symbols@.contains(symbol) <==> has_symbol(nfa, handles(longer), symbol) by {
                if has_symbol(nfa, handles(longer), symbol) {
                    let p = choose|p: int|
                        0 <= p < nfa.len() && #[trigger] handles(longer).contains(p) && nfa[p].transitions.contains_key(Some(symbol));
                    let k = choose|k: int| 0 <= k < longer.len() && longer[k] == p as usize;
                    if k < i {
                        assert(shorter[k] == p as usize);
                        assert(shorter.contains(p as usize));
                        assert(handles(shorter).contains(p));
                        assert(has_symbol(nfa, handles(shorter), symbol));
                    } else {
                        assert(p == member);
                        assert(own@.contains(symbol));
                    }
                }
                if before.contains(symbol) {
                    assert(has_symbol(nfa, handles(shorter), symbol));
                    let p = choose|p: int|
                        0 <= p < nfa.len() && #[trigger] handles(shorter).contains(p) && nfa[p].transitions.contains_key(Some(symbol));
                    let k = choose|k: int| 0 <= k < shorter.len() && shorter[k] == p as usize;
                    assert(longer[k] == p as usize);
                    assert(handles(longer).contains(p));
                }
                if own@.contains(symbol) {
                    assert(longer[i as int] == member);
                    assert(longer.contains(member));
                    assert(handles(longer).contains(member as int));
                    assert(nfa[member as int].transitions.contains_key(Some(symbol)));
                }
            }
        }
        i += 1;
    }
    assert(members@.take(i as int) =~= members@);
    symbols
}

/// The states of `dfa` from `base` on are what subset construction makes of the
/// automaton `nfa` that starts in `start`: there is a table of sets of its
/// states, one for each of them and no set twice, the first being what the
/// automaton may be in before it reads anything and each being what it may be in
/// after some word; each state accepts exactly if a member of its set does, and
/// has on each symbol the transition to the state of the set that is reached on
/// it, and none where no member has transitions on the symbol.
pub open spec fn built_by_subsets(nfa: Seq<StateView>, start: int, dfa: Seq<PartialStateView>, base: int) -> bool {
    &&& 0 <= base <= dfa.len()
    &&& exists|progress: Progress|
        {
            &&& #[trigger] table_ok(nfa, start, dfa.skip(base), base, progress)
            &&& rows_ok(nfa, dfa.skip(base), base, progress, -1, Seq::empty())
            &&& progress.keys.len() >= 1
            &&& progress.words[0] == Seq::<char>::empty()
            &&& forall|i: int| 0 <= i < progress.keys.len() ==> progress.processed[i]
        }
}

/// A deterministic automaton made by subset construction accepts exactly the
/// inputs that the automaton it was made from accepts.
pub proof fn lemma_subset_construction_keeps_language(
    nfa: Seq<StateView>,
    start: int,
    dfa: Seq<PartialStateView>,
    base: int,
    input: Seq<char>,
)
    requires
        built_by_subsets(nfa, start, dfa, base),
    ensures
        dfa_accepts(dfa, base, input) == nfa_accepts(nfa, start, input),
{
    let progress = choose|progress: Progress|
        {
            &&& #[trigger] table_ok(nfa, start, dfa.skip(base), base, progress)
            &&& rows_ok(nfa, dfa.skip(base), base, progress, -1, Seq::empty())
            &&& progress.keys.len() >= 1
            &&& progress.words[0] == Seq::<char>::empty()
            &&& forall|i: int| 0 <= i < progress.keys.len() ==> progress.processed[i]
        };
    lemma_languages_agree(nfa, start, dfa, base, progress, input);
}

/// A deterministic automaton made by subset construction has an accepting state
/// among those that were made exactly if some input is accepted.
pub proof fn lemma_subset_construction_accepts_something(
    nfa: Seq<StateView>,
    start: int,
    dfa: Seq<PartialStateView>,
    base: int,
)
    requires
        built_by_subsets(nfa, start, dfa, base),
    ensures
        (exists|q: int| base <= q < dfa.len() && (#[trigger] dfa[q]).accept) <==> (exists|input: Seq<char>| #[trigger]
            nfa_accepts(nfa, start, input)),
{
    let progress = choose|progress: Progress|
        {
            &&& #[trigger] table_ok(nfa, start, dfa.skip(base), base, progress)
            &&& rows_ok(nfa, dfa.skip(base), base, progress, -1, Seq::empty())
            &&& progress.keys.len() >= 1
            &&& progress.words[0] == Seq::<char>::empty()
            &&& forall|i: int| 0 <= i < progress.keys.len() ==> progress.processed[i]
        };
    lemma_accepting_state_iff_nonempty(nfa, start, dfa, base, progress);
}

/// The keys of a table as sequences.
pub open spec fn key_views(keys: Seq<Vec<usize>>) -> Seq<Seq<usize>> {
    keys.map_values(|key: Vec<usize>| key@)
}

/// The queue holds, for each set that waits, the list of its states and its
/// place in the table.
pub open spec fn queue_matches(queue: Seq<(StateList, usize)>, progress: Progress, n: int) -> bool {
    &&& queue.len() == progress.waiting.len()
    &&& forall|a: int|
        0 <= a < queue.len() ==> {
            &&& (#[trigger] queue[a]).1 as int == progress.waiting[a]
            &&& distinct_below(state_list_view(queue[a].0), n)
            &&& handles(state_list_view(queue[a].0)) == handles(progress.keys[progress.waiting[a]])
        }
}

impl<'a> Nfa<'a> {
    /// Builds into `arena`, behind the states that are there, a deterministic
    /// automaton that accepts the same inputs as this one.
    ///
    /// Each of its states stands for a set of states of this automaton: the first
    /// for those it may be in before reading anything, the others for the sets
    /// that are reached from there. So each of them is reached on some input, and
    /// one of them accepts exactly if some input is accepted.
    pub fn as_dfa<'b>(&self, arena: &'b mut Corrida<PartialState>) -> (dfa: Dfa<'b, PartialState>)
        requires
            old(arena).wf(),
        ensures
            final(arena).wf(),
            final(arena)@.len() > old(arena)@.len(),
            final(arena)@.take(old(arena)@.len() as int) == old(arena)@,
            dfa.states() == partial_views(final(arena)@),
            dfa.start() == old(arena)@.len(),
            built_by_subsets(self.states(), self.start(), dfa.states(), dfa.start()),
            forall|input: Seq<char>|
                #[trigger] dfa_accepts(dfa.states(), dfa.start(), input) == nfa_accepts(self.states(), self.start(), input),
            (exists|q: int| old(arena)@.len() <= q < dfa.states().len() && (#[trigger] dfa.states()[q]).accept) <==> (
            exists|input: Seq<char>| #[trigger] nfa_accepts(self.states(), self.start(), input)),
    {
        let nfa_arena = self.arena();
        let start_node = self.start_node();
        let ghost nfa = state_views(nfa_arena@);
        let ghost start = start_node as int;
        let n = nfa_arena.len();
        let base = arena.len();
        let mut seen: HashSet<usize> = HashSet::new();

        let first = start_set(nfa_arena, start_node, &mut seen);
        let first_key = subset_key(&first);
        let first_accept = any_accept(nfa_arena, &first);
        let mut first_state = PartialState::new();
        first_state.set_accept(first_accept);
        let ghost first_view = first_state@;
        arena.allocate(first_state);
        let ghost mut progress = Progress {
            keys: seq![first_key@],
            words: seq![Seq::<char>::empty()],
            processed: seq![false],
            waiting: seq![0int],
        };
        let mut keys: Vec<Vec<usize>> = Vec::new();
        keys.push(first_key);
        let mut queue: Vec<(StateList, usize)> = Vec::new();
        queue.push((first, 0));
        proof {
            let rows = partial_views(arena@).skip(base as int);
            assert(rows =~= seq![first_view]);
            assert(key_views(keys@) =~= progress.keys);
            assert(handles(progress.keys[0]) =~= handles(state_list_view(queue@[0].0)));
            assert forall|k: int| 0 <= k < progress.keys[0].len() implies #[trigger] progress.keys[0][k] < nfa.len() by {
                assert(progress.keys[0].contains(progress.keys[0][k]));
                let at = choose|at: int|
                    0 <= at < state_list_view(queue@[0].0).len() && state_list_view(queue@[0].0)[at] == progress.keys[0][k];
            }
            assert(arena@.take(base as int) =~= old(arena)@);
            assert(progress.waiting.contains(0)) by {
                assert(progress.waiting[0] == 0);
            }
        }
        while queue.len() > 0
            invariant
                arena.wf(),
                nfa == state_views(nfa_arena@),
                n == nfa_arena@.len(),
                base == old(arena)@.len(),
                base + keys@.len() == arena@.len(),
                arena@.take(base as int) == old(arena)@,
                progress.keys == key_views(keys@),
                progress.keys.len() >= 1,
                progress.words[0] == Seq::<char>::empty(),
                table_ok(nfa, start, partial_views(arena@).skip(base as int), base as int, progress),
                rows_ok(nfa, partial_views(arena@).skip(base as int), base as int, progress, -1, Seq::empty()),
                queue_ok(progress, -1),
                queue_matches(queue@, progress, n as int),
            decreases pow2(n as nat) + queue@.len() - keys@.len(),
        {
            let ghost gap = queue@.len() - 1 - keys@.len();
            proof {
                lemma_pop_keeps(nfa, start, partial_views(arena@).skip(base as int), base as int, progress);
            }
            let ghost full_queue = queue@;
            let (subset, index): (StateList, usize) = queue.pop().unwrap();
            proof {
                assert(full_queue.last().1 as int == progress.waiting[progress.waiting.len() - 1]);
                progress = Progress { waiting: progress.waiting.drop_last(), ..progress };
                assert forall|a: int| 0 <= a < queue@.len() implies {
                    &&& (#[trigger] queue@[a]).1 as int == progress.waiting[a]
                    &&& distinct_below(state_list_view(queue@[a].0), n as int)
                    &&& handles(state_list_view(queue@[a].0)) == handles(progress.keys[progress.waiting[a]])
                } by {
                    assert(queue@[a] == full_queue[a]);
                }
            }
            let symbols = collect_symbols(nfa_arena, &subset);
            let mut k: usize = 0;
            assert(symbols@.take(0) =~= Seq::<char>::empty());
            while k < symbols.len()
                invariant
                    arena.wf(),
                    nfa == state_views(nfa_arena@),
                    n == nfa_arena@.len(),
                    base == old(arena)@.len(),
                    base + keys@.len() == arena@.len(),
                    arena@.take(base as int) == old(arena)@,
                    progress.keys == key_views(keys@),
                    progress.keys.len() >= 1,
                    progress.words[0] == Seq::<char>::empty(),
                    0 <= k <= symbols@.len(),
                    index < keys@.len(),
                    queue@.len() - keys@.len() == gap,
                    distinct_below(state_list_view(subset), n as int),
                    handles(state_list_view(subset)) == handles(progress.keys[index as int]),
                    forall|symbol: char|
                        symbols@.contains(symbol) <==> has_symbol(nfa, handles(state_list_view(subset)), symbol),
                    table_ok(nfa, start, partial_views(arena@).skip(base as int), base as int, progress),
                    rows_ok(
                        nfa,
                        partial_views(arena@).skip(base as int),
                        base as int,
                        progress,
                        index as int,
                        symbols@.take(k as int),
                    ),
                    queue_ok(progress, index as int),
                    queue_matches(queue@, progress, n as int),
                decreases symbols@.len() - k,
            {
                let symbol = symbols[k];
                let ghost word = progress.words[index as int].push(symbol);
                let next = step(nfa_arena, &subset, symbol, &mut seen);
                let key = subset_key(&next);
                proof {
                    assert(symbols@.contains(symbol));
                    assert(word.drop_last() =~= progress.words[index as int]);
                    assert(word.last() == symbol);
                    assert(states_after(nfa, start, word) == handles(state_list_view(next)));
                    assert(handles(key@) =~= handles(state_list_view(next)));
                    assert forall|m: int| 0 <= m < key@.len() implies #[trigger] key@[m] < nfa.len() by {
                        assert(key@.contains(key@[m]));
                        let at = choose|at: int| 0 <= at < state_list_view(next).len() && state_list_view(next)[at] == key@[m];
                    }
                }
                let target: usize = match find_key(&keys, &key) {
                    Some(found) => {
                        proof {
                            assert(progress.keys[found as int] == key@);
                        }
                        found
                    },
                    None => {
                        let accept = any_accept(nfa_arena, &next);
                        let mut state = PartialState::new();
                        state.set_accept(accept);
                        let ghost rows = partial_views(arena@).skip(base as int);
                        let ghost state_view = state@;
                        arena.allocate(state);
                        proof {
                            assert forall|i: int| 0 <= i < progress.keys.len() implies #[trigger] progress.keys[i] != key@ by {
                                assert(progress.keys[i] == keys@[i]@);
                            }
                            lemma_new_set_keeps(
                                nfa,
                                start,
                                rows,
                                base as int,
                                progress,
                                index as int,
                                symbols@.take(k as int),
                                key@,
                                word,
                            );
                            assert(state_view == bare(any_accepting(nfa, handles(key@))));
                            assert(partial_views(arena@).skip(base as int) =~= rows.push(state_view));
                            assert(arena@.take(base as int) =~= old(arena)@);
                            progress = with_new_set(progress, key@, word);
                        }
                        let ghost old_queue = queue@;
                        let fresh: usize = keys.len();
                        keys.push(key);
                        queue.push((next, fresh));
                        proof {
                            assert(key_views(keys@) =~= progress.keys);
                            assert forall|a: int| 0 <= a < queue@.len() implies {
                                &&& (#[trigger] queue@[a]).1 as int == progress.waiting[a]
                                &&& distinct_below(state_list_view(queue@[a].0), n as int)
                                &&& handles(state_list_view(queue@[a].0)) == handles(progress.keys[progress.waiting[a]])
                            } by {
                                if a < old_queue.len() {
                                    assert(queue@[a] == old_queue[a]);
                                }
                            }
                        }
                        fresh
                    },
                };
                let ghost rows = partial_views(arena@).skip(base as int);
                let ghost done = symbols@.take(k as int);
                proof {
                    arena.lemma_len_fits();
                }
                let state = arena.get_mut(base + index);
                state.add_transition((symbol, Some(base + target)));
                proof {
                    lemma_link_keeps_table(nfa, start, rows, base as int, progress, index as int, symbol, target as int);
                    lemma_link_keeps_rows(nfa, rows, base as int, progress, index as int, done, symbol, target as int);
                    assert(partial_views(arena@).skip(base as int) =~= with_link(
                        rows,
                        base as int,
                        index as int,
                        symbol,
                        target as int,
                    ));
                    assert(symbols@.take(k + 1) =~= done.push(symbol));
                    assert(arena@.take(base as int) =~= old(arena)@);
                }
                k += 1;
            }
            proof {
                assert(symbols@.take(k as int) =~= symbols@);
                lemma_finish_keeps(
                    nfa,
                    start,
                    partial_views(arena@).skip(base as int),
                    base as int,
                    progress,
                    index as int,
                    symbols@,
                );
                progress = Progress { processed: progress.processed.update(index as int, true), ..progress };
                lemma_keys_bounded(progress.keys, n as nat);
            }
        }
        proof {
            let all = partial_views(arena@);
            assert forall|i: int| 0 <= i < progress.keys.len() implies progress.processed[i] by {
                if !progress.processed[i] {
                    assert(progress.waiting.len() == 0);
                    assert(progress.waiting.contains(i));
                    let a = choose|a: int| 0 <= a < progress.waiting.len() && progress.waiting[a] == i;
                }
            }
            assert(table_ok(nfa, start, all.skip(base as int), base as int, progress));
            assert(built_by_subsets(nfa, start, all, base as int));
            assert forall|input: Seq<char>| #[trigger] dfa_accepts(all, base as int, input) == nfa_accepts(nfa, start, input) by {
                lemma_subset_construction_keeps_language(nfa, start, all, base as int, input);
            }
            lemma_subset_construction_accepts_something(nfa, start, all, base as int);
        }
        Dfa::<PartialState>::new(&*arena, base)
    }
}

} // verus!
