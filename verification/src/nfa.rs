//! Non-deterministic automata: their states, what it means for one to accept a
//! word, and the two ways of running one.

use crate::chars::collect_chars;
use crate::corrida::Corrida;
use crate::tables::{
    nfa_table_get, nfa_table_get_mut, nfa_table_insert, nfa_table_new, nfa_table_symbols,
    nfa_table_view, state_list_as_slice, state_list_new, state_list_push, state_list_view,
    targets_as_slice, targets_new, targets_push, targets_view, StateList, Targets,
};
use std::collections::HashSet;
use std::str::Chars;
use vstd::prelude::*;
use vstd::set_lib::{lemma_int_range, lemma_len_subset, set_int_range};
use vstd::std_specs::iter::IteratorSpec;
use vstd::string::into_iter_elts;

verus! {

/// What a state is, apart from where it is stored: whether it accepts, and for
/// each symbol its targets in the order in which they were pushed. The symbol
/// `None` is the empty word; the target `None` is the state itself.
pub struct StateView {
    pub accept: bool,
    pub transitions: Map<Option<char>, Seq<Option<usize>>>,
}

impl StateView {
    /// The targets on `symbol`; none where the symbol has no entry.
    pub open spec fn targets_on(self, symbol: Option<char>) -> Seq<Option<usize>> {
        if self.transitions.contains_key(symbol) {
            self.transitions[symbol]
        } else {
            Seq::empty()
        }
    }
}

/// The handle that `target` stands for in a state whose own handle is `owner`.
pub open spec fn resolve(owner: int, target: Option<usize>) -> int {
    match target {
        Some(t) => t as int,
        None => owner,
    }
}

/// State `p` has a transition on `symbol` to state `q`, and both exist.
pub open spec fn edge(states: Seq<StateView>, p: int, symbol: Option<char>, q: int) -> bool {
    &&& 0 <= p < states.len()
    &&& 0 <= q < states.len()
    &&& exists|i: int|
        0 <= i < states[p].targets_on(symbol).len() && resolve(p, #[trigger] states[p].targets_on(symbol)[i]) == q
}

/// `path` starts at a state that exists, and each of its states has a transition
/// on the empty word to the next.
pub open spec fn eps_path(states: Seq<StateView>, path: Seq<int>) -> bool {
    &&& path.len() >= 1
    &&& 0 <= path[0] < states.len()
    &&& forall|i: int| 0 <= i < path.len() - 1 ==> edge(states, #[trigger] path[i], None, path[i + 1])
}

/// `q` is reached from `p` without reading a symbol.
pub open spec fn eps_reach(states: Seq<StateView>, p: int, q: int) -> bool {
    exists|path: Seq<int>| #[trigger] eps_path(states, path) && path[0] == p && path.last() == q
}

/// Every state that is reached from a state of `seed` without reading a symbol.
pub open spec fn eps_closure(states: Seq<StateView>, seed: Set<int>) -> Set<int> {
    Set::new(|q: int| exists|p: int| seed.contains(p) && #[trigger] eps_reach(states, p, q))
}

/// Every state that a state of `from` has a transition to on `symbol`.
pub open spec fn move_on(states: Seq<StateView>, from: Set<int>, symbol: char) -> Set<int> {
    Set::new(|q: int| exists|p: int| from.contains(p) && #[trigger] edge(states, p, Some(symbol), q))
}

/// The states the automaton may be in when it has started in `start` and read
/// `input`.
pub open spec fn states_after(states: Seq<StateView>, start: int, input: Seq<char>) -> Set<int>
    decreases input.len(),
{
    if input.len() == 0 {
        eps_closure(states, set![start])
    } else {
        eps_closure(states, move_on(states, states_after(states, start, input.drop_last()), input.last()))
    }
}

/// Some state of `set` accepts.
pub open spec fn any_accepting(states: Seq<StateView>, set: Set<int>) -> bool {
    exists|q: int| 0 <= q < states.len() && #[trigger] set.contains(q) && states[q].accept
}

/// The automaton that starts in `start` accepts `input` as a whole.
pub open spec fn nfa_accepts(states: Seq<StateView>, start: int, input: Seq<char>) -> bool {
    any_accepting(states, states_after(states, start, input))
}

/// The handles that occur in `list`, as a set.
pub open spec fn handles(list: Seq<usize>) -> Set<int> {
    Set::new(|q: int| 0 <= q <= usize::MAX && list.contains(q as usize))
}

/// A state of a non-deterministic automaton.
pub struct State {
    transitions: smallmap::Map<Option<char>, Targets>,
    is_accept: bool,
}

impl View for State {
    type V = StateView;

    closed spec fn view(&self) -> StateView {
        StateView { accept: self.is_accept, transitions: nfa_table_view(self.transitions) }
    }
}

/// Walks the targets of one state on one symbol, first to last.
pub struct HomoIter<'a> {
    transitions_vec: &'a [Option<usize>],
    index: usize,
}

impl<'a> HomoIter<'a> {
    /// The targets that are walked.
    pub closed spec fn targets(&self) -> Seq<Option<usize>> {
        self.transitions_vec@
    }

    /// How many of them have been handed out.
    pub closed spec fn position(&self) -> int {
        self.index as int
    }

    /// No more than all of them have been handed out.
    pub closed spec fn wf(&self) -> bool {
        self.index <= self.transitions_vec@.len()
    }

    /// Hands out the next target, or `None` when all have been handed out.
    pub fn next(&mut self) -> (target: Option<Option<usize>>)
        requires
            old(self).wf(),
        ensures
            final(self).wf(),
            final(self).targets() == old(self).targets(),
            old(self).position() < old(self).targets().len() ==> {
                &&& target == Some(old(self).targets()[old(self).position()])
                &&& final(self).position() == old(self).position() + 1
            },
            old(self).position() >= old(self).targets().len() ==> {
                &&& target is None
                &&& final(self).position() == old(self).position()
            },
    {
        if self.index >= self.transitions_vec.len() {
            None
        } else {
            let next = self.transitions_vec[self.index];
            self.index += 1;
            Some(next)
        }
    }
}

impl State {
    /// Creates a state without transitions.
    pub fn new(is_accept: bool) -> (state: Self)
        ensures
            state@.accept == is_accept,
            state@.transitions == Map::<Option<char>, Seq<Option<usize>>>::empty(),
    {
        let state = Self { transitions: nfa_table_new(), is_accept };
        assert(state@.transitions =~= Map::<Option<char>, Seq<Option<usize>>>::empty());
        state
    }

    /// Adds a transition on `symbol` behind those that are there. The symbol
    /// `None` is the empty word; the target `None` is this state itself.
    pub fn push_transition(&mut self, symbol: Option<char>, target: Option<usize>)
        ensures
            final(self)@.accept == old(self)@.accept,
            final(self)@.transitions == old(self)@.transitions.insert(
                symbol,
                old(self)@.targets_on(symbol).push(target),
            ),
    {
        match nfa_table_get_mut(&mut self.transitions, &symbol) {
            Some(existing) => {
                targets_push(existing, target);
            },
            None => {
                let mut list = targets_new();
                targets_push(&mut list, target);
                assert(targets_view(list) =~= Seq::<Option<usize>>::empty().push(target));
                nfa_table_insert(&mut self.transitions, symbol, list);
            },
        }
    }

    /// Makes the state accepting or not.
    pub fn set_accept(&mut self, is_accept: bool)
        ensures
            final(self)@.accept == is_accept,
            final(self)@.transitions == old(self)@.transitions,
    {
        self.is_accept = is_accept;
    }

    /// The targets on `symbol`, to be walked first to last.
    pub fn get_transitions(&self, symbol: Option<char>) -> (iter: HomoIter<'_>)
        ensures
            iter.wf(),
            iter.position() == 0,
            iter.targets() == self@.targets_on(symbol),
    {
        match nfa_table_get(&self.transitions, &symbol) {
            Some(list) => HomoIter { transitions_vec: targets_as_slice(list), index: 0 },
            None => HomoIter { transitions_vec: &[], index: 0 },
        }
    }

    /// The symbols on which the state has transitions, the empty word left out,
    /// each once or more, in no stated order.
    pub fn symbols(&self) -> (symbols: Vec<char>)
        ensures
            forall|c: char| #[trigger] symbols@.contains(c) <==> self@.transitions.contains_key(Some(c)),
    {
        let keys = nfa_table_symbols(&self.transitions);
        let mut symbols: Vec<char> = Vec::new();
        let mut i: usize = 0;
        while i < keys.len()
            invariant
                0 <= i <= keys.len(),
                forall|c: char| #[trigger] symbols@.contains(c) <==> keys@.take(i as int).contains(Some(c)),
            decreases keys.len() - i,
        {
            let ghost before = symbols@;
            match keys[i] {
                Some(c) => {
                    symbols.push(c);
                },
                None => {},
            }
            proof {
                let key = keys@[i as int];
                let pre = keys@.take(i as int);
                let post = keys@.take(i + 1);
                assert(post =~= pre.push(key));
                assert forall|c: char| #[trigger] symbols@.contains(c) <==> post.contains(Some(c)) by {
                    if symbols@.contains(c) {
                        let j = choose|j: int| 0 <= j < symbols@.len() && symbols@[j] == c;
                        if j < before.len() {
                            assert(before[j] == c);
                            assert(before.contains(c));
                            let k = choose|k: int| 0 <= k < pre.len() && pre[k] == Some(c);
                            assert(post[k] == Some(c));
                        } else {
                            assert(post[i as int] == Some(c));
                        }
                    }
                    if post.contains(Some(c)) {
                        let k = choose|k: int| 0 <= k < post.len() && post[k] == Some(c);
                        if k < i {
                            assert(pre[k] == Some(c));
                            assert(pre.contains(Some(c)));
                            assert(before.contains(c));
                            let j = choose|j: int| 0 <= j < before.len() && before[j] == c;
                            assert(symbols@[j] == c);
                        } else {
                            assert(symbols@[symbols@.len() - 1] == c);
                        }
                    }
                }
            }
            i += 1;
        }
        assert(keys@.take(i as int) =~= keys@);
        symbols
    }

    /// Whether the state accepts.
    pub fn is_accept(&self) -> (accept: bool)
        ensures
            accept == self@.accept,
    {
        self.is_accept
    }
}

/// The states of an arena as the automaton sees them.
pub open spec fn state_views(arena: Seq<State>) -> Seq<StateView> {
    arena.map_values(|state: State| state@)
}

/// Some state of `sources` has a transition on `symbol` to `q`.
pub open spec fn reached_from(states: Seq<StateView>, sources: Seq<usize>, symbol: Option<char>, q: int) -> bool {
    exists|j: int| 0 <= j < sources.len() && #[trigger] edge(states, sources[j] as int, symbol, q)
}

/// No handle occurs twice in `list`, and each is the handle of one of `n` states.
pub open spec fn distinct_below(list: Seq<usize>, n: int) -> bool {
    &&& list.no_duplicates()
    &&& forall|i: int| 0 <= i < list.len() ==> #[trigger] list[i] < n
}

/// A list of distinct handles below `n` has at most `n` items.
pub proof fn lemma_distinct_bounded(list: Seq<usize>, n: int)
    requires
        distinct_below(list, n),
        n >= 0,
    ensures
        list.len() <= n,
{
    let ints = list.map_values(|h: usize| h as int);
    assert(ints.no_duplicates()) by {
        assert forall|i: int, j: int| 0 <= i < ints.len() && 0 <= j < ints.len() && i != j implies ints[i] != ints[j] by {
            assert(list[i] != list[j]);
        }
    }
    ints.unique_seq_to_set();
    assert(ints.len() == list.len());
    if n <= 0 {
        if list.len() > 0 {
            assert(list[0] < n);
        }
    } else {
        lemma_int_range(0, n);
        assert(ints.to_set().subset_of(set_int_range(0, n))) by {
            assert forall|x: int| ints.to_set().contains(x) implies set_int_range(0, n).contains(x) by {
                let i = choose|i: int| 0 <= i < ints.len() && ints[i] == x;
                assert(list[i] < n);
            }
        }
        lemma_len_subset(ints.to_set(), set_int_range(0, n));
        assert(ints.to_set().len() <= n);
    }
}

/// Adding a handle that is not yet in the list keeps the handles distinct.
pub proof fn lemma_push_fresh(list: Seq<usize>, t: usize, n: int)
    requires
        distinct_below(list, n),
        !list.contains(t),
        t < n,
    ensures
        distinct_below(list.push(t), n),
        forall|q: usize| #[trigger] list.push(t).contains(q) <==> list.contains(q) || q == t,
{
    let longer = list.push(t);
    assert forall|i: int, j: int| 0 <= i < longer.len() && 0 <= j < longer.len() && i != j implies longer[i] != longer[j] by {
        if i < list.len() && j < list.len() {
            assert(list[i] != list[j]);
        } else if i < list.len() {
            assert(list.contains(list[i]));
        } else {
            assert(list.contains(list[j]));
        }
    }
    assert forall|q: usize| #[trigger] longer.contains(q) <==> list.contains(q) || q == t by {
        if longer.contains(q) {
            let i = choose|i: int| 0 <= i < longer.len() && longer[i] == q;
            if i < list.len() {
                assert(list[i] == q);
            }
        }
        if list.contains(q) {
            let i = choose|i: int| 0 <= i < list.len() && list[i] == q;
            assert(longer[i] == q);
        }
        if q == t {
            assert(longer[list.len() as int] == q);
        }
    }
}

/// A set that holds the valid states of `seed` and is closed under transitions on
/// the empty word holds the end of every path that starts in `seed`.
pub proof fn lemma_path_stays_inside(states: Seq<StateView>, seed: Set<int>, inside: Set<int>, path: Seq<int>)
    requires
        forall|s: int| seed.contains(s) && 0 <= s < states.len() ==> inside.contains(s),
        forall|m: int, t: int| inside.contains(m) && #[trigger] edge(states, m, None, t) ==> inside.contains(t),
        eps_path(states, path),
        seed.contains(path[0]),
    ensures
        inside.contains(path.last()),
    decreases path.len(),
{
    if path.len() > 1 {
        let shorter = path.drop_last();
        assert forall|i: int| 0 <= i < shorter.len() - 1 implies edge(states, #[trigger] shorter[i], None, shorter[i + 1]) by {
            assert(edge(states, path[i], None, path[i + 1]));
        }
        lemma_path_stays_inside(states, seed, inside, shorter);
        assert(edge(states, path[path.len() - 2], None, path[path.len() - 2 + 1]));
    }
}

/// The closure of `seed` is the least set that holds the valid states of `seed`
/// and is closed under transitions on the empty word.
pub proof fn lemma_closure_least(states: Seq<StateView>, seed: Set<int>, inside: Set<int>)
    requires
        forall|s: int| seed.contains(s) && 0 <= s < states.len() ==> inside.contains(s),
        forall|m: int, t: int| inside.contains(m) && #[trigger] edge(states, m, None, t) ==> inside.contains(t),
    ensures
        eps_closure(states, seed).subset_of(inside),
{
    assert forall|q: int| eps_closure(states, seed).contains(q) implies inside.contains(q) by {
        let p = choose|p: int| seed.contains(p) && #[trigger] eps_reach(states, p, q);
        let path = choose|path: Seq<int>| #[trigger] eps_path(states, path) && path[0] == p && path.last() == q;
        lemma_path_stays_inside(states, seed, inside, path);
    }
}

/// A valid state of `seed` is in the closure of `seed`.
pub proof fn lemma_closure_holds_seed(states: Seq<StateView>, seed: Set<int>, p: int)
    requires
        seed.contains(p),
        0 <= p < states.len(),
    ensures
        eps_closure(states, seed).contains(p),
{
    let path = seq![p];
    assert(eps_path(states, path) && path[0] == p && path.last() == p);
    assert(eps_reach(states, p, p));
}

/// The closure of `seed` is closed under transitions on the empty word.
pub proof fn lemma_closure_closed(states: Seq<StateView>, seed: Set<int>, m: int, q: int)
    requires
        eps_closure(states, seed).contains(m),
        edge(states, m, None, q),
    ensures
        eps_closure(states, seed).contains(q),
{
    let p = choose|p: int| seed.contains(p) && #[trigger] eps_reach(states, p, m);
    let path = choose|path: Seq<int>| #[trigger] eps_path(states, path) && path[0] == p && path.last() == m;
    let longer = path.push(q);
    assert forall|i: int| 0 <= i < longer.len() - 1 implies edge(states, #[trigger] longer[i], None, longer[i + 1]) by {
        if i < path.len() - 1 {
            assert(edge(states, path[i], None, path[i + 1]));
        }
    }
    assert(eps_path(states, longer) && longer[0] == p && longer.last() == q);
    assert(eps_reach(states, p, q));
}

/// One of the first `upto` items of `targets` stands for `q` in state `owner`.
pub open spec fn target_among(owner: int, targets: Seq<Option<usize>>, upto: int, q: int) -> bool {
    exists|i: int| 0 <= i < upto && i < targets.len() && resolve(owner, #[trigger] targets[i]) == q
}

/// Adds to `list` the targets of state `owner` on `symbol` that exist and are not
/// in it yet, in the order of the state's target list. `seen` holds the handles
/// that are in the list.
pub(crate) fn push_targets(
    arena: &Corrida<State>,
    owner: usize,
    symbol: Option<char>,
    list: &mut StateList,
    seen: &mut HashSet<usize>,
)
    requires
        owner < arena@.len(),
        distinct_below(state_list_view(*old(list)), arena@.len() as int),
        forall|q: usize| old(seen)@.contains(q) <==> state_list_view(*old(list)).contains(q),
    ensures
        distinct_below(state_list_view(*final(list)), arena@.len() as int),
        forall|q: usize| final(seen)@.contains(q) <==> state_list_view(*final(list)).contains(q),
        state_list_view(*old(list)).is_prefix_of(state_list_view(*final(list))),
        forall|q: usize|
            state_list_view(*final(list)).contains(q) <==> state_list_view(*old(list)).contains(q) || edge(
                state_views(arena@),
                owner as int,
                symbol,
                q as int,
            ),
{
    broadcast use vstd::std_specs::hash::group_hash_axioms;

    let n = arena.len();
    let ghost states = state_views(arena@);
    let ghost first = state_list_view(*list);
    let mut iter = arena.get(owner).get_transitions(symbol);
    let ghost targets = iter.targets();
    assert(targets == states[owner as int].targets_on(symbol));
    loop
        invariant
            n == arena@.len(),
            owner < n,
            iter.wf(),
            iter.targets() == targets,
            0 <= iter.position() <= targets.len(),
            distinct_below(state_list_view(*list), n as int),
            forall|q: usize| seen@.contains(q) <==> state_list_view(*list).contains(q),
            first.is_prefix_of(state_list_view(*list)),
            forall|q: usize|
                #[trigger] state_list_view(*list).contains(q) <==> first.contains(q) || (q < n && target_among(
                    owner as int,
                    targets,
                    iter.position(),
                    q as int,
                )),
        ensures
            iter.position() == targets.len(),
        decreases targets.len() - iter.position(),
    {
        let ghost at = iter.position();
        let ghost before = state_list_view(*list);
        match iter.next() {
            Some(target) => {
                let t: usize = match target {
                    Some(t) => t,
                    None => owner,
                };
                assert(t as int == resolve(owner as int, targets[at]));
                if t < n {
                    if seen.insert(t) {
                        state_list_push(list, t);
                        proof {
                            lemma_push_fresh(before, t, n as int);
                        }
                    }
                }
                proof {
                    let after = state_list_view(*list);
                    assert forall|q: usize|
                        #[trigger] after.contains(q) <==> first.contains(q) || (q < n && target_among(
                            owner as int,
                            targets,
                            at + 1,
                            q as int,
                        )) by {
                        if target_among(owner as int, targets, at + 1, q as int) {
                            let i = choose|i: int| 0 <= i < at + 1 && i < targets.len() && resolve(owner as int, #[trigger] targets[i]) == q as int;
                            if i < at {
                                assert(target_among(owner as int, targets, at, q as int));
                            }
                        }
                        if target_among(owner as int, targets, at, q as int) {
                            let i = choose|i: int| 0 <= i < at && i < targets.len() && resolve(owner as int, #[trigger] targets[i]) == q as int;
                            assert(target_among(owner as int, targets, at + 1, q as int));
                        }
                        if q == t {
                            assert(target_among(owner as int, targets, at + 1, q as int));
                        }
                        assert(before.contains(q) <==> first.contains(q) || (q < n && target_among(
                            owner as int,
                            targets,
                            at,
                            q as int,
                        )));
                    }
                }
            },
            None => {
                break ;
            },
        }
    }
    proof {
        let after = state_list_view(*list);
        assert forall|q: usize| after.contains(q) <==> first.contains(q) || edge(states, owner as int, symbol, q as int) by {
            if edge(states, owner as int, symbol, q as int) {
                let i = choose|i: int|
                    0 <= i < states[owner as int].targets_on(symbol).len() && resolve(
                        owner as int,
                        #[trigger] states[owner as int].targets_on(symbol)[i],
                    ) == q as int;
                assert(resolve(owner as int, targets[i]) == q);
                assert(target_among(owner as int, targets, iter.position(), q as int));
            }
            if after.contains(q) && !first.contains(q) {
                assert(target_among(owner as int, targets, iter.position(), q as int));
                let i = choose|i: int| 0 <= i < iter.position() && i < targets.len() && resolve(owner as int, #[trigger] targets[i]) == q as int;
                assert(resolve(owner as int, states[owner as int].targets_on(symbol)[i]) == q as int);
            }
        }
    }
}

/// Extends `list` to the closure of its handles: whatever is reached from one of
/// them without reading a symbol is added behind them, each state once. `seen`
/// holds the handles that are in the list.
pub(crate) fn epsilon_close(arena: &Corrida<State>, list: &mut StateList, seen: &mut HashSet<usize>)
    requires
        distinct_below(state_list_view(*old(list)), arena@.len() as int),
        forall|q: usize| old(seen)@.contains(q) <==> state_list_view(*old(list)).contains(q),
    ensures
        distinct_below(state_list_view(*final(list)), arena@.len() as int),
        forall|q: usize| final(seen)@.contains(q) <==> state_list_view(*final(list)).contains(q),
        state_list_view(*old(list)).is_prefix_of(state_list_view(*final(list))),
        handles(state_list_view(*final(list))) == eps_closure(
            state_views(arena@),
            handles(state_list_view(*old(list))),
        ),
{
    let n = arena.len();
    let ghost states = state_views(arena@);
    let ghost first = state_list_view(*list);
    let ghost seed = handles(first);
    let mut i: usize = 0;
    proof {
        assert forall|j: int| 0 <= j < first.len() implies eps_closure(states, seed).contains(#[trigger] first[j] as int) by {
            assert(first.contains(first[j]));
            lemma_closure_holds_seed(states, seed, first[j] as int);
        }
    }
    while i < state_list_as_slice(list).len()
        invariant
            n == arena@.len(),
            states == state_views(arena@),
            seed == handles(first),
            0 <= i <= state_list_view(*list).len(),
            distinct_below(state_list_view(*list), n as int),
            forall|q: usize| seen@.contains(q) <==> state_list_view(*list).contains(q),
            first.is_prefix_of(state_list_view(*list)),
            forall|j: int|
                0 <= j < state_list_view(*list).len() ==> eps_closure(states, seed).contains(
                    #[trigger] state_list_view(*list)[j] as int,
                ),
            forall|j: int, q: int|
                0 <= j < i && #[trigger] edge(states, state_list_view(*list)[j] as int, None, q) ==> state_list_view(
                    *list,
                ).contains(q as usize),
        decreases n - i,
    {
        let ghost before = state_list_view(*list);
        proof {
            lemma_distinct_bounded(before, n as int);
        }
        let owner: usize = state_list_as_slice(list)[i];
        push_targets(arena, owner, None, list, seen);
        proof {
            let after = state_list_view(*list);
            assert forall|j: int| 0 <= j < after.len() implies eps_closure(states, seed).contains(#[trigger] after[j] as int) by {
                if j < before.len() {
                    assert(after[j] == before[j]);
                } else {
                    assert(after.contains(after[j]));
                    assert(!before.contains(after[j])) by {
                        if before.contains(after[j]) {
                            let k = choose|k: int| 0 <= k < before.len() && before[k] == after[j];
                            assert(after[k] == before[k]);
                        }
                    }
                    assert(edge(states, owner as int, None, after[j] as int));
                    lemma_closure_closed(states, seed, owner as int, after[j] as int);
                }
            }
            assert forall|j: int, q: int|
                0 <= j < i + 1 && #[trigger] edge(states, after[j] as int, None, q) implies after.contains(q as usize) by {
                assert(after[j] == before[j]);
                if j < i {
                    assert(before.contains(q as usize));
                }
            }
        }
        i += 1;
    }
    proof {
        let last = state_list_view(*list);
        let inside = handles(last);
        assert forall|s: int| seed.contains(s) && 0 <= s < states.len() implies inside.contains(s) by {
            let k = choose|k: int| 0 <= k < first.len() && first[k] == s as usize;
            assert(last[k] == first[k]);
        }
        assert forall|m: int, t: int| inside.contains(m) && #[trigger] edge(states, m, None, t) implies inside.contains(t) by {
            let j = choose|j: int| 0 <= j < last.len() && last[j] == m as usize;
            assert(edge(states, last[j] as int, None, t));
        }
        lemma_closure_least(states, seed, inside);
        assert forall|q: int| inside.contains(q) implies eps_closure(states, seed).contains(q) by {
            let j = choose|j: int| 0 <= j < last.len() && last[j] == q as usize;
            assert(eps_closure(states, seed).contains(last[j] as int));
        }
        assert(inside =~= eps_closure(states, seed));
    }
}

/// The list that holds `start` alone, where there is such a state, and nothing
/// where there is none, has the closure of `start`.
pub proof fn lemma_closure_of_start(states: Seq<StateView>, start: usize, first: Seq<usize>)
    requires
        start < states.len() ==> first == seq![start],
        start >= states.len() ==> first.len() == 0,
    ensures
        eps_closure(states, handles(first)) == eps_closure(states, set![start as int]),
{
    let seed = handles(first);
    let single = set![start as int];
    assert forall|q: int| eps_closure(states, seed).contains(q) implies eps_closure(states, single).contains(q) by {
        let p = choose|p: int| seed.contains(p) && #[trigger] eps_reach(states, p, q);
        assert(first.contains(p as usize));
        assert(single.contains(p));
    }
    assert forall|q: int| eps_closure(states, single).contains(q) implies eps_closure(states, seed).contains(q) by {
        let p = choose|p: int| single.contains(p) && #[trigger] eps_reach(states, p, q);
        let path = choose|path: Seq<int>| #[trigger] eps_path(states, path) && path[0] == p && path.last() == q;
        assert(first[0] == start);
        assert(first.contains(start));
        assert(seed.contains(p));
    }
    assert(eps_closure(states, seed) =~= eps_closure(states, single));
}

/// The states an automaton may be in before it has read anything: `start` and
/// whatever is reached from it without reading a symbol. `seen` is emptied first
/// and then holds the handles of the result.
pub(crate) fn start_set(arena: &Corrida<State>, start: usize, seen: &mut HashSet<usize>) -> (list: StateList)
    ensures
        distinct_below(state_list_view(list), arena@.len() as int),
        forall|q: usize| final(seen)@.contains(q) <==> state_list_view(list).contains(q),
        handles(state_list_view(list)) == eps_closure(state_views(arena@), set![start as int]),
{
    broadcast use vstd::std_specs::hash::group_hash_axioms;

    let ghost states = state_views(arena@);
    let mut list = state_list_new();
    seen.clear();
    if start < arena.len() {
        seen.insert(start);
        state_list_push(&mut list, start);
        proof {
            lemma_push_fresh(Seq::<usize>::empty(), start, arena@.len() as int);
            assert(state_list_view(list) =~= Seq::<usize>::empty().push(start));
        }
    }
    let ghost first = state_list_view(list);
    epsilon_close(arena, &mut list, seen);
    proof {
        lemma_closure_of_start(states, start, first);
    }
    list
}

/// The states an automaton may be in after reading `symbol` when it was in one
/// of `current` before: the targets on `symbol`, and whatever is reached from
/// them without reading more. `seen` is emptied first and then holds the handles
/// of the result.
pub(crate) fn step(arena: &Corrida<State>, current: &StateList, symbol: char, seen: &mut HashSet<usize>) -> (next: StateList)
    requires
        distinct_below(state_list_view(*current), arena@.len() as int),
    ensures
        distinct_below(state_list_view(next), arena@.len() as int),
        forall|q: usize| final(seen)@.contains(q) <==> state_list_view(next).contains(q),
        handles(state_list_view(next)) == eps_closure(
            state_views(arena@),
            move_on(state_views(arena@), handles(state_list_view(*current)), symbol),
        ),
{
    let ghost states = state_views(arena@);
    let ghost sources = state_list_view(*current);
    let mut next = state_list_new();
    seen.clear();
    let from = state_list_as_slice(current);
    let mut j: usize = 0;
    assert(state_list_view(next) =~= Seq::<usize>::empty());
    while j < from.len()
        invariant
            states == state_views(arena@),
            from@ == sources,
            0 <= j <= sources.len(),
            distinct_below(sources, arena@.len() as int),
            distinct_below(state_list_view(next), arena@.len() as int),
            forall|q: usize| seen@.contains(q) <==> state_list_view(next).contains(q),
            forall|q: usize|
                #[trigger] state_list_view(next).contains(q) <==> reached_from(
                    states,
                    sources.take(j as int),
                    Some(symbol),
                    q as int,
                ),
        decreases sources.len() - j,
    {
        let ghost before = state_list_view(next);
        push_targets(arena, from[j], Some(symbol), &mut next, seen);
        proof {
            let after = state_list_view(next);
            let shorter = sources.take(j as int);
            let longer = sources.take(j + 1);
            assert forall|q: usize| #[trigger] after.contains(q) <==> reached_from(states, longer, Some(symbol), q as int) by {
                if reached_from(states, longer, Some(symbol), q as int) {
                    let k = choose|k: int| 0 <= k < longer.len() && #[trigger] edge(states, longer[k] as int, Some(symbol), q as int);
                    if k < j {
                        assert(edge(states, shorter[k] as int, Some(symbol), q as int));
                        assert(before.contains(q));
                    }
                }
                if before.contains(q) {
                    let k = choose|k: int| 0 <= k < shorter.len() && #[trigger] edge(states, shorter[k] as int, Some(symbol), q as int);
                    assert(edge(states, longer[k] as int, Some(symbol), q as int));
                }
                if edge(states, sources[j as int] as int, Some(symbol), q as int) {
                    assert(edge(states, longer[j as int] as int, Some(symbol), q as int));
                }
            }
        }
        j += 1;
    }
    let ghost moved = state_list_view(next);
    epsilon_close(arena, &mut next, seen);
    proof {
        assert(sources.take(j as int) =~= sources);
        let target = move_on(states, handles(sources), symbol);
        assert(handles(moved) =~= target) by {
            assert forall|q: int| handles(moved).contains(q) implies target.contains(q) by {
                let k = choose|k: int| 0 <= k < sources.len() && #[trigger] edge(states, sources[k] as int, Some(symbol), q);
                assert(sources.contains(sources[k]));
                assert(handles(sources).contains(sources[k] as int));
            }
            assert forall|q: int| target.contains(q) implies handles(moved).contains(q) by {
                let p = choose|p: int| handles(sources).contains(p) && #[trigger] edge(states, p, Some(symbol), q);
                let k = choose|k: int| 0 <= k < sources.len() && sources[k] == p as usize;
                assert(edge(states, sources[k] as int, Some(symbol), q));
                assert(reached_from(states, sources, Some(symbol), q));
                assert(moved.contains(q as usize));
            }
        }
    }
    next
}

/// Whether some state of `list` accepts.
pub(crate) fn any_accept(arena: &Corrida<State>, list: &StateList) -> (found: bool)
    requires
        forall|i: int| 0 <= i < state_list_view(*list).len() ==> #[trigger] state_list_view(*list)[i] < arena@.len(),
    ensures
        found == any_accepting(state_views(arena@), handles(state_list_view(*list))),
{
    let ghost states = state_views(arena@);
    let items = state_list_as_slice(list);
    let mut i: usize = 0;
    while i < items.len()
        invariant
            states == state_views(arena@),
            items@ == state_list_view(*list),
            0 <= i <= items@.len(),
            forall|j: int| 0 <= j < items@.len() ==> #[trigger] items@[j] < arena@.len(),
            forall|j: int| 0 <= j < i ==> !states[#[trigger] items@[j] as int].accept,
        decreases items@.len() - i,
    {
        if arena.get(items[i]).is_accept() {
            proof {
                assert(items@.contains(items@[i as int]));
                assert(handles(items@).contains(items@[i as int] as int));
            }
            return true;
        }
        i += 1;
    }
    proof {
        if any_accepting(states, handles(items@)) {
            let q = choose|q: int| 0 <= q < states.len() && #[trigger] handles(items@).contains(q) && states[q].accept;
            let j = choose|j: int| 0 <= j < items@.len() && items@[j] == q as usize;
            assert(!states[items@[j] as int].accept);
        }
    }
    false
}

/// A non-deterministic automaton: the arena that holds its states, and the handle
/// of the state it starts in.
pub struct Nfa<'a> {
    arena: &'a Corrida<State>,
    start_node: usize,
}

impl<'a> Nfa<'a> {
    /// The states of the automaton's arena.
    pub closed spec fn states(&self) -> Seq<StateView> {
        state_views(self.arena@)
    }

    /// The handle of the state the automaton starts in.
    pub closed spec fn start(&self) -> int {
        self.start_node as int
    }

    /// The automaton over the states of `arena` that starts in `start_node`.
    pub fn new(arena: &'a Corrida<State>, start_node: usize) -> (nfa: Self)
        ensures
            nfa.states() == state_views(arena@),
            nfa.start() == start_node,
    {
        Self { arena, start_node }
    }

    /// The arena that holds the automaton's states.
    pub fn arena(&self) -> (arena: &'a Corrida<State>)
        ensures
            state_views(arena@) == self.states(),
    {
        self.arena
    }

    /// The handle of the state the automaton starts in.
    pub fn start_node(&self) -> (start_node: usize)
        ensures
            start_node == self.start(),
    {
        self.start_node
    }

    /// Whether the automaton accepts `input` as a whole.
    ///
    /// The states the automaton may be in are kept as a list without repetition,
    /// so a cycle of transitions on the empty word does no harm.
    pub fn simulate_slice(&self, input: &[char]) -> (accepted: bool)
        ensures
            accepted == nfa_accepts(self.states(), self.start(), input@),
    {
        let ghost states = self.states();
        let mut seen: HashSet<usize> = HashSet::new();
        let mut current_states = start_set(self.arena, self.start_node, &mut seen);
        let mut k: usize = 0;
        assert(input@.take(0).len() == 0);
        while k < input.len()
            invariant
                states == state_views(self.arena@),
                0 <= k <= input@.len(),
                distinct_below(state_list_view(current_states), self.arena@.len() as int),
                handles(state_list_view(current_states)) == states_after(states, self.start_node as int, input@.take(k as int)),
            decreases input@.len() - k,
        {
            let next_states = step(self.arena, &current_states, input[k], &mut seen);
            proof {
                let longer = input@.take(k + 1);
                assert(longer.drop_last() =~= input@.take(k as int));
                assert(longer.last() == input@[k as int]);
            }
            current_states = next_states;
            k += 1;
        }
        assert(input@.take(k as int) =~= input@);
        any_accept(self.arena, &current_states)
    }

    /// Whether the automaton accepts, as a whole, the characters that `input`
    /// hands out. The iterator has to be as a string hands it out, with nothing
    /// taken from it yet.
    pub fn simulate_iter(&self, input: Chars<'_>) -> (accepted: bool)
        requires
            input.decrease() is Some,
            input.initial_value_relation(&input),
        ensures
            accepted == nfa_accepts(self.states(), self.start(), into_iter_elts(input)),
    {
        let symbols = collect_chars(input);
        self.simulate_slice(symbols.as_slice())
    }
}

} // verus!