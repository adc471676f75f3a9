//! Deterministic automata: sparse states, which keep a small map from symbol to
//! target, dense states, which keep a table indexed by the symbol's ordinal, and
//! the run of an automaton of either kind over an input.

use crate::chars::collect_chars;
use crate::corrida::Corrida;
use crate::nfa::resolve;
use crate::tables::{dfa_table_get, dfa_table_insert, dfa_table_new, dfa_table_view};
use std::marker::PhantomData;
use std::str::Chars;
use vstd::prelude::*;
use vstd::std_specs::iter::IteratorSpec;
use vstd::string::into_iter_elts;

verus! {

/// What the two kinds of state have in common: each keeps at most one target for
/// a symbol, under an index that the symbol determines, and a flag that says
/// whether it accepts. The target `None` is the state itself.
pub trait State<Sym>: Sized {
    /// What the transitions are looked up by.
    type Index;

    /// Whether the state accepts.
    spec fn accepts(&self) -> bool;

    /// The target kept under `index`; none where no transition was added there.
    spec fn target_at(&self, index: Self::Index) -> Option<Option<usize>>;

    /// The state has a place for `index`, so that it may be looked up.
    spec fn holds(&self, index: Self::Index) -> bool;

    /// The index under which the transition on `symbol` is kept.
    spec fn index_of(symbol: Sym) -> Self::Index;

    /// The target under `symbol`, if there is one.
    fn get_transition(&self, symbol: Self::Index) -> (target: Option<Option<usize>>)
        requires
            self.holds(symbol),
        ensures
            target == self.target_at(symbol),
    ;

    /// Sets the target on a symbol, in place of the one it had; the targets on
    /// other symbols stay.
    fn add_transition(&mut self, transition: (Sym, Option<usize>))
        requires
            old(self).holds(Self::index_of(transition.0)),
        ensures
            final(self).accepts() == old(self).accepts(),
            final(self).target_at(Self::index_of(transition.0)) == Some(transition.1),
            forall|index: Self::Index| #[trigger] final(self).holds(index) == old(self).holds(index),
            forall|index: Self::Index|
                index != Self::index_of(transition.0) && old(self).holds(index) ==> #[trigger] final(self).target_at(index)
                    == old(self).target_at(index),
    ;

    /// Makes the state accepting or not.
    fn set_accept(&mut self, accept: bool)
        ensures
            final(self).accepts() == accept,
            forall|index: Self::Index| #[trigger] final(self).holds(index) == old(self).holds(index),
            forall|index: Self::Index|
                old(self).holds(index) ==> #[trigger] final(self).target_at(index) == old(self).target_at(index),
    ;

    /// Whether the state accepts.
    fn is_accept(&self) -> (accept: bool)
        ensures
            accept == self.accepts(),
    ;
}

/// The state that follows state `from` under `index`: the one its target there
/// stands for, where it has a target there and that state exists.
pub open spec fn followed<Sym, S: State<Sym>>(states: Seq<S>, from: int, index: S::Index) -> Option<int> {
    if 0 <= from < states.len() && states[from].holds(index) {
        match states[from].target_at(index) {
            Some(target) => if 0 <= resolve(from, target) < states.len() {
                Some(resolve(from, target))
            } else {
                None
            },
            None => None,
        }
    } else {
        None
    }
}

/// One step of a run: the state that follows `from` under `index`, if there is
/// one.
pub fn follow<Sym, S: State<Sym>>(arena: &Corrida<S>, from: usize, index: S::Index) -> (next: Option<usize>)
    requires
        from < arena@.len(),
        arena@[from as int].holds(index),
    ensures
        match next {
            Some(q) => followed(arena@, from as int, index) == Some(q as int),
            None => followed(arena@, from as int, index) is None,
        },
{
    match arena.get(from).get_transition(index) {
        Some(target) => {
            let next: usize = match target {
                Some(t) => t,
                None => from,
            };
            if next < arena.len() {
                Some(next)
            } else {
                None
            }
        },
        None => None,
    }
}

/// What a sparse state is, apart from where it is stored: whether it accepts, and
/// its target on each symbol that has one. The target `None` is the state itself.
pub struct PartialStateView {
    pub accept: bool,
    pub transitions: Map<char, Option<usize>>,
}

/// A state that keeps a transition only for the symbols that have one.
pub struct PartialState {
    transitions: smallmap::Map<char, Option<usize>>,
    is_accept: bool,
}

impl View for PartialState {
    type V = PartialStateView;

    closed spec fn view(&self) -> PartialStateView {
        PartialStateView { accept: self.is_accept, transitions: dfa_table_view(self.transitions) }
    }
}

impl PartialState {
    /// Creates a state without transitions that does not accept.
    pub fn new() -> (state: Self)
        ensures
            !state@.accept,
            state@.transitions == Map::<char, Option<usize>>::empty(),
    {
        let state = Self { transitions: dfa_table_new(), is_accept: false };
        assert(state@.transitions =~= Map::<char, Option<usize>>::empty());
        state
    }
}

impl State<char> for PartialState {
    type Index = char;

    open spec fn accepts(&self) -> bool {
        self@.accept
    }

    open spec fn target_at(&self, index: char) -> Option<Option<usize>> {
        if self@.transitions.contains_key(index) {
            Some(self@.transitions[index])
        } else {
            None
        }
    }

    open spec fn holds(&self, index: char) -> bool {
        true
    }

    open spec fn index_of(symbol: char) -> char {
        symbol
    }

    /// The target on `symbol`, if there is one; the target `None` is this state.
    fn get_transition(&self, symbol: char) -> (target: Option<Option<usize>>)
        ensures
            target is Some <==> self@.transitions.contains_key(symbol),
            target is Some ==> target->Some_0 == self@.transitions[symbol],
    {
        dfa_table_get(&self.transitions, symbol)
    }

    /// Sets the target on a symbol, in place of the one it had. The target `None`
    /// is this state.
    fn add_transition(&mut self, transition: (char, Option<usize>))
        ensures
            final(self)@.accept == old(self)@.accept,
            final(self)@.transitions == old(self)@.transitions.insert(transition.0, transition.1),
    {
        dfa_table_insert(&mut self.transitions, transition.0, transition.1);
    }

    /// Makes the state accepting or not.
    fn set_accept(&mut self, accept: bool)
        ensures
            final(self)@.accept == accept,
            final(self)@.transitions == old(self)@.transitions,
    {
        self.is_accept = accept;
    }

    /// Whether the state accepts.
    fn is_accept(&self) -> (accept: bool)
        ensures
            accept == self@.accept,
    {
        self.is_accept
    }
}

/// The sparse states of an arena as the automaton sees them.
pub open spec fn partial_views(arena: Seq<PartialState>) -> Seq<PartialStateView> {
    arena.map_values(|state: PartialState| state@)
}

/// The state that follows `q` on `symbol`, where `q` has a transition on it to a
/// state that exists.
pub open spec fn dfa_next(states: Seq<PartialStateView>, q: int, symbol: char) -> Option<int> {
    if 0 <= q < states.len() && states[q].transitions.contains_key(symbol) && 0 <= resolve(
        q,
        states[q].transitions[symbol],
    ) < states.len() {
        Some(resolve(q, states[q].transitions[symbol]))
    } else {
        None
    }
}

/// The state the automaton is in when it has started in `start` and read `input`;
/// none where it met a symbol without a transition.
pub open spec fn dfa_after(states: Seq<PartialStateView>, start: int, input: Seq<char>) -> Option<int>
    decreases input.len(),
{
    if input.len() == 0 {
        if 0 <= start < states.len() {
            Some(start)
        } else {
            None
        }
    } else {
        match dfa_after(states, start, input.drop_last()) {
            Some(q) => dfa_next(states, q, input.last()),
            None => None,
        }
    }
}

/// The automaton that starts in `start` accepts `input` as a whole.
pub open spec fn dfa_accepts(states: Seq<PartialStateView>, start: int, input: Seq<char>) -> bool {
    match dfa_after(states, start, input) {
        Some(q) => states[q].accept,
        None => false,
    }
}

/// Once a prefix of the input has met a missing transition, the whole input has.
pub proof fn lemma_dfa_stuck(states: Seq<PartialStateView>, start: int, input: Seq<char>, k: int)
    requires
        0 <= k <= input.len(),
        dfa_after(states, start, input.take(k)) is None,
    ensures
        dfa_after(states, start, input) is None,
    decreases input.len() - k,
{
    if k < input.len() {
        assert(input.take(k + 1).drop_last() =~= input.take(k));
        lemma_dfa_stuck(states, start, input, k + 1);
    } else {
        assert(input.take(k) =~= input);
    }
}

/// A deterministic automaton: the arena that holds its states, and the handle of
/// the state it starts in.
pub struct Dfa<'a, S> {
    arena: &'a Corrida<S>,
    start_node: usize,
}

impl<'a> Dfa<'a, PartialState> {
    /// The states of the automaton's arena.
    pub closed spec fn states(&self) -> Seq<PartialStateView> {
        partial_views(self.arena@)
    }

    /// The handle of the state the automaton starts in.
    pub closed spec fn start(&self) -> int {
        self.start_node as int
    }

    /// The automaton over the states of `arena` that starts in `start_node`.
    pub fn new(arena: &'a Corrida<PartialState>, start_node: usize) -> (dfa: Self)
        ensures
            dfa.states() == partial_views(arena@),
            dfa.start() == start_node,
    {
        Self { arena, start_node }
    }

    /// Whether the automaton accepts `input` as a whole. A symbol without a
    /// transition rejects the input.
    pub fn simulate_slice(&self, input: &[char]) -> (accepted: bool)
        ensures
            accepted == dfa_accepts(self.states(), self.start(), input@),
    {
        let ghost states = self.states();
        let n = self.arena.len();
        if self.start_node >= n {
            proof {
                assert(input@.take(0).len() == 0);
                lemma_dfa_stuck(states, self.start_node as int, input@, 0);
            }
            return false;
        }
        let mut cur: usize = self.start_node;
        let mut k: usize = 0;
        assert(input@.take(0).len() == 0);
        while k < input.len()
            invariant
                states == partial_views(self.arena@),
                n == self.arena@.len(),
                0 <= k <= input@.len(),
                cur < n,
                dfa_after(states, self.start_node as int, input@.take(k as int)) == Some(cur as int),
            decreases input@.len() - k,
        {
            proof {
                let longer = input@.take(k + 1);
                assert(longer.drop_last() =~= input@.take(k as int));
                assert(longer.last() == input@[k as int]);
            }
            match follow(self.arena, cur, input[k]) {
                Some(next) => {
                    cur = next;
                },
                None => {
                    proof {
                        lemma_dfa_stuck(states, self.start_node as int, input@, k + 1);
                    }
                    return false;
                },
            }
            k += 1;
        }
        assert(input@.take(k as int) =~= input@);
        self.arena.get(cur).is_accept()
    }

    /// Whether the automaton accepts, as a whole, the characters that `input`
    /// hands out. The iterator has to be as a string hands it out, with nothing
    /// taken from it yet.
    pub fn simulate_iter(&self, input: Chars<'_>) -> (accepted: bool)
        requires
            input.decrease() is Some,
            input.initial_value_relation(&input),
        ensures
            accepted == dfa_accepts(self.states(), self.start(), into_iter_elts(input)),
    {
        let symbols = collect_chars(input);
        self.simulate_slice(symbols.as_slice())
    }
}

/// A kind of symbol that numbers its values from zero.
///
/// What is proved of dense states and their automata holds for the kinds that
/// keep what `get_index` and `count` promise here.
pub trait Indexable: Sized {
    /// The ordinal of the symbol.
    spec fn ordinal(&self) -> usize;

    /// The number of symbols of this kind.
    spec fn cardinality() -> usize;

    /// The ordinal of the symbol, which is below the number of symbols.
    fn get_index(&self) -> (index: usize)
        ensures
            index == self.ordinal(),
            index < Self::cardinality(),
    ;

    /// The number of symbols of this kind.
    fn count() -> (count: usize)
        ensures
            count == Self::cardinality(),
    ;
}

/// What a dense state is, apart from where it is stored: whether it accepts, and
/// for each ordinal its target, if it has one. The target `None` is the state
/// itself.
pub struct CompleteStateView {
    pub accept: bool,
    pub transitions: Seq<Option<Option<usize>>>,
}

/// A state that keeps a table with one place for each symbol.
pub struct CompleteState<Sym: Indexable> {
    transitions: Vec<Option<Option<usize>>>,
    is_accept: bool,
    _boo: PhantomData<Sym>,
}

impl<Sym: Indexable> View for CompleteState<Sym> {
    type V = CompleteStateView;

    closed spec fn view(&self) -> CompleteStateView {
        CompleteStateView { accept: self.is_accept, transitions: self.transitions@ }
    }
}

impl<Sym: Indexable> CompleteState<Sym> {
    /// Creates a state that does not accept and has a place, still empty, for
    /// each symbol.
    pub fn new() -> (state: Self)
        ensures
            !state@.accept,
            state@.transitions.len() == Sym::cardinality(),
            forall|i: int| 0 <= i < state@.transitions.len() ==> state@.transitions[i] is None,
    {
        let count = Sym::count();
        let mut transitions: Vec<Option<Option<usize>>> = Vec::new();
        let mut i: usize = 0;
        while i < count
            invariant
                0 <= i <= count,
                transitions@.len() == i,
                forall|j: int| 0 <= j < i ==> transitions@[j] is None,
            decreases count - i,
        {
            transitions.push(None);
            i += 1;
        }
        Self { transitions, is_accept: false, _boo: PhantomData }
    }
}

impl<Sym: Indexable> State<Sym> for CompleteState<Sym> {
    type Index = usize;

    open spec fn accepts(&self) -> bool {
        self@.accept
    }

    open spec fn target_at(&self, index: usize) -> Option<Option<usize>> {
        self@.transitions[index as int]
    }

    open spec fn holds(&self, index: usize) -> bool {
        index < self@.transitions.len()
    }

    open spec fn index_of(symbol: Sym) -> usize {
        symbol.ordinal()
    }

    /// The target at ordinal `index`, if there is one; the target `None` is this
    /// state.
    fn get_transition(&self, index: usize) -> (target: Option<Option<usize>>)
        ensures
            target == self@.transitions[index as int],
    {
        self.transitions[index]
    }

    /// Sets the target on a symbol, in place of the one it had. The target `None`
    /// is this state.
    fn add_transition(&mut self, transition: (Sym, Option<usize>))
        ensures
            final(self)@.accept == old(self)@.accept,
            final(self)@.transitions == old(self)@.transitions.update(
                transition.0.ordinal() as int,
                Some(transition.1),
            ),
    {
        let index = transition.0.get_index();
        self.transitions.set(index, Some(transition.1));
    }

    /// Makes the state accepting or not.
    fn set_accept(&mut self, accept: bool)
        ensures
            final(self)@.accept == accept,
            final(self)@.transitions == old(self)@.transitions,
    {
        self.is_accept = accept;
    }

    /// Whether the state accepts.
    fn is_accept(&self) -> (accept: bool)
        ensures
            accept == self@.accept,
    {
        self.is_accept
    }
}

/// The state that follows `q` on the symbol with ordinal `index`, where `q` has a
/// transition there to a state that exists.
pub open spec fn dense_next(states: Seq<CompleteStateView>, q: int, index: int) -> Option<int> {
    if 0 <= q < states.len() && 0 <= index < states[q].transitions.len() && states[q].transitions[index] is Some && 0
        <= resolve(q, states[q].transitions[index]->Some_0) < states.len() {
        Some(resolve(q, states[q].transitions[index]->Some_0))
    } else {
        None
    }
}

/// The state the automaton is in when it has started in `start` and read the
/// symbols with the ordinals `input`; none where it met a symbol without a
/// transition.
pub open spec fn dense_after(states: Seq<CompleteStateView>, start: int, input: Seq<int>) -> Option<int>
    decreases input.len(),
{
    if input.len() == 0 {
        if 0 <= start < states.len() {
            Some(start)
        } else {
            None
        }
    } else {
        match dense_after(states, start, input.drop_last()) {
            Some(q) => dense_next(states, q, input.last()),
            None => None,
        }
    }
}

/// Once a prefix of the input has met a missing transition, the whole input has.
pub proof fn lemma_dense_stuck(states: Seq<CompleteStateView>, start: int, input: Seq<int>, k: int)
    requires
        0 <= k <= input.len(),
        dense_after(states, start, input.take(k)) is None,
    ensures
        dense_after(states, start, input) is None,
    decreases input.len() - k,
{
    if k < input.len() {
        assert(input.take(k + 1).drop_last() =~= input.take(k));
        lemma_dense_stuck(states, start, input, k + 1);
    } else {
        assert(input.take(k) =~= input);
    }
}

/// The ordinals of a sequence of symbols.
pub open spec fn ordinals<Sym: Indexable>(input: Seq<Sym>) -> Seq<int> {
    input.map_values(|symbol: Sym| symbol.ordinal() as int)
}

impl<'a, Sym: Indexable> Dfa<'a, CompleteState<Sym>> {
    /// The states of the automaton's arena.
    pub closed spec fn dense_states(&self) -> Seq<CompleteStateView> {
        self.arena@.map_values(|state: CompleteState<Sym>| state@)
    }

    /// The handle of the state the automaton starts in.
    pub closed spec fn dense_start(&self) -> int {
        self.start_node as int
    }

    /// The automaton over the states of `arena` that starts in `start_node`.
    pub fn new(arena: &'a Corrida<CompleteState<Sym>>, start_node: usize) -> (dfa: Self)
        ensures
            dfa.dense_states() == arena@.map_values(|state: CompleteState<Sym>| state@),
            dfa.dense_start() == start_node,
    {
        Self { arena, start_node }
    }

    /// Whether the automaton accepts `input` as a whole. The run must not meet a
    /// symbol without a transition: a dense automaton is meant to have them all,
    /// and one that lacks the one that is asked for is not provided for.
    pub fn simulate_slice(&self, input: &[Sym]) -> (accepted: bool)
        requires
            dense_after(self.dense_states(), self.dense_start(), ordinals(input@)) is Some,
        ensures
            accepted == self.dense_states()[dense_after(
                self.dense_states(),
                self.dense_start(),
                ordinals(input@),
            )->Some_0].accept,
    {
        let ghost states = self.dense_states();
        let ghost codes = ordinals(input@);
        let ghost start = self.start_node as int;
        proof {
            assert(codes.take(0).len() == 0);
            if dense_after(states, start, codes.take(0)) is None {
                lemma_dense_stuck(states, start, codes, 0);
            }
        }
        let mut cur: usize = self.start_node;
        let mut k: usize = 0;
        while k < input.len()
            invariant
                states == self.arena@.map_values(|state: CompleteState<Sym>| state@),
                codes == ordinals(input@),
                start == self.start_node as int,
                dense_after(states, start, codes) is Some,
                0 <= k <= input@.len(),
                cur < states.len(),
                dense_after(states, start, codes.take(k as int)) == Some(cur as int),
            decreases input@.len() - k,
        {
            let index = input[k].get_index();
            proof {
                let longer = codes.take(k + 1);
                assert(longer.drop_last() =~= codes.take(k as int));
                assert(longer.last() == index);
                if dense_after(states, start, longer) is None {
                    lemma_dense_stuck(states, start, codes, k + 1);
                }
            }
            let next: usize = match follow(self.arena, cur, index) {
                Some(next) => next,
                None => cur,
            };
            cur = next;
            k += 1;
        }
        assert(codes.take(k as int) =~= codes);
        self.arena.get(cur).is_accept()
    }
}

} // verus!
