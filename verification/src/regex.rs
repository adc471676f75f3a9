//! From a pattern to a non-deterministic automaton.
//!
//! The grammar is
//!
//! ```text
//! group   = concat ( '|' concat )*
//! concat  = base*
//! base    = atom ( '+' | '*' | '?' )*
//! atom    = '(' group ')' | any character but + * ? | ( )
//! ```
//!
//! The automaton that a pattern stands for is defined here once, as a function
//! on sequences (`thompson_regex` and the functions it rests on), and the parser
//! is proved to build exactly that automaton into the arena it is given.
//!
//! What stands side by side is entered where what stands in front of it was
//! left. An atom that a quantifier follows is built between states of its own,
//! so that the transitions which the quantifier adds repeat or skip that atom as
//! a whole and touch nothing else.

use crate::chars::to_chars;
use crate::corrida::Corrida;
use crate::dfa::{dfa_accepts, partial_views, Dfa, PartialState};
use crate::nfa::{nfa_accepts, state_views, Nfa, State, StateView};
use crate::regex_laws::lemma_one_accepting_state;
use vstd::prelude::*;

verus! {

/// Why a pattern was refused.
#[derive(Debug, Clone, Copy, PartialEq, Eq, Structural)]
pub enum ParseError {
    /// An operator stands where an atom has to begin.
    DanglingOperator,
    /// The pattern ended inside a group.
    UnbalancedOpen,
    /// A `)` stands outside every group.
    UnbalancedClose,
    /// `+`, `*` or `?` follows a group that matches the empty word only.
    OperatorOnEmpty,
    /// The pattern ended where an atom has to begin.
    UnexpectedEof,
}

impl ParseError {
    /// What went wrong, in words.
    pub fn message(self) -> (text: &'static str)
        ensures
            text@ == match self {
                ParseError::DanglingOperator => "Got an operator (+, *, ?) when there was no base to skip/repeat"@,
                ParseError::UnbalancedOpen => "EOF when not all groups were closed, '(' without matching ')'"@,
                ParseError::UnbalancedClose => "Attempted to close a group in the outermost context ( no matching '(' )"@,
                ParseError::OperatorOnEmpty => "Got an operator (+, *, ?) behind a group that matches the empty word only"@,
                ParseError::UnexpectedEof => "EOF where a base had to begin"@,
            },
    {
        match self {
            ParseError::DanglingOperator => "Got an operator (+, *, ?) when there was no base to skip/repeat",
            ParseError::UnbalancedOpen => "EOF when not all groups were closed, '(' without matching ')'",
            ParseError::UnbalancedClose => "Attempted to close a group in the outermost context ( no matching '(' )",
            ParseError::OperatorOnEmpty => "Got an operator (+, *, ?) behind a group that matches the empty word only",
            ParseError::UnexpectedEof => "EOF where a base had to begin",
        }
    }
}

/// A piece of automaton that has just been built, known by the handles of the
/// states where it is entered and left.
#[derive(Debug, Clone, Copy, PartialEq, Eq, Structural)]
pub enum Fragment {
    /// Entered at the first state, left at the second.
    NonEmpty(usize, usize),
    /// A single state, entered and left at once.
    Empty(usize),
}

impl Fragment {
    /// The state where the fragment is entered.
    pub open spec fn entry(self) -> usize {
        match self {
            Fragment::NonEmpty(start, _) => start,
            Fragment::Empty(state) => state,
        }
    }

    /// The state where the fragment is left.
    pub open spec fn exit(self) -> usize {
        match self {
            Fragment::NonEmpty(_, end) => end,
            Fragment::Empty(state) => state,
        }
    }
}

/// What a step of the construction leaves behind: the states, the position in
/// the pattern up to which it has read, and what it built or why it gave up.
pub struct Built<T> {
    pub states: Seq<StateView>,
    pub pos: int,
    pub out: Result<T, ParseError>,
}

/// `c` is one of `+`, `*`, `?`.
pub open spec fn is_quantifier(c: char) -> bool {
    c == '+' || c == '*' || c == '?'
}

/// `c` is one of `+`, `*`, `?`, `|`, `(`, `)`.
pub open spec fn is_operator(c: char) -> bool {
    is_quantifier(c) || c == '|' || c == '(' || c == ')'
}

/// The first position at or after `pos` that holds no quantifier.
pub open spec fn quantifiers_end(pattern: Seq<char>, pos: int) -> int
    decreases pattern.len() - pos,
{
    if 0 <= pos < pattern.len() && is_quantifier(pattern[pos]) {
        quantifiers_end(pattern, pos + 1)
    } else {
        pos
    }
}

/// One of the positions from `from` up to `to` holds `+` or `*`.
pub open spec fn asks_cycle(pattern: Seq<char>, from: int, to: int) -> bool {
    exists|i: int| from <= i < to && 0 <= i < pattern.len() && (#[trigger] pattern[i] == '+' || pattern[i] == '*')
}

/// One of the positions from `from` up to `to` holds `?` or `*`.
pub open spec fn asks_skip(pattern: Seq<char>, from: int, to: int) -> bool {
    exists|i: int| from <= i < to && 0 <= i < pattern.len() && (#[trigger] pattern[i] == '?' || pattern[i] == '*')
}

/// A state that does not accept and has no transitions.
pub open spec fn blank() -> StateView {
    StateView { accept: false, transitions: Map::empty() }
}

/// `state` with one more transition on `symbol`, behind those it has.
pub open spec fn with_target(state: StateView, symbol: Option<char>, target: Option<usize>) -> StateView {
    StateView {
        accept: state.accept,
        transitions: state.transitions.insert(symbol, state.targets_on(symbol).push(target)),
    }
}

/// `states` with one more transition from `from` to `to` on `symbol`; as they
/// are where there is no state `from`.
pub open spec fn link(states: Seq<StateView>, from: usize, symbol: Option<char>, to: usize) -> Seq<StateView> {
    if from < states.len() {
        states.update(from as int, with_target(states[from as int], symbol, Some(to)))
    } else {
        states
    }
}

/// The fragment from `start` to `end` after the quantifiers that begin at `pos`
/// have been applied to it: a transition on the empty word back from `end` to
/// `start` where one of them is `+` or `*`, then one forward from `start` to
/// `end` where one of them is `?` or `*`. However many quantifiers there are,
/// each of the two is added once at most.
pub open spec fn quantified(states: Seq<StateView>, pattern: Seq<char>, pos: int, start: usize, end: usize) -> Built<usize> {
    let stop = quantifiers_end(pattern, pos);
    let cycled = if asks_cycle(pattern, pos, stop) {
        link(states, end, None, start)
    } else {
        states
    };
    let skipped = if asks_skip(pattern, pos, stop) {
        link(cycled, start, None, end)
    } else {
        cycled
    };
    Built { states: skipped, pos: stop, out: Ok(end) }
}

/// A branch of an alternation, hung between the alternation's two states: for a
/// branch with two ends, transitions on the empty word into its entry and out of
/// its exit; for an empty branch, one from the first state straight to the second.
pub open spec fn attached(states: Seq<StateView>, union_start: usize, union_end: usize, branch: Fragment) -> Seq<StateView> {
    match branch {
        Fragment::NonEmpty(start, end) => link(link(states, union_start, None, start), end, None, union_end),
        Fragment::Empty(_) => link(states, union_start, None, union_end),
    }
}

/// What `base` builds at `pos`, entered at the existing state `cur`.
///
/// A literal that no quantifier follows grows a transition from `cur` to a new
/// state. A literal that a quantifier follows is built between two new states,
/// the first of them entered from `cur` by a transition on the empty word, and
/// the quantifiers are applied between those two. A group is built on its own
/// and entered from `cur` in the same way. Where a quantifier follows it, the
/// group is left through one more new state, reached from the group's exit on
/// the empty word, and the quantifiers are applied between the group's entry
/// and that state. So what is repeated or skipped is the atom that the
/// quantifier stands behind, as a whole: nothing in front of it, and no part of
/// it alone.
pub open spec fn thompson_base(states: Seq<StateView>, pattern: Seq<char>, pos: int, cur: usize) -> Built<usize>
    decreases pattern.len() - pos, 0int,
{
    if pos < 0 || pos >= pattern.len() {
        Built { states, pos, out: Err(ParseError::UnexpectedEof) }
    } else if pattern[pos] == '(' {
        let inner = thompson_group(states, pattern, pos + 1, false);
        match inner.out {
            Err(e) => Built { states: inner.states, pos: inner.pos, out: Err(e) },
            Ok(Fragment::NonEmpty(start, end)) => if 0 <= inner.pos < pattern.len() && is_quantifier(
                pattern[inner.pos],
            ) {
                let exit = inner.states.len() as usize;
                quantified(
                    link(link(inner.states.push(blank()), cur, None, start), end, None, exit),
                    pattern,
                    inner.pos,
                    start,
                    exit,
                )
            } else {
                Built { states: link(inner.states, cur, None, start), pos: inner.pos, out: Ok(end) }
            },
            Ok(Fragment::Empty(state)) => if 0 <= inner.pos < pattern.len() && is_quantifier(pattern[inner.pos]) {
                Built { states: inner.states, pos: inner.pos, out: Err(ParseError::OperatorOnEmpty) }
            } else {
                Built { states: link(inner.states, cur, None, state), pos: inner.pos, out: Ok(state) }
            },
        }
    } else if is_operator(pattern[pos]) {
        Built { states, pos, out: Err(ParseError::DanglingOperator) }
    } else if pos + 1 < pattern.len() && is_quantifier(pattern[pos + 1]) {
        let entry = states.len() as usize;
        let end = (states.len() + 1) as usize;
        quantified(
            link(link(states.push(blank()).push(blank()), cur, None, entry), entry, Some(pattern[pos]), end),
            pattern,
            pos + 1,
            entry,
            end,
        )
    } else {
        let end = states.len() as usize;
        Built { states: link(states.push(blank()), cur, Some(pattern[pos]), end), pos: pos + 1, out: Ok(end) }
    }
}

/// What the rest of a concatenation builds from `pos` on, when it was entered at
/// `first`, has come as far as `cur`, and `any` says whether a base was built.
pub open spec fn thompson_concat_from(
    states: Seq<StateView>,
    pattern: Seq<char>,
    pos: int,
    first: usize,
    cur: usize,
    any: bool,
) -> Built<Fragment>
    decreases pattern.len() - pos, 1int,
{
    if pos < 0 || pos >= pattern.len() || pattern[pos] == ')' || pattern[pos] == '|' {
        Built {
            states,
            pos,
            out: Ok(
                if any {
                    Fragment::NonEmpty(first, cur)
                } else {
                    Fragment::Empty(first)
                },
            ),
        }
    } else {
        let base = thompson_base(states, pattern, pos, cur);
        match base.out {
            Err(e) => Built { states: base.states, pos: base.pos, out: Err(e) },
            Ok(end) => if pos < base.pos <= pattern.len() {
                thompson_concat_from(base.states, pattern, base.pos, first, end, true)
            } else {
                Built { states: base.states, pos: base.pos, out: Ok(Fragment::NonEmpty(first, end)) }
            },
        }
    }
}

/// What `concat` builds at `pos`: a new state, and from it one base after the
/// other, each entered where the one before was left.
pub open spec fn thompson_concat(states: Seq<StateView>, pattern: Seq<char>, pos: int) -> Built<Fragment>
    decreases pattern.len() - pos, 2int,
{
    let first = states.len() as usize;
    thompson_concat_from(states.push(blank()), pattern, pos, first, first, false)
}

/// What the branches of an alternation build, from the `|` at `pos` on, between
/// the states `union_start` and `union_end`.
pub open spec fn thompson_branches(
    states: Seq<StateView>,
    pattern: Seq<char>,
    pos: int,
    union_start: usize,
    union_end: usize,
) -> Built<()>
    decreases pattern.len() - pos, 3int,
{
    if pos < 0 || pos >= pattern.len() {
        Built { states, pos, out: Ok(()) }
    } else {
        let branch = thompson_concat(states, pattern, pos + 1);
        match branch.out {
            Err(e) => Built { states: branch.states, pos: branch.pos, out: Err(e) },
            Ok(fragment) => {
                let hung = attached(branch.states, union_start, union_end, fragment);
                if pos < branch.pos < pattern.len() && pattern[branch.pos] == '|' {
                    thompson_branches(hung, pattern, branch.pos, union_start, union_end)
                } else {
                    Built { states: hung, pos: branch.pos, out: Ok(()) }
                }
            },
        }
    }
}

/// How a group ends at `pos`: with `)` inside a group, with the end of the
/// pattern outside of all groups, and with an error otherwise.
pub open spec fn closed(states: Seq<StateView>, pattern: Seq<char>, pos: int, outermost: bool, fragment: Fragment) -> Built<Fragment> {
    if 0 <= pos < pattern.len() {
        if pattern[pos] == ')' && outermost {
            Built { states, pos: pos + 1, out: Err(ParseError::UnbalancedClose) }
        } else {
            Built { states, pos: pos + 1, out: Ok(fragment) }
        }
    } else {
        if outermost {
            Built { states, pos, out: Ok(fragment) }
        } else {
            Built { states, pos, out: Err(ParseError::UnbalancedOpen) }
        }
    }
}

/// What `group` builds at `pos`. A group without `|` is its one concatenation. At
/// the first `|` two states are made, and every concatenation of the group,
/// the one that was read before it too, is hung between them.
pub open spec fn thompson_group(states: Seq<StateView>, pattern: Seq<char>, pos: int, outermost: bool) -> Built<Fragment>
    decreases pattern.len() - pos, 4int,
{
    let head = thompson_concat(states, pattern, pos);
    match head.out {
        Err(e) => Built { states: head.states, pos: head.pos, out: Err(e) },
        Ok(fragment) => if 0 <= pos <= head.pos < pattern.len() && pattern[head.pos] == '|' {
            let union_start = head.states.len() as usize;
            let union_end = (head.states.len() + 1) as usize;
            let hung = attached(head.states.push(blank()).push(blank()), union_start, union_end, fragment);
            let rest = thompson_branches(hung, pattern, head.pos, union_start, union_end);
            match rest.out {
                Err(e) => Built { states: rest.states, pos: rest.pos, out: Err(e) },
                Ok(_) => closed(rest.states, pattern, rest.pos, outermost, Fragment::NonEmpty(union_start, union_end)),
            }
        } else {
            closed(head.states, pattern, head.pos, outermost, fragment)
        },
    }
}

/// `states` with state `q` made accepting; as they are where there is no state
/// `q`.
pub open spec fn accepting(states: Seq<StateView>, q: usize) -> Seq<StateView> {
    if q < states.len() {
        states.update(q as int, StateView { accept: true, transitions: states[q as int].transitions })
    } else {
        states
    }
}

/// The automaton of a whole pattern, built behind the states that are there: the
/// outermost group, with the state where it is left made accepting. The result
/// holds the fragment of that group.
pub open spec fn thompson_regex(states: Seq<StateView>, pattern: Seq<char>) -> Built<Fragment> {
    let group = thompson_group(states, pattern, 0, true);
    match group.out {
        Err(e) => group,
        Ok(fragment) => Built { states: accepting(group.states, fragment.exit()), pos: group.pos, out: Ok(fragment) },
    }
}

/// The branches of an alternation from `pos` on, where `pos` may already be
/// behind the last of them.
pub open spec fn branches_from(
    states: Seq<StateView>,
    pattern: Seq<char>,
    pos: int,
    union_start: usize,
    union_end: usize,
) -> Built<()> {
    if 0 <= pos < pattern.len() && pattern[pos] == '|' {
        thompson_branches(states, pattern, pos, union_start, union_end)
    } else {
        Built { states, pos, out: Ok(()) }
    }
}

/// Puts a state without transitions into the arena.
fn create_state(arena: &mut Corrida<State>, is_final: bool) -> (handle: usize)
    requires
        old(arena).wf(),
    ensures
        final(arena).wf(),
        handle == old(arena)@.len(),
        final(arena)@.len() == old(arena)@.len() + 1,
        state_views(final(arena)@) == state_views(old(arena)@).push(
            StateView { accept: is_final, transitions: Map::empty() },
        ),
{
    let handle = arena.allocate(State::new(is_final));
    assert(state_views(arena@) =~= state_views(old(arena)@).push(
        StateView { accept: is_final, transitions: Map::empty() },
    ));
    handle
}

/// Adds a transition from state `from` to state `to`.
fn connect(arena: &mut Corrida<State>, from: usize, symbol: Option<char>, to: usize)
    requires
        old(arena).wf(),
        from < old(arena)@.len(),
    ensures
        final(arena).wf(),
        final(arena)@.len() == old(arena)@.len(),
        state_views(final(arena)@) == link(state_views(old(arena)@), from, symbol, to),
{
    let state = arena.get_mut(from);
    state.push_transition(symbol, Some(to));
    assert(state_views(arena@) =~= link(state_views(old(arena)@), from, symbol, to));
}

/// Hangs a branch of an alternation between the alternation's two states.
fn add_to_union(arena: &mut Corrida<State>, union_start: usize, union_end: usize, branch: Fragment)
    requires
        old(arena).wf(),
        union_start < old(arena)@.len(),
        branch.exit() < old(arena)@.len(),
    ensures
        final(arena).wf(),
        final(arena)@.len() == old(arena)@.len(),
        state_views(final(arena)@) == attached(state_views(old(arena)@), union_start, union_end, branch),
{
    match branch {
        Fragment::NonEmpty(start, end) => {
            connect(arena, union_start, None, start);
            connect(arena, end, None, union_end);
        },
        Fragment::Empty(_) => {
            connect(arena, union_start, None, union_end);
        },
    }
}

/// Reads one base at `pos`, entered at the state `cur`, and builds it into the
/// arena. Gives the position behind the base and the state where it is left.
pub fn parse_base(arena: &mut Corrida<State>, pattern: &[char], pos: usize, cur: usize) -> (result: Result<
    (usize, usize),
    ParseError,
>)
    requires
        old(arena).wf(),
        cur < old(arena)@.len(),
    ensures
        final(arena).wf(),
        final(arena)@.len() >= old(arena)@.len(),
        state_views(final(arena)@) == thompson_base(state_views(old(arena)@), pattern@, pos as int, cur).states,
        match result {
            Ok((next, end)) => {
                &&& thompson_base(state_views(old(arena)@), pattern@, pos as int, cur).out == Ok::<usize, ParseError>(end)
                &&& thompson_base(state_views(old(arena)@), pattern@, pos as int, cur).pos == next
                &&& pos < next <= pattern@.len()
                &&& end < final(arena)@.len()
            },
            Err(e) => thompson_base(state_views(old(arena)@), pattern@, pos as int, cur).out == Err::<usize, ParseError>(e),
        },
    decreases pattern@.len() - pos, 0int,
{
    if pos >= pattern.len() {
        return Err(ParseError::UnexpectedEof);
    }
    let c = pattern[pos];
    let ghost before = state_views(arena@);
    let (next, base_start, base_end): (usize, usize, usize) = if c == '(' {
        match parse_group(arena, pattern, pos + 1, false) {
            Err(e) => {
                return Err(e);
            },
            Ok((after, fragment)) => match fragment {
                Fragment::NonEmpty(start, end) => {
                    if after < pattern.len() && (pattern[after] == '+' || pattern[after] == '*' || pattern[after] == '?') {
                        let exit = create_state(arena, false);
                        connect(arena, cur, None, start);
                        connect(arena, end, None, exit);
                        (after, start, exit)
                    } else {
                        connect(arena, cur, None, start);
                        return Ok((after, end));
                    }
                },
                Fragment::Empty(state) => {
                    if after < pattern.len() && (pattern[after] == '+' || pattern[after] == '*' || pattern[after] == '?') {
                        return Err(ParseError::OperatorOnEmpty);
                    }
                    connect(arena, cur, None, state);
                    return Ok((after, state));
                },
            },
        }
    } else if c == '+' || c == '*' || c == '?' || c == '|' || c == ')' {
        return Err(ParseError::DanglingOperator);
    } else if pos + 1 < pattern.len() && (pattern[pos + 1] == '+' || pattern[pos + 1] == '*' || pattern[pos + 1] == '?') {
        let entry = create_state(arena, false);
        let new_state = create_state(arena, false);
        connect(arena, cur, None, entry);
        connect(arena, entry, Some(c), new_state);
        (pos + 1, entry, new_state)
    } else {
        let new_state = create_state(arena, false);
        connect(arena, cur, Some(c), new_state);
        return Ok((pos + 1, new_state));
    };
    let ghost linked = state_views(arena@);
    let mut add_skip = false;
    let mut add_cycle = false;
    let mut p: usize = next;
    while p < pattern.len() && (pattern[p] == '+' || pattern[p] == '*' || pattern[p] == '?')
        invariant
            next <= p <= pattern@.len(),
            quantifiers_end(pattern@, p as int) == quantifiers_end(pattern@, next as int),
            add_cycle == asks_cycle(pattern@, next as int, p as int),
            add_skip == asks_skip(pattern@, next as int, p as int),
        decreases pattern@.len() - p,
    {
        let q = pattern[p];
        if q == '+' || q == '*' {
            add_cycle = true;
        }
        if q == '?' || q == '*' {
            add_skip = true;
        }
        proof {
            assert(add_cycle == asks_cycle(pattern@, next as int, p + 1)) by {
                if asks_cycle(pattern@, next as int, p + 1) {
                    let i = choose|i: int| next <= i < p + 1 && 0 <= i < pattern@.len() && (#[trigger] pattern@[i] == '+' || pattern@[i] == '*');
                    if i < p {
                        assert(asks_cycle(pattern@, next as int, p as int));
                    }
                }
                if asks_cycle(pattern@, next as int, p as int) {
                    let i = choose|i: int| next <= i < p && 0 <= i < pattern@.len() && (#[trigger] pattern@[i] == '+' || pattern@[i] == '*');
                    assert(asks_cycle(pattern@, next as int, p + 1));
                }
                if q == '+' || q == '*' {
                    assert(pattern@[p as int] == '+' || pattern@[p as int] == '*');
                    assert(asks_cycle(pattern@, next as int, p + 1));
                }
            }
            assert(add_skip == asks_skip(pattern@, next as int, p + 1)) by {
                if asks_skip(pattern@, next as int, p + 1) {
                    let i = choose|i: int| next <= i < p + 1 && 0 <= i < pattern@.len() && (#[trigger] pattern@[i] == '?' || pattern@[i] == '*');
                    if i < p {
                        assert(asks_skip(pattern@, next as int, p as int));
                    }
                }
                if asks_skip(pattern@, next as int, p as int) {
                    let i = choose|i: int| next <= i < p && 0 <= i < pattern@.len() && (#[trigger] pattern@[i] == '?' || pattern@[i] == '*');
                    assert(asks_skip(pattern@, next as int, p + 1));
                }
                if q == '?' || q == '*' {
                    assert(pattern@[p as int] == '?' || pattern@[p as int] == '*');
                    assert(asks_skip(pattern@, next as int, p + 1));
                }
            }
        }
        p += 1;
    }
    if add_cycle {
        connect(arena, base_end, None, base_start);
    }
    if add_skip {
        connect(arena, base_start, None, base_end);
    }
    proof {
        let done = quantified(linked, pattern@, next as int, base_start, base_end);
        assert(done.pos == p);
        assert(state_views(arena@) == done.states);
    }
    Ok((p, base_end))
}

/// Reads one concatenation at `pos` and builds it into the arena. Gives the
/// position behind it, which holds `)` or `|` or is the end of the pattern, and
/// the fragment that was built.
pub fn parse_concat(arena: &mut Corrida<State>, pattern: &[char], pos: usize) -> (result: Result<
    (usize, Fragment),
    ParseError,
>)
    requires
        old(arena).wf(),
    ensures
        final(arena).wf(),
        final(arena)@.len() >= old(arena)@.len(),
        state_views(final(arena)@) == thompson_concat(state_views(old(arena)@), pattern@, pos as int).states,
        match result {
            Ok((next, fragment)) => {
                &&& thompson_concat(state_views(old(arena)@), pattern@, pos as int).out == Ok::<Fragment, ParseError>(fragment)
                &&& thompson_concat(state_views(old(arena)@), pattern@, pos as int).pos == next
                &&& pos <= next
                &&& pos <= pattern@.len() ==> next <= pattern@.len()
                &&& next >= pattern@.len() || pattern@[next as int] == ')' || pattern@[next as int] == '|'
                &&& fragment.entry() < final(arena)@.len()
                &&& fragment.exit() < final(arena)@.len()
            },
            Err(e) => thompson_concat(state_views(old(arena)@), pattern@, pos as int).out == Err::<Fragment, ParseError>(e),
        },
    decreases pattern@.len() - pos, 2int,
{
    let ghost goal = thompson_concat(state_views(arena@), pattern@, pos as int);
    let first = create_state(arena, false);
    let mut cur: usize = first;
    let mut any = false;
    let mut p: usize = pos;
    while p < pattern.len() && pattern[p] != ')' && pattern[p] != '|'
        invariant
            arena.wf(),
            arena@.len() >= old(arena)@.len(),
            first < arena@.len(),
            cur < arena@.len(),
            pos <= p,
            pos <= pattern@.len() ==> p <= pattern@.len(),
            !any ==> cur == first,
            goal == thompson_concat(state_views(old(arena)@), pattern@, pos as int),
            thompson_concat_from(state_views(arena@), pattern@, p as int, first, cur, any) == goal,
        decreases pattern@.len() - p,
    {
        match parse_base(arena, pattern, p, cur) {
            Err(e) => {
                return Err(e);
            },
            Ok((next, end)) => {
                cur = end;
                any = true;
                p = next;
            },
        }
    }
    Ok(
        (
            p,
            if any {
                Fragment::NonEmpty(first, cur)
            } else {
                Fragment::Empty(first)
            },
        ),
    )
}

/// Reads one group at `pos` and builds it into the arena: the whole pattern
/// where `outermost` is set, else what stands between `(` and `)`, the `)` read
/// with it. Gives the position behind the group and the fragment that was built.
pub fn parse_group(arena: &mut Corrida<State>, pattern: &[char], pos: usize, outermost: bool) -> (result: Result<
    (usize, Fragment),
    ParseError,
>)
    requires
        old(arena).wf(),
    ensures
        final(arena).wf(),
        final(arena)@.len() >= old(arena)@.len(),
        state_views(final(arena)@) == thompson_group(state_views(old(arena)@), pattern@, pos as int, outermost).states,
        match result {
            Ok((next, fragment)) => {
                &&& thompson_group(state_views(old(arena)@), pattern@, pos as int, outermost).out == Ok::<Fragment, ParseError>(
                    fragment,
                )
                &&& thompson_group(state_views(old(arena)@), pattern@, pos as int, outermost).pos == next
                &&& pos <= next
                &&& pos <= pattern@.len() ==> next <= pattern@.len()
                &&& outermost && pos <= pattern@.len() ==> next == pattern@.len()
                &&& fragment.entry() < final(arena)@.len()
                &&& fragment.exit() < final(arena)@.len()
            },
            Err(e) => thompson_group(state_views(old(arena)@), pattern@, pos as int, outermost).out == Err::<Fragment, ParseError>(e),
        },
    decreases pattern@.len() - pos, 4int,
{
    let (head_end, head): (usize, Fragment) = match parse_concat(arena, pattern, pos) {
        Err(e) => {
            return Err(e);
        },
        Ok(found) => found,
    };
    let mut p: usize = head_end;
    let fragment = if p < pattern.len() && pattern[p] == '|' {
        let union_start = create_state(arena, false);
        let union_end = create_state(arena, false);
        add_to_union(arena, union_start, union_end, head);
        let ghost goal = thompson_branches(state_views(arena@), pattern@, p as int, union_start, union_end);
        let ghost whole = thompson_group(state_views(old(arena)@), pattern@, pos as int, outermost);
        assert(whole.states == goal.states);
        assert(goal.out is Err ==> whole.out == Err::<Fragment, ParseError>(goal.out->Err_0));
        assert(goal.out is Ok ==> whole == closed(
            goal.states,
            pattern@,
            goal.pos,
            outermost,
            Fragment::NonEmpty(union_start, union_end),
        ));
        while p < pattern.len() && pattern[p] == '|'
            invariant
                arena.wf(),
                whole == thompson_group(state_views(old(arena)@), pattern@, pos as int, outermost),
                whole.states == goal.states,
                goal.out is Err ==> whole.out == Err::<Fragment, ParseError>(goal.out->Err_0),
                goal.out is Ok ==> whole == closed(
                    goal.states,
                    pattern@,
                    goal.pos,
                    outermost,
                    Fragment::NonEmpty(union_start, union_end),
                ),
                arena@.len() >= old(arena)@.len(),
                union_start < arena@.len(),
                union_end < arena@.len(),
                pos <= p,
                pos <= pattern@.len() ==> p <= pattern@.len(),
                p >= pattern@.len() || pattern@[p as int] == ')' || pattern@[p as int] == '|',
                branches_from(state_views(arena@), pattern@, p as int, union_start, union_end) == goal,
            decreases pattern@.len() - p,
        {
            match parse_concat(arena, pattern, p + 1) {
                Err(e) => {
                    return Err(e);
                },
                Ok((next, branch)) => {
                    add_to_union(arena, union_start, union_end, branch);
                    p = next;
                },
            }
        }
        Fragment::NonEmpty(union_start, union_end)
    } else {
        head
    };
    if p < pattern.len() {
        if pattern[p] == ')' && outermost {
            return Err(ParseError::UnbalancedClose);
        }
        Ok((p + 1, fragment))
    } else {
        if outermost {
            Ok((p, fragment))
        } else {
            Err(ParseError::UnbalancedOpen)
        }
    }
}

/// Builds the automaton of `regex_string` into `arena`, behind the states that
/// are there, or says why the pattern is refused. The arena then holds exactly
/// the states of `thompson_regex`, whether the pattern was accepted or not.
pub fn parse_regex<'a>(regex_string: &str, arena: &'a mut Corrida<State>) -> (result: Result<Nfa<'a>, ParseError>)
    requires
        old(arena).wf(),
    ensures
        final(arena).wf(),
        state_views(final(arena)@) == thompson_regex(state_views(old(arena)@), regex_string@).states,
        old(arena)@.len() <= final(arena)@.len(),
        forall|q: int| 0 <= q < old(arena)@.len() ==> #[trigger] state_views(final(arena)@)[q] == state_views(old(arena)@)[q],
        match result {
            Ok(nfa) => {
                &&& thompson_regex(state_views(old(arena)@), regex_string@).out is Ok
                &&& nfa.states() == state_views(final(arena)@)
                &&& nfa.start() == thompson_regex(state_views(old(arena)@), regex_string@).out->Ok_0.entry()
                &&& old(arena)@.len() <= nfa.start() < final(arena)@.len()
                &&& forall|q: int|
                    old(arena)@.len() <= q < final(arena)@.len() ==> ((#[trigger] state_views(final(arena)@)[q]).accept <==> q
                        == thompson_regex(state_views(old(arena)@), regex_string@).out->Ok_0.exit())
            },
            Err(e) => {
                &&& thompson_regex(state_views(old(arena)@), regex_string@).out == Err::<Fragment, ParseError>(e)
                &&& forall|q: int|
                    old(arena)@.len() <= q < final(arena)@.len() ==> !(#[trigger] state_views(final(arena)@)[q]).accept
            },
        },
{
    let pattern = to_chars(regex_string);
    let ghost before = state_views(arena@);
    match parse_group(arena, pattern.as_slice(), 0, true) {
        Err(e) => {
            proof {
                arena.lemma_len_fits();
                lemma_one_accepting_state(before, regex_string@);
            }
            Err(e)
        },
        Ok((_, fragment)) => {
            let (start_node, end_node): (usize, usize) = match fragment {
                Fragment::NonEmpty(start, end) => (start, end),
                Fragment::Empty(state) => (state, state),
            };
            let ghost built = state_views(arena@);
            arena.get_mut(end_node).set_accept(true);
            assert(state_views(arena@) =~= accepting(built, end_node));
            proof {
                arena.lemma_len_fits();
                lemma_one_accepting_state(before, regex_string@);
            }
            Ok(Nfa::new(&*arena, start_node))
        },
    }
}

/// Builds the automaton of `regex_string` and, into `arena`, a deterministic
/// automaton that accepts the same inputs; or says why the pattern is refused,
/// and leaves `arena` as it was.
pub fn create_regex_dfa<'b>(regex_string: &str, arena: &'b mut Corrida<PartialState>) -> (result: Result<
    Dfa<'b, PartialState>,
    ParseError,
>)
    requires
        old(arena).wf(),
    ensures
        final(arena).wf(),
        final(arena)@.take(old(arena)@.len() as int) == old(arena)@,
        match result {
            Ok(dfa) => {
                &&& thompson_regex(Seq::empty(), regex_string@).out is Ok
                &&& dfa.states() == partial_views(final(arena)@)
                &&& dfa.start() == old(arena)@.len()
                &&& forall|input: Seq<char>|
                    #[trigger] dfa_accepts(dfa.states(), dfa.start(), input) == nfa_accepts(
                        thompson_regex(Seq::empty(), regex_string@).states,
                        thompson_regex(Seq::empty(), regex_string@).out->Ok_0.entry() as int,
                        input,
                    )
            },
            Err(e) => {
                &&& thompson_regex(Seq::empty(), regex_string@).out == Err::<Fragment, ParseError>(e)
                &&& final(arena)@ == old(arena)@
            },
        },
{
    let mut states: Corrida<State> = Corrida::new(None);
    assert(state_views(states@) =~= Seq::<StateView>::empty());
    match parse_regex(regex_string, &mut states) {
        Ok(nfa) => Ok(nfa.as_dfa(arena)),
        Err(e) => {
            assert(arena@.take(arena@.len() as int) =~= arena@);
            Err(e)
        },
    }
}

} // verus!
