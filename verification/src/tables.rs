//! The small collections that hold a state's transitions, and what is taken on
//! trust about them.
//!
//! The maps are `smallmap::Map`, the lists `smallvec::SmallVec`. Nothing in this
//! file is proved: each function makes one call into one of the two crates, and
//! its contract says what that call does to the contents.
//!
//! `Map` is made known to Verus as it is. `SmallVec` cannot be: its declaration is
//! bounded by the crate's own `Array` trait. So each list is kept in a struct of
//! this library that Verus does not look into.

use smallvec::SmallVec;
use vstd::prelude::*;

verus! {

/// `smallmap::Map`, a map of pages indexed by a one-byte digest of the key.
#[verifier::external_type_specification]
#[verifier::external_body]
#[verifier::reject_recursive_types(TKey)]
#[verifier::reject_recursive_types(TValue)]
pub struct ExSmallMap<TKey, TValue>(smallmap::Map<TKey, TValue>);

/// The targets of one state on one symbol, in the order in which they were added:
/// a `SmallVec` with room for two before it moves to the heap. `None` stands for
/// the state that owns the list.
#[verifier::external_body]
pub struct Targets {
    inner: SmallVec<[Option<usize>; 2]>,
}

/// A list of state handles: a `SmallVec` with room for thirty-two before it moves
/// to the heap.
#[verifier::external_body]
pub struct StateList {
    inner: SmallVec<[usize; 32]>,
}

/// The items of a target list, first to last.
pub uninterp spec fn targets_view(list: Targets) -> Seq<Option<usize>>;

/// The items of a state list, first to last.
pub uninterp spec fn state_list_view(list: StateList) -> Seq<usize>;

/// What a transition map of a non-deterministic state holds: for each symbol that
/// has an entry, the items of its target list. The key `None` is the empty word.
pub uninterp spec fn nfa_table_view(table: smallmap::Map<Option<char>, Targets>) -> Map<Option<char>, Seq<Option<usize>>>;

/// What a transition map of a deterministic state holds: for each symbol that has
/// an entry, its target. The target `None` stands for the state that owns the map.
pub uninterp spec fn dfa_table_view(table: smallmap::Map<char, Option<usize>>) -> Map<char, Option<usize>>;

/// `SmallVec::new`: a list without items.
#[verifier::external_body]
pub(crate) fn targets_new() -> (list: Targets)
    ensures
        targets_view(list).len() == 0,
{
    Targets { inner: SmallVec::new() }
}

/// `SmallVec::push`: the item is added behind the others.
#[verifier::external_body]
pub(crate) fn targets_push(list: &mut Targets, target: Option<usize>)
    ensures
        targets_view(*final(list)) == targets_view(*old(list)).push(target),
{
    list.inner.push(target)
}

/// `SmallVec::as_slice`: the items as a slice.
#[verifier::external_body]
pub(crate) fn targets_as_slice(list: &Targets) -> (items: &[Option<usize>])
    ensures
        items@ == targets_view(*list),
{
    list.inner.as_slice()
}

/// `SmallVec::new`: a list without items.
#[verifier::external_body]
pub(crate) fn state_list_new() -> (list: StateList)
    ensures
        state_list_view(list).len() == 0,
{
    StateList { inner: SmallVec::new() }
}

/// `SmallVec::push`: the item is added behind the others.
#[verifier::external_body]
pub(crate) fn state_list_push(list: &mut StateList, state: usize)
    ensures
        state_list_view(*final(list)) == state_list_view(*old(list)).push(state),
{
    list.inner.push(state)
}

/// `SmallVec::as_slice`: the items as a slice.
#[verifier::external_body]
pub(crate) fn state_list_as_slice(list: &StateList) -> (items: &[usize])
    ensures
        items@ == state_list_view(*list),
{
    list.inner.as_slice()
}

/// `Map::new`: a map without entries.
#[verifier::external_body]
pub(crate) fn nfa_table_new() -> (table: smallmap::Map<Option<char>, Targets>)
    ensures
        nfa_table_view(table).dom() == Set::<Option<char>>::empty(),
{
    smallmap::Map::new()
}

/// `Map::get`: the list stored under `key`, if there is one.
#[verifier::external_body]
pub(crate) fn nfa_table_get<'a>(table: &'a smallmap::Map<Option<char>, Targets>, key: &Option<char>) -> (found: Option<&'a Targets>)
    ensures
        found is Some <==> nfa_table_view(*table).contains_key(*key),
        found is Some ==> targets_view(*found.unwrap()) == nfa_table_view(*table)[*key],
{
    table.get(key)
}

/// `Map::get_mut`: the list stored under `key`, if there is one, to be changed in
/// place. The map then holds under `key` whatever the list has become, and every
/// other entry as before.
#[verifier::external_body]
pub(crate) fn nfa_table_get_mut<'a>(table: &'a mut smallmap::Map<Option<char>, Targets>, key: &Option<char>) -> (found: Option<&'a mut Targets>)
    ensures
        found is Some <==> nfa_table_view(*old(table)).contains_key(*key),
        found is Some ==> targets_view(*found.unwrap()) == nfa_table_view(*old(table))[*key],
        found is Some ==> nfa_table_view(*final(table)) == nfa_table_view(*old(table)).insert(*key, targets_view(*final(found.unwrap()))),
        found is None ==> nfa_table_view(*final(table)) == nfa_table_view(*old(table)),
{
    table.get_mut(key)
}

/// `Map::insert`: `list` is stored under `key`, in place of what was there; every
/// other entry stays.
#[verifier::external_body]
pub(crate) fn nfa_table_insert(table: &mut smallmap::Map<Option<char>, Targets>, key: Option<char>, list: Targets)
    ensures
        nfa_table_view(*final(table)) == nfa_table_view(*old(table)).insert(key, targets_view(list)),
{
    table.insert(key, list);
}

/// `Map::keys`: the symbols that have an entry, each at least once, in the order
/// of the map's pages.
#[verifier::external_body]
pub(crate) fn nfa_table_symbols(table: &smallmap::Map<Option<char>, Targets>) -> (symbols: Vec<Option<char>>)
    ensures
        forall|key: Option<char>| #[trigger] symbols@.contains(key) <==> nfa_table_view(*table).contains_key(key),
{
    table.keys().copied().collect()
}

/// `Map::new`: a map without entries.
#[verifier::external_body]
pub(crate) fn dfa_table_new() -> (table: smallmap::Map<char, Option<usize>>)
    ensures
        dfa_table_view(table).dom() == Set::<char>::empty(),
{
    smallmap::Map::new()
}

/// `Map::get`: the target stored under `key`, if there is one.
#[verifier::external_body]
pub(crate) fn dfa_table_get(table: &smallmap::Map<char, Option<usize>>, key: char) -> (found: Option<Option<usize>>)
    ensures
        found is Some <==> dfa_table_view(*table).contains_key(key),
        found is Some ==> found.unwrap() == dfa_table_view(*table)[key],
{
    table.get(&key).copied()
}

/// `Map::insert`: `target` is stored under `key`, in place of what was there;
/// every other entry stays.
#[verifier::external_body]
pub(crate) fn dfa_table_insert(table: &mut smallmap::Map<char, Option<usize>>, key: char, target: Option<usize>)
    ensures
        dfa_table_view(*final(table)) == dfa_table_view(*old(table)).insert(key, target),
{
    table.insert(key, target);
}

} // verus!
