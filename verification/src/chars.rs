//! The characters of a string, taken from the iterator that the string hands out.

use std::str::Chars;
use vstd::prelude::*;
use vstd::std_specs::iter::IteratorSpec;
use vstd::string::into_iter_elts;

verus! {

/// The characters that `input` hands out, first to last. The iterator has to be
/// as a string hands it out, with nothing taken from it yet.
pub fn collect_chars(input: Chars<'_>) -> (chars: Vec<char>)
    requires
        input.decrease() is Some,
        input.initial_value_relation(&input),
    ensures
        chars@ == into_iter_elts(input),
{
    let mut chars: Vec<char> = Vec::new();
    for c in iter: input
        invariant
            chars@ == iter.seq().take(iter.index() as int),
            iter.seq() == into_iter_elts(input),
    {
        chars.push(c);
    }
    chars
}

/// The characters of `text`, first to last.
pub fn to_chars(text: &str) -> (chars: Vec<char>)
    ensures
        chars@ == text@,
{
    collect_chars(text.chars())
}

} // verus!
