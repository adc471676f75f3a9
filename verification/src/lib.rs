//! Regular expressions compiled to finite automata.
//!
//! A pattern is parsed into a non-deterministic automaton whose states live in a
//! bump arena and refer to each other by handle. The automaton can be run
//! directly, or turned into a deterministic one by subset construction and run
//! from there. Both answer one question: does the input, as a whole, match?
//!
//! * `corrida` and `arena` hold the arenas, `tables` the small collections of a
//!   state's transitions.
//! * `nfa` and `friendly` hold the non-deterministic automaton and its two ways
//!   of running, `dfa` the deterministic one, `subset` the way from the first to
//!   the second.
//! * `regex` holds the parser, and with it the definition of the automaton that
//!   a pattern stands for; `regex_laws`, `alternation_law`, `concatenation_law`,
//!   `repetition_law` and `laws` hold what is proved of all of this beyond the
//!   contracts of the functions.
//! * `basic_structures`, `toy_structures` and `fighters` hold other things that
//!   live well in an arena.

pub mod alternation_law;
pub mod arena;
pub mod basic_structures;
pub mod chars;
pub mod concatenation_law;
pub mod corrida;
pub mod dfa;
pub mod fighters;
pub mod friendly;
pub mod laws;
pub mod nfa;
pub mod regex;
pub mod regex_laws;
pub mod repetition_law;
pub mod subset;
pub mod tables;
pub mod toy_structures;
