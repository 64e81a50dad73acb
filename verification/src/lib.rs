//! Regular languages over a finite, user-chosen alphabet.
//!
//! Three representations are provided: nondeterministic automata ([`nfa::NFA`]),
//! deterministic automata ([`dfa::DFA`]) and regular expressions
//! ([`regex::Regex`]). Every operation carries a contract over the mathematical
//! model of its arguments, and the language-level laws are stated as proof
//! functions next to the operations they speak of.
pub mod symbol;
pub mod text;
pub mod language;
pub mod model;
pub mod sets;
pub mod nfa;
pub mod utils;
pub mod dfa;
pub mod subsets;
pub mod determinism;
pub mod laws;
pub mod automaton;
pub mod regex;
pub mod parser;
pub mod span;
pub mod traits;
pub mod generator;
