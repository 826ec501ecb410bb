use vstd::prelude::*;

pub mod automaton;
pub mod dfa;
pub mod efa;
pub mod equivalence;
pub mod graph;
pub mod idempotence;
pub mod literals;
pub mod matcher;
pub mod minimize;
pub mod nfa;
pub mod regex_parser;
pub mod state_generator;
pub mod thompson;
pub mod tree;

pub use dfa::DFA;
pub use efa::EFA;
pub use regex_parser::{build_automaton, CompileError, GenericRegexParser, RegexParser, SyntaxError};

verus! {

} // verus!
