//! A lexical-analyzer toolkit: a byte-to-text alphabet codec, deterministic
//! finite automata with longest-prefix simulation and partition-refinement
//! minimization, a nondeterministic-automaton variant, and a maximal-munch
//! tokenizer driven by an ordered list of token recognizers.

pub mod codec;
pub mod dfa;
pub mod loader;
pub mod nfa;
pub mod scanner;
pub mod table;
pub mod textfmt;
