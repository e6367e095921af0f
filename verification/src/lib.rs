//! A small regular-language engine: a surface parser for regular expressions,
//! Thompson's construction of nondeterministic automata, their simulation,
//! the fusion of several labelled automata and a longest-match tokenizer.
//!
//! Every function has a contract that says what it returns, and the
//! contracts are proved. What a pattern means is defined in
//! `nfa::meaning`, together with the proof that the automaton of a pattern
//! matches what the pattern means; `nfa::fusion` does the same for sets of
//! patterns.

pub mod dfa;
pub mod language;
pub mod lexer;
pub mod nfa;
pub mod parse;
pub mod table;
pub mod text;
