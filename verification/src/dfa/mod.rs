pub mod dfa;

pub use dfa::DFA;
