pub mod explore;
pub mod fusion;
pub mod groups;
pub mod laws;
pub mod meaning;
pub mod model;
pub mod nfa;
pub mod nfa_set;
pub mod show;
pub mod sim;
pub mod sound;
pub mod state;
pub mod thompson;

pub use model::Automaton;
pub use nfa::{Transition, NFA};
pub use nfa_set::NFASet;
pub use state::State;
