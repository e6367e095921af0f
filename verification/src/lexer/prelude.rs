//! What a tokenizer for a kind of token is written with.

pub use super::token::{Spanned, Token};
pub use super::{LexError, Lexer};

pub use crate::language::Language;
pub use crate::nfa::{NFASet, NFA};
