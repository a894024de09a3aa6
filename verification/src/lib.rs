//! A small backtracking regular-expression engine: a pattern compiler, a
//! matcher that retreats from greedy choices, and a scan over a text.

pub mod token;
pub mod utils;
pub mod lexer;
pub mod semantics;
pub mod lemmas;
mod engine;
pub mod sequence;
pub mod quantifiers;
pub mod grep;
pub mod character_groups;
pub mod laws;
