//! A small stack-oriented bytecode language: a compiler from assembly text to a
//! byte program, and a stack machine that runs byte programs.

pub mod compile;
pub mod error;
pub mod laws;
pub mod listing;
pub mod machine;
pub mod stack;
