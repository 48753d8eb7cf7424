//! A tokenizer for one line of arithmetic input.
//!
//! `lex` turns text into numbers, operators, parentheses and an end marker,
//! or rejects it when it holds a character outside that set. What `lex`
//! returns is pinned down by the spec functions of `scan`.

pub mod token;
pub mod scan;
pub mod lexer;
pub mod laws;
