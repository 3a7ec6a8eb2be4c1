//! A compiler and sentence generator for BNF-style context-free grammars.
//!
//! A grammar file is a line-oriented text: each rule line names a
//! nonterminal, an `=`, and one or more alternatives separated by `|`.
//! The library lexes and parses such lines, assembles the rules into a
//! table, checks that every referenced nonterminal is defined, and
//! expands a start symbol into a sentence by uniformly random choice
//! among the alternatives.

pub mod error_handling;
pub mod generator;
pub mod grammar;
pub mod lexer;
pub mod parser;
pub mod serializer;
pub mod checker;
