//! Parsing of one-line arithmetic and logical expressions into a syntax tree.
//!
//! The crate has three layers. [`ast::function`] is the fixed table of built-in
//! operators and routines. [`parser::tokenizer`] splits a line of text into
//! tokens, grouping multi-character operators greedily. [`parser`] turns the
//! tokens into an [`ast::Expression`] by precedence climbing.
//!
//! Every executable function carries a contract over a mathematical model:
//! texts are sequences of characters, tokens and trees are plain ghost
//! datatypes, and the grammar of [`parser::grammar`] is a set of recursive
//! functions from tokens to trees. What holds of every text, beyond the
//! contracts, is proved in [`parser::token_laws`], [`parser::grammar_laws`]
//! and [`parser::round_trip`].
//!
//! Numbers are kept as the decimal text they were written with; turning that
//! text into a machine number is left to the caller.
pub mod ast;
pub mod parser;
pub mod text;
pub mod unicode;
