//! Expansion of macro-style token templates.
//!
//! A template is a token sequence that may contain repetition groups written
//! `$( body )sep*`. The library lexes a template, parses it into token trees,
//! collapses runs of plain tokens into groups, and finally builds a directed
//! acyclic graph of token chunks in which the three repetition multiplicities
//! (zero, one, two-or-more occurrences) share their downstream continuations
//! instead of duplicating them.
//!
//! A separate, smaller facility drives a single grammar over several token
//! streams in lockstep, pausing streams whose next token diverges from the
//! branch currently being parsed.

pub mod chunks;
pub mod errors;
pub mod groups;
pub mod laws;
pub mod lexer;
pub mod parser;
pub mod state;
pub mod streams;
pub mod token;
pub mod tree;
