//! Lexical-analysis front end for a minimal C-like language.
//!
//! The `lexer` module turns raw source text into an ordered sequence of
//! classified tokens; the `model` module gives the mathematical account of
//! that scan, and `laws` proves the properties the scanner is expected to
//! keep (maximal munch, comment transparency, keyword exactness, ...).

pub mod laws;
pub mod lexer;
pub mod model;
