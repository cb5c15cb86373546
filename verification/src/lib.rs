//! Tokenizer for a small experimental language.
//!
//! Raw source text is turned into a nested token tree; malformed input is
//! reported through recoverable, span-located diagnostics instead of
//! aborting at the first error.

pub mod count_remove;
pub mod laws;
pub mod lexer;
pub mod message;
pub mod num;
pub mod signalling_filter_map;
pub mod tables;
pub mod token;
