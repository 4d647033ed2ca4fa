//! A recognizer for RFC 4180-style CSV text, written as a parsing
//! expression grammar: ordered choice, greedy repetition, and strict
//! left-to-right descent from file to record to field to terminal.
//!
//! The grammar requires every input to end with the sentinel character
//! `'\u{3}'` (end of text); an input lacking it is rejected even when the
//! CSV content itself is well formed.  An escaped field keeps its
//! surrounding quote marks and its doubled-quote escapes verbatim in the
//! produced value.

pub mod grammar;
pub mod laws;
pub mod parser;

pub use parser::crlf;
pub use parser::csv_parser;
pub use parser::dquote2;
pub use parser::in_range;
pub use parser::is_textdata;
pub use parser::literal;
pub use parser::text_data;
pub use parser::ws;
pub use parser::MatchFailure;
