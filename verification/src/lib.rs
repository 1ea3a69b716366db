//! A lexical scanner for a small Lox-like scripting language.
//!
//! The scanner turns a source-text string into an ordered sequence of
//! tokens, terminated by a single end-of-file token. Malformed input
//! never aborts a scan: each problem is recorded as a line-numbered
//! diagnostic and scanning resumes at the next character.
//!
//! The behaviour of a whole scan is pinned down by the specification
//! functions in [`lexing`]: scanning is a pure function of the source
//! text, and the executable [`scanner::Scanner`] is proved to return
//! exactly that function's value.

pub mod lexing;
pub mod scanner;
pub mod token;
pub mod utils;
