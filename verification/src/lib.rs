//! A minimalist INI-style configuration parser and encoder.
//!
//! The format consists of `[section]` headers, `key=value` assignments and
//! `;`-comments.  Values are carried in an ASCII-safe escaped form: a fixed
//! table of backslash escapes covers the format's structural characters, and
//! any other Unicode scalar value is written as `\x` followed by six lowercase
//! hex digits.  The escape codec, the tokenizer, the line parser state machine
//! and the positional error model are all verified against the
//! specifications stated in their contracts.

pub mod chars;
pub mod datas;
pub mod dump;
pub mod dumper;
pub mod errors;
pub mod parse;
pub mod parser;
pub mod tree;
