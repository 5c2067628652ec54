//! Lexical front end for a small systems language: a text index over byte
//! offsets, arbitrary-precision numeral parsing, string escape decoding, a
//! character-level tokenizer, and a generic incremental parser driver.
//!
//! Source text is handled as bytes, and every position or span a token or
//! an error carries is a byte offset. Errors from a sub-parser are local to
//! the substring it was given; each enclosing layer rebases them, so the
//! position that reaches the caller is absolute.
pub use num_bigint;

pub mod bignum;
pub mod literals;
pub mod parsing;
pub mod src_token;
pub mod text_region;
