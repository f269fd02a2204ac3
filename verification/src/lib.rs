//! A low-level text cursor for hand-written lexers and parsers.
//!
//! The [`cursor::Parser`] scans a fixed, fully resident text buffer character
//! by character.  It offers primitives to skip whitespace, consume words, and
//! extract substrings up to a delimiter character, a set of characters, a
//! delimiter string, or a set of strings, as well as an end-of-input scan.
//! It holds no grammar knowledge and produces no tokens: it is a building
//! block, not a parser.
//!
//! The mathematical model lives in [`scan`]: the buffer is a sequence of
//! Unicode scalar values, the cursor position an index into that sequence,
//! exposed to callers as the byte offset where that character's UTF-8
//! encoding starts.

pub mod cursor;
pub mod scan;

pub use cursor::Parser;
