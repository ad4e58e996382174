//! Reads whitespace-separated tokens from a byte stream and turns them into typed values.
//!
//! - `token`: what the tokens of a byte sequence are.
//! - `source`: cursors that hand out those tokens one at a time, eagerly or line by line.
//! - `read`: the `Readable` protocol and the integer kinds.
//! - `types`: one-based indices, characters, strings and raw bytes.
//! - `compose`: the marker kind, tuples of kinds and sequences of a kind.
//! - `parse`: decimal integers and UTF-8 text.

pub mod compose;
pub mod parse;
pub mod read;
pub mod source;
pub mod token;
pub mod types;
