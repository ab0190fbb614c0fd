//! A streaming tokenizer for JSON text over a segmented byte buffer.
//!
//! The tokenizer never reads on its own: whoever owns the byte source hands
//! it what each read came to, and it answers each request for a token with a
//! token, an error, the end of the stream, or a request for more input.

pub mod grammar;
pub mod json;
pub mod vecring;

pub use json::{number_is_valid, Error, JsonToken, Literal, ReadEvent, Step, Tokenizer};
pub use vecring::{Buffer, Options, Position};
