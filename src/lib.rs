//! An incremental, zero-copy parser for JSON values.
//!
//! Bytes are fed in chunks of any size; the parser suspends when a chunk
//! ends and resumes where it stopped once more bytes arrive. Strings and
//! numbers come out as shared slices of the input buffer.
pub mod byterange;
pub mod value;
pub mod grammar;
pub mod decoder;
pub mod whitespace;

pub use byterange::{BytesBuf, BytesRange};
pub use decoder::{json_value_, parse_all, JsonValue, Outcome};
pub use grammar::{Literal, ParseError};
pub use value::Value;
