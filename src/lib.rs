//! A single-pass scanner for JSON with `//`, `#` and `/* */` comments.
//!
//! The scanner reports every leaf value (string, number, `true`, `false`,
//! `null`) together with the chain of object keys and array indices that
//! leads to it, without building a tree and without copying the input.
pub mod types;
pub mod model;
pub mod text;
mod scanner;
pub mod parse;
pub mod laws;

pub use types::{JSONKey, RootJSONValue, JSONParseErrorReason, JSONParseError};
pub use parse::{parse, parse_with_exit_signal};
