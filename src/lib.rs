//! Conversion of Valve's ACF key/value text format into JSON text.
//!
//! [`AcfTokenStream`] turns the bytes of an ACF document into a lazy stream
//! of tokens, and [`JsonWriter`] pulls those tokens by recursive descent and
//! writes the matching JSON object.

pub mod chars;
pub mod json;
pub mod laws;
pub mod source;
pub mod token;
pub mod tokenizer;

pub use token::{AcfToken, ParseError};
pub use tokenizer::AcfTokenStream;
pub use json::JsonWriter;
pub use source::{TokenList, TokenSource};
