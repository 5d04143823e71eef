//! A Cap'n Proto JSON codec, verified with Verus.
//!
//! The library holds the logic of the codec: the JSON value model, its
//! parser and its writer; the Base64 and hex codecs for `Data`; the rules that
//! turn a field's JSON annotations into encoding options; the encoder, from a
//! Cap'n Proto value to JSON text; the decoder, from JSON text to the writes
//! that fill a struct builder; the reading of JSON numbers into integer
//! fields; the check that a schema's flattening terminates; and the
//! laws that tie them together: what the parser reads back of what the
//! writer writes, what the decoder plans for a message the encoder wrote,
//! and that members it does not look for change nothing.
pub mod data;
pub mod decode;
pub mod encode;
pub mod error;
pub mod grammar;
pub mod json;
pub mod message;
pub mod number;
pub mod options;
pub mod parsed;
pub mod parser;
pub mod roundtrip;
pub mod strbuf;
pub mod unknown;
pub mod validate;
pub mod writer;

pub use error::Error;
pub use json::JsonValue;
pub use options::CodecOptions;
