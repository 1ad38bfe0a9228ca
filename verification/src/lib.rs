//! jsrmx: break apart or combine JSON and NDJSON documents.
//!
//! A directory of single-object `.json` files, one merged object, and a
//! stream of newline-delimited rows are three forms of the same data; this
//! crate converts between them. Merging collects named entries into one
//! object and splitting takes it apart, each under an optional name
//! filter; bundling turns entries into rows and unbundling turns rows back
//! into named entries, with nested values escaped to strings and back at
//! dotted field paths.
use vstd::prelude::*;

/// Escaping a nested value into a string and extracting it back.
pub mod codec;
/// Regular-expression name filtering.
pub mod filter;
/// Sources, readers and sinks, and the in-memory forms of each.
pub mod io;
/// The JSON document model.
pub mod json;
/// Bundling entries into rows and unbundling rows into entries.
pub mod ndjson;
/// Parsing JSON text.
pub mod parse;
/// Dotted field paths and pointer lookup.
pub mod pointer;
/// Merging entries into an object and splitting an object into entries.
pub mod processor;
/// The serialize–parse round-trip law.
pub mod roundtrip;
/// Serializing JSON values, compact and pretty.
pub mod ser;
mod strutil;

pub use json::Json;
pub use json::JsonV;

verus! {

} // verus!
