//! A JSON / JSONC parser that keeps source spans, collects comments, and
//! reports errors while recovering from them.
//!
//! [`semantics`] states, as functions over the source bytes, what the parser
//! computes; [`parser`] is the parser, proved to compute exactly that; and
//! [`laws`] proves properties of the results.
use vstd::prelude::*;
use vstd::string::StringSliceAdditionalSpecFns;

pub mod ast;
pub mod diagnostics;
pub mod laws;
pub mod modes;
pub mod parser;
pub mod semantics;
pub mod text;

pub use ast::{
    JsonArray, JsonBool, JsonComment, JsonCommentKind, JsonNumber, JsonObject, JsonProperty,
    JsonString, JsonValue, Span,
};
pub use parser::{JsonParseOptions, JsonParseReturn, JsonParser};
use semantics::parse_outcome;

verus! {

/// JSONC mode: comments and trailing commas are accepted.
pub open spec fn jsonc_options() -> JsonParseOptions {
    JsonParseOptions { allow_comments: true, allow_trailing_commas: true }
}

/// Strict JSON mode: comments and trailing commas are reported as errors.
pub open spec fn strict_options() -> JsonParseOptions {
    JsonParseOptions { allow_comments: false, allow_trailing_commas: false }
}

/// Parse JSON/JSONC source text with default options (JSONC mode).
pub fn parse(source: &str) -> (r: JsonParseReturn<'_>)
    requires
        source.spec_bytes().len() < u32::MAX,
        parse_outcome(source.spec_bytes(), jsonc_options()) is Some,
    ensures
        r.describes(parse_outcome(source.spec_bytes(), jsonc_options()).unwrap()),
{
    JsonParser::new(source, JsonParseOptions::default()).parse()
}

/// Parse strict JSON source text (no comments, no trailing commas).
pub fn parse_json(source: &str) -> (r: JsonParseReturn<'_>)
    requires
        source.spec_bytes().len() < u32::MAX,
        parse_outcome(source.spec_bytes(), strict_options()) is Some,
    ensures
        r.describes(parse_outcome(source.spec_bytes(), strict_options()).unwrap()),
{
    JsonParser::new(source, JsonParseOptions::strict()).parse()
}

} // verus!
