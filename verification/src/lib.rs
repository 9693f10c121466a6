//! Small text parsers (a JSON-like and an XML-like format) producing a
//! tree of strings, maps and lists, and the request-parsing and routing
//! logic of a minimal HTTP server.
use vstd::prelude::*;

pub mod string_parser;
pub mod text;
pub mod web_api;

verus! {

} // verus!
