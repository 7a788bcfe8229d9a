//! A JSON parser: text in, a tree of values or a located syntax error out.
use vstd::prelude::*;

pub mod chars;
pub mod data;
pub mod grammar;
pub mod grammar_laws;
pub mod lexis;
pub mod lexis_laws;
pub mod messages;
pub mod nesting;
pub mod parser;
pub mod scanner;
pub mod shape;

pub use data::{JsonElement, ParseError};

verus! {

/// Parses a JSON text into a [`JsonElement`], or says where and why the text
/// is no JSON.
///
/// The result is what the grammar gives for the text: see
/// [`grammar::parse_text`]. In a value that is returned every number is a
/// number literal and no object has two members with the same key; an error
/// that is returned names a line from 1 on.
pub fn parse(json: &str) -> (r: Result<JsonElement, ParseError>)
    ensures
        parser::value_outcome(r) == grammar::parse_text(json@),
        match r {
            Ok(value) => value@.well_formed(),
            Err(e) => e.line >= 1,
        },
{
    proof {
        grammar_laws::law_parsed_value_is_well_formed(json@);
        grammar_laws::law_errors_are_placed(json@);
    }
    parser::JsonParser::from(json).parse()
}

} // verus!
