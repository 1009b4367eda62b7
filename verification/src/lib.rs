//! Fuzzy JSON: reads loosely written, human-authored text and yields strict JSON.
//!
//! The text may leave keys unquoted, quote strings singly, end lists with a
//! comma, carry comments and spell `null`, `true` and `false` in several ways;
//! and the value may stand anywhere in it, amid words that are no data.

use vstd::prelude::*;

pub mod grammar;
pub mod json;
pub mod laws;
pub mod locality;
pub mod parser;
pub mod reading_back;
pub mod suffix;
pub mod text;

verus! {

/// The canonical JSON text of the first value in the input, if there is one.
pub fn fson(input: &str) -> (r: Option<String>)
    ensures
        match grammar::first_value(input@) {
            Some(v) => r matches Some(t) && t@ == json::render(v),
            None => r is None,
        },
        r is None <==> laws::nothing_between(input@, 0, input@.len() as int),
{
    match parser::parse_fson(input) {
        Some(data) => Some(data.stringify()),
        None => None,
    }
}

} // verus!
