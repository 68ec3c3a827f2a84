//! A JSON parser built from a small set of parser combinators, with every rule verified
//! against a grammar written as spec functions over the characters of the input.
//!
//! - `parser`: positions, error trails, the in-memory input and character classes.
//! - `combinator`: sequencing, ordered alternation and repetition as rule values.
//! - `json`: the JSON grammar, the value model and its accessors.

use vstd::prelude::*;

pub mod combinator;
pub mod json;
pub mod parser;

verus! {

} // verus!
