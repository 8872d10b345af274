use vstd::prelude::*;

pub mod errors;
pub mod eval;
pub mod interpreter;
pub mod linked_tokens;
pub mod parser;
pub mod pattern;
pub mod round_trip;
pub mod scope;
pub mod text;

verus! {

} // verus!
