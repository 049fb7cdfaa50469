//! A small batch-evaluation library for line-oriented puzzle inputs.
//!
//! The centrepiece is the hand-ranking engine of `day7`: it parses
//! five-symbol hands with stakes, classifies them into seven ranked
//! categories (with a standard and a wildcard variant), orders them by a
//! strict total order and reduces a batch to one weighted sum.  The other
//! modules are independent, self-contained line computations.

use vstd::prelude::*;

pub mod day1;
pub mod day2;
pub mod day3;
pub mod day4;
pub mod day5;
pub mod day6;
pub mod day7;
pub mod day7_1;
pub mod day7_2;
pub mod day8;
pub mod day9;
pub mod math;
pub mod parse;

verus! {

/// The library-wide error type: an input line (or a whole input) that does
/// not have the expected shape.
#[derive(Debug, Clone)]
pub enum Error {
    MissingArg,
    InvalidInput(String),
}

impl Error {
    /// A human-readable description of the error.
    pub fn message(&self) -> (r: String)
        ensures
            self is MissingArg ==> r@ == "Missing argument"@,
            self is InvalidInput ==> r@ == self->InvalidInput_0@,
    {
        match self {
            Error::MissingArg => String::from_str("Missing argument"),
            Error::InvalidInput(msg) => msg.clone(),
        }
    }
}

} // verus!
