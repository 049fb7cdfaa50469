//! The wildcard-rules batch evaluator: a single-mode revision of the
//! engine, kept as a thin entry point over [`crate::day7`].

use vstd::prelude::*;

use crate::day7::{
    Mode, ParseError, all_lines_ok, fails_first_with, parsed_views, run_mode, sort_spec,
    winnings_fit, winnings_spec,
};

verus! {

/// Evaluate the batch under the wildcard rules: the sum over all hands of
/// stake times 1-based rank after sorting, or the first line's parse error.
pub fn challenge(lines: &Vec<String>) -> (r: Result<u32, ParseError>)
    requires
        winnings_fit(lines@, Mode::Wildcard),
    ensures
        match r {
            Ok(w) => all_lines_ok(lines@) && w == winnings_spec(
                sort_spec(parsed_views(lines@), Mode::Wildcard),
            ),
            Err(e) => fails_first_with(lines@, e),
        },
{
    run_mode(lines, Mode::Wildcard)
}

} // verus!
