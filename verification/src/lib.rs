//! Declarative text edits driven by regular-expression captures.
//!
//! A set of patterns with named capture groups locates substrings in a
//! document, and a small operator language (increment, decrement, multiply,
//! divide, replace, delete, swap, append, prepend, case conversion) rewrites
//! each located substring in place.  All pending edits are validated against
//! one another and applied as a single consistent rewrite, or the whole
//! transform fails with a typed error.

use vstd::prelude::*;

pub mod edits;
pub mod engine;
pub mod errors;
pub mod ints;
pub mod ops;
pub mod pattern;
pub mod plan;
pub mod text;

pub use edits::{apply_edits, Edit};
pub use engine::{process, regop};
pub use errors::{ErrorKind, RegopError};
pub use ints::{format_int, parse_int};
pub use ops::{Operation, Operator, Param};
pub use pattern::{Capture, Span};
pub use plan::{collect_captures_as_values, collect_value_captures, edit, CaptureTable};

verus! {

/// Distance between two half-open intervals `[start_a, end_a)` and
/// `[start_b, end_b)`: the gap between them when they do not overlap,
/// `None` when they do.  Touching intervals (`end_a == start_b`) have
/// distance zero and do not count as overlapping.
pub open spec fn spec_distance(
    start_a: int,
    end_a: int,
    start_b: int,
    end_b: int,
) -> Option<int> {
    if end_a <= start_b {
        Some(start_b - end_a)
    } else if end_b <= start_a {
        Some(start_a - end_b)
    } else {
        None
    }
}

/// Distance between the half-open ranges `[start_a, end_a)` and
/// `[start_b, end_b)`, or `None` when they overlap.
pub fn distance(start_a: usize, end_a: usize, start_b: usize, end_b: usize) -> (r: Option<usize>)
    ensures
        r == match spec_distance(start_a as int, end_a as int, start_b as int, end_b as int) {
            Some(d) => Some(d as usize),
            None => None::<usize>,
        },
{
    if end_a <= start_b {
        Some(start_b - end_a)
    } else if end_b <= start_a {
        Some(start_a - end_b)
    } else {
        None
    }
}

} // verus!
