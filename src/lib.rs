//! Exact, verified parsing and formatting of the numeric literals that describe orbits
//! (decimal numbers, SI-prefixed magnitudes, compound durations, distance units), and a generic
//! Newton-Raphson solver.

use vstd::prelude::*;

pub mod decimal;
pub mod distance;
pub mod duration;
pub mod text;
pub mod si_prefix;
pub mod solver;

verus! {

} // verus!
