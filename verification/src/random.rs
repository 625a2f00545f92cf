//! Random draws for laying mines.

use vstd::prelude::*;
use rand::Rng;

verus! {

/// Draws a number below `range` from the thread's generator: a call of
/// `rand::Rng::gen_range` on `rand::thread_rng()` with the half-open range
/// `0..range`.
///
/// Trusted, not proved: `gen_range` returns a value inside the range it is
/// given. It panics on an empty range, which the precondition rules out;
/// `thread_rng` panics if the system has no randomness to seed it with.
/// Which value comes back is left open, so nothing else is claimed.
#[verifier::external_body]
fn rand_below(range: usize) -> (n: usize)
    requires
        range > 0,
    ensures
        n < range,
{
    rand::thread_rng().gen_range(0..range)
}

/// Draws a row and a column, each below `range`.
pub(crate) fn rand_coord(range: &usize) -> (coord: (usize, usize))
    requires
        *range > 0,
    ensures
        coord.0 < *range,
        coord.1 < *range,
{
    let row = rand_below(*range);
    let col = rand_below(*range);
    (row, col)
}

} // verus!
