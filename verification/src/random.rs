//! The one source of chance: the thread-local generator of the `rand` crate.

use rand::Rng;
use vstd::prelude::*;

verus! {

/// Draws a number below `bound`: `rand::thread_rng()`, then
/// `Rng::gen_range(0..bound)` on it.
///
/// Not proved. `gen_range` panics on an empty range, which `requires` leaves
/// out, and returns a value of the half-open range it is given. Which value
/// comes back is left open: two calls with one bound may differ. The
/// generator is seeded by the operating system on a thread's first call,
/// and panics there if the system gives it no seed.
#[verifier::external_body]
pub(crate) fn random_below(bound: usize) -> (drawn: usize)
    requires
        bound > 0,
    ensures
        drawn < bound,
{
    rand::thread_rng().gen_range(0..bound)
}

} // verus!
