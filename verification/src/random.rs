//! The random source: the thread-local generator of the `rand` crate.
//!
//! Nothing here is proved. Each item states what `rand` documents of the
//! function it stands for, and the policies are verified for every value
//! that these functions may hand back.

use rand::Rng;
use vstd::prelude::*;

verus! {

/// `rand::ThreadRng`, the handle on the random number generator of the
/// current thread. Nothing is known of what it holds.
#[verifier::external_type_specification]
#[verifier::external_body]
pub struct ExThreadRng(rand::ThreadRng);

/// `rand::thread_rng`: the generator of the current thread, seeded by the
/// system. Nothing is claimed of the generator that comes back. `thread_rng`
/// panics on a system that has no entropy to seed it with.
pub assume_specification[ rand::thread_rng ]() -> (rng: rand::ThreadRng)
;

/// `Rng::gen_range` of `rand`, drawing an `i32`: some value in the range from
/// `low` to `high`, `low` included and `high` not. Which value is not known.
/// `gen_range` panics unless `low < high`.
#[verifier::external_body]
pub(crate) fn sample_between(rng: &mut rand::ThreadRng, low: i32, high: i32) -> (value: i32)
    requires
        low < high,
    ensures
        low <= value < high,
{
    rng.gen_range(low, high)
}

/// `Rng::gen_range` of `rand`, drawing a `usize` from zero: some index below
/// `bound`. Which index is not known. `gen_range` panics unless `0 < bound`.
#[verifier::external_body]
pub(crate) fn sample_index(rng: &mut rand::ThreadRng, bound: usize) -> (index: usize)
    requires
        0 < bound,
    ensures
        index < bound,
{
    rng.gen_range(0, bound)
}

} // verus!
