//! The generator of random numbers the simulation draws on.

use vstd::prelude::*;
use rand::Rng;

verus! {

/// `rand::rngs::ThreadRng`, the generator local to the calling thread. Nothing
/// is known of its state.
#[verifier::external_type_specification]
#[verifier::external_body]
pub struct ExThreadRng(rand::rngs::ThreadRng);

/// `rand::thread_rng` hands out the calling thread's generator, seeded by the
/// system. Nothing is claimed of it.
pub assume_specification[ rand::thread_rng ]() -> (rng: rand::rngs::ThreadRng)
;

/// Calls `Rng::gen_range` with the half-open range `low..high`. The range must
/// not be empty, since the call panics on an empty range; the number drawn
/// lies in the range. Which number it is depends on the generator's state, and
/// nothing more is claimed.
#[verifier::external_body]
pub(crate) fn gen_range(rng: &mut rand::rngs::ThreadRng, low: i32, high: i32) -> (r: i32)
    requires
        low < high,
    ensures
        low <= r < high,
{
    rng.gen_range(low..high)
}

} // verus!
