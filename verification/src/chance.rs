//! The source of randomness that the selection routines draw from.
use rand::rngs::ThreadRng;
use rand::Rng;
use vstd::prelude::*;

verus! {

/// `rand::rngs::ThreadRng`, the generator that `rand::thread_rng` hands out.
/// It is carried to [`draw_below`] and nothing is known of what is inside.
#[verifier::external_type_specification]
#[verifier::external_body]
pub struct ExThreadRng(ThreadRng);

/// Draws an index below `bound`.
///
/// Calls `rand::Rng::gen_range(0, bound)` on the thread-local generator. That
/// function returns a value in the half-open range `[0, bound)` and panics when
/// the range is empty, hence the precondition. Which value comes back is
/// random, so nothing more is claimed of it.
#[verifier::external_body]
pub(crate) fn draw_below(rng: &mut ThreadRng, bound: usize) -> (index: usize)
    requires
        0 < bound,
    ensures
        index < bound,
{
    rng.gen_range(0, bound)
}

} // verus!
