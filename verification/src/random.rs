use vstd::prelude::*;

use rand::rngs::ThreadRng;
use rand::Rng;

verus! {

/// The generator that `rand::rng` hands out: its state is opaque here.
#[verifier::external_type_specification]
#[verifier::external_body]
pub struct ExThreadRng(ThreadRng);

/// `rand::rng()`: a handle to this thread's generator. Nothing is claimed of its
/// state.
#[verifier::external_body]
pub(crate) fn thread_rng() -> ThreadRng {
    rand::rng()
}

/// `Rng::random_range(0..bound)` drawn as a `u8`: a value below `bound` (the range
/// must not be empty, or `random_range` panics). Which value comes out is chance and
/// is not stated.
#[verifier::external_body]
pub(crate) fn random_below(rng: &mut ThreadRng, bound: u8) -> (r: u8)
    requires
        bound > 0,
    ensures
        r < bound,
{
    rng.random_range(0..bound)
}

} // verus!
