//! The randomness used for mine placement, drawn from the rand crate.

use vstd::prelude::*;

use rand::Rng;

verus! {

/// Relies on rand::rngs::ThreadRng: the handle to the thread-local random
/// generator. Opaque here; nothing is assumed of the values it produces
/// beyond what each drawing function states.
#[verifier::external_type_specification]
#[verifier::external_body]
pub struct ExThreadRng(rand::rngs::ThreadRng);

/// Relies on rand::thread_rng: hands out the thread-local generator.
#[verifier::external_body]
pub(crate) fn new_rng() -> rand::rngs::ThreadRng {
    rand::thread_rng()
}

/// Relies on rand::Rng::gen_range over `0..bound`: returns a value drawn
/// from that range, so below `bound`, and panics only when the range is
/// empty. Nothing is assumed about which value comes back.
#[verifier::external_body]
pub(crate) fn gen_index(rng: &mut rand::rngs::ThreadRng, bound: usize) -> (r: usize)
    requires
        bound >= 1,
    ensures
        r < bound,
{
    rng.gen_range(0..bound)
}

} // verus!
