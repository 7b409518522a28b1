//! The randomness source for die rolls, taken from the `rand` crate.
use vstd::prelude::*;

use rand::Rng;

verus! {

#[verifier::external_type_specification]
#[verifier::external_body]
pub struct ExThreadRng(rand::rngs::ThreadRng);

/// Relies on `rand::thread_rng`: a handle to the thread-local generator.
/// Nothing is assumed of the values it will produce.
#[verifier::external_body]
pub fn fresh_rng() -> rand::rngs::ThreadRng {
    rand::thread_rng()
}

/// Relies on `rand::Rng::gen_range` over the inclusive range `1..=sides`:
/// it panics on an empty range (hence the precondition) and otherwise
/// returns a value within the range.  Which value comes back is random, so
/// nothing more is assumed.
#[verifier::external_body]
pub fn roll_die_once(rng: &mut rand::rngs::ThreadRng, sides: i64) -> (r: i64)
    requires
        sides >= 1,
    ensures
        1 <= r <= sides,
{
    rng.gen_range(1..=sides)
}

} // verus!
