//! The engine's source of randomness: rand's thread-local generator.
//!
//! The engine only ever needs one primitive from it, an index drawn
//! below a bound; every contract downstream holds whatever index comes
//! back.

use vstd::prelude::*;

verus! {

/// Relies on rand::rngs::ThreadRng: the thread-local generator's
/// handle, carried opaquely through the search.
#[verifier::external_type_specification]
#[verifier::external_body]
pub struct ExThreadRng(rand::rngs::ThreadRng);

/// Relies on rand::thread_rng: hands out the thread-local generator.
/// Nothing is assumed about the values it will produce.
#[verifier::external_body]
pub(crate) fn new_rng() -> rand::rngs::ThreadRng {
    rand::thread_rng()
}

/// Relies on rand's Rng::gen_range over the range 0..bound: for a
/// non-empty range it neither panics nor returns a value outside the
/// range.  Which value comes back is left open.
#[verifier::external_body]
pub(crate) fn random_below(rng: &mut rand::rngs::ThreadRng, bound: usize) -> (r: usize)
    requires
        bound >= 1,
    ensures
        r < bound,
{
    rand::Rng::gen_range(rng, 0..bound)
}

} // verus!
