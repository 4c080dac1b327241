//! Randomness for probe-target selection, delegated to the `rand` crate.

use vstd::prelude::*;

verus! {

#[verifier::external_type_specification]
#[verifier::external_body]
pub struct ExThreadRng(rand::rngs::ThreadRng);

/// Relies on rand::thread_rng: a handle to the thread-local generator.
/// Nothing is assumed about the numbers it will produce.
#[verifier::external_body]
pub(crate) fn fresh_rng() -> rand::rngs::ThreadRng {
    rand::thread_rng()
}

/// Relies on rand::seq::index::sample: it returns exactly `amount` distinct
/// indices drawn from `0..length`, in random order, and panics only when
/// `amount > length`, which the precondition rules out. Which indices come
/// back is not assumed.
#[verifier::external_body]
pub(crate) fn sample_indices(rng: &mut rand::rngs::ThreadRng, length: usize, amount: usize) -> (r:
    Vec<usize>)
    requires
        amount <= length,
    ensures
        r@.len() == amount,
        forall|t: int| 0 <= t < r@.len() ==> r@[t] < length,
        forall|a: int, b: int| 0 <= a < b < r@.len() ==> r@[a] != r@[b],
{
    rand::seq::index::sample(rng, length, amount).into_vec()
}

} // verus!
