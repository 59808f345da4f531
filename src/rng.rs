//! Randomness from rand's standard generator.

use crate::builder::TaskWithId;
use rand::seq::SliceRandom;
use rand::{Rng, SeedableRng};
use vstd::prelude::*;

verus! {

/// rand's standard generator.
#[verifier::external_type_specification]
#[verifier::external_body]
pub struct ExStdRng(rand::rngs::StdRng);

/// Relies on rand's `SeedableRng::seed_from_u64`: a generator whose output the seed fixes.
#[verifier::external_body]
pub(crate) fn seeded_rng(seed: u64) -> rand::rngs::StdRng {
    rand::rngs::StdRng::seed_from_u64(seed)
}

/// Relies on rand's `SeedableRng::from_entropy`: a generator seeded by the operating system.
#[verifier::external_body]
pub(crate) fn entropy_rng() -> rand::rngs::StdRng {
    rand::rngs::StdRng::from_entropy()
}

/// Relies on rand's `Rng::gen_range`, which panics on an empty range: a value below `bound`.
#[verifier::external_body]
pub(crate) fn random_below(rng: &mut rand::rngs::StdRng, bound: usize) -> (r: usize)
    requires
        bound > 0,
    ensures
        r < bound,
{
    rng.gen_range(0..bound)
}

/// Relies on rand's `SliceRandom::shuffle`: the same tasks, in an order that the generator picks.
#[verifier::external_body]
pub(crate) fn shuffle_tasks(rng: &mut rand::rngs::StdRng, tasks: &mut Vec<TaskWithId>)
    ensures
        final(tasks)@.to_multiset() == old(tasks)@.to_multiset(),
{
    tasks.shuffle(rng);
}

} // verus!
