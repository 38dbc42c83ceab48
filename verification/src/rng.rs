use vstd::prelude::*;
use rand::rngs::StdRng;
use rand::Rng;
use rand::SeedableRng;
use rand::prelude::SliceRandom;

verus! {

/// Random-number-generator state. It is threaded explicitly through every
/// operation that shuffles, so that a whole generation run can be reproduced
/// from a seed.
#[verifier::external_type_specification]
#[verifier::external_body]
pub struct ExStdRng(StdRng);

/// Relies on rand's `SeedableRng::seed_from_u64`: builds a generator whose
/// output is a function of the seed alone.
#[verifier::external_body]
pub(crate) fn rng_from_seed(seed: u64) -> (r: StdRng) {
    StdRng::seed_from_u64(seed)
}

/// Relies on rand's `StdRng::from_entropy`: builds a generator seeded from
/// operating-system entropy. Nothing is promised of its output.
#[verifier::external_body]
pub(crate) fn rng_from_entropy() -> (r: StdRng) {
    StdRng::from_entropy()
}

/// Relies on rand's `Rng::gen`: draws one machine word, used to seed a
/// derived generator. Nothing is promised of the value drawn.
#[verifier::external_body]
pub(crate) fn next_seed(rng: &mut StdRng) -> (r: u64) {
    rng.gen()
}

/// Relies on rand's `SliceRandom::shuffle`: permutes the elements in place,
/// so the multiset of elements is unchanged, whatever order came out.
#[verifier::external_body]
pub(crate) fn shuffle<T>(v: &mut Vec<T>, rng: &mut StdRng)
    ensures
        final(v)@.to_multiset() == old(v)@.to_multiset(),
{
    v.shuffle(rng);
}

} // verus!
