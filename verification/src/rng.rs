//! The engine's source of randomness: a seeded `StdRng` from the rand
//! crate, held behind trusted wrappers. The seed is explicit so that a
//! run is reproducible; nothing is promised of the drawn values beyond
//! what rand documents of every outcome.

use vstd::prelude::*;
use rand::rngs::StdRng;

verus! {

#[verifier::external_type_specification]
#[verifier::external_body]
pub struct ExStdRng(StdRng);

/// Relies on rand's `SeedableRng::seed_from_u64`: builds a deterministic
/// generator from the seed.
#[verifier::external_body]
pub(crate) fn rng_from_seed(seed: u64) -> StdRng {
    <StdRng as rand::SeedableRng>::seed_from_u64(seed)
}

/// Relies on rand's `Rng::random_range` over `0..n`: a value below `n`.
/// It panics only on an empty range, which the precondition rules out.
#[verifier::external_body]
pub(crate) fn rand_below(rng: &mut StdRng, n: usize) -> (r: usize)
    requires
        n >= 1,
    ensures
        r < n,
{
    rand::Rng::random_range(rng, 0..n)
}

/// Relies on rand's `Rng::random_ratio`: a draw that is true with
/// probability `num/den`, always true when `num == den` and always false
/// when `num == 0`. It panics when `den` is zero or `num > den`, which
/// the precondition rules out.
#[verifier::external_body]
pub(crate) fn rand_ratio(rng: &mut StdRng, num: u32, den: u32) -> (r: bool)
    requires
        1 <= den,
        num <= den,
    ensures
        num == den ==> r,
        num == 0 ==> !r,
{
    rand::Rng::random_ratio(rng, num, den)
}

/// Relies on rand's `SliceRandom::shuffle`: reorders the elements in
/// place, keeping exactly the same multiset of entries.
#[verifier::external_body]
pub(crate) fn shuffle_usizes(rng: &mut StdRng, v: &mut Vec<usize>)
    ensures
        final(v)@.to_multiset() == old(v)@.to_multiset(),
        final(v)@.len() == old(v)@.len(),
{
    rand::seq::SliceRandom::shuffle(v.as_mut_slice(), rng)
}

} // verus!
