use vstd::prelude::*;
use rand::Rng;
use rand::SeedableRng;
use rand::rngs::SmallRng;

verus! {

#[verifier::external_type_specification]
#[verifier::external_body]
pub struct ExSmallRng(SmallRng);

/// Relies on rand's SeedableRng::from_entropy: a fresh small generator seeded
/// from the operating system's entropy source.
#[verifier::external_body]
pub(crate) fn fresh_small_rng() -> SmallRng {
    SmallRng::from_entropy()
}

/// Relies on rand's Rng::gen_range on the integer range 0..n: a uniform draw
/// strictly below n. The call panics on an empty range, so n must be positive.
#[verifier::external_body]
pub(crate) fn rng_below(rng: &mut SmallRng, n: usize) -> (r: usize)
    requires
        n >= 1,
    ensures
        r < n,
{
    rng.gen_range(0..n)
}

} // verus!
