//! The random sources the shuffle draws from, provided by `rand`.
use vstd::prelude::*;
use rand::rngs::SmallRng;
use rand::{Rng, SeedableRng};

verus! {

#[verifier::external_type_specification]
#[verifier::external_body]
pub struct ExSmallRng(SmallRng);

/// Relies on `Rng::gen_range` on `SmallRng`: a value drawn from `lo..hi`,
/// which panics only on an empty range.
#[verifier::external_body]
pub(crate) fn gen_index(rng: &mut SmallRng, lo: usize, hi: usize) -> (r: usize)
    requires
        lo < hi,
    ensures
        lo <= r < hi,
{
    rng.gen_range(lo..hi)
}

/// Relies on `SeedableRng::from_seed` for `SmallRng`: a generator started from `seed`.
#[verifier::external_body]
pub(crate) fn seeded_rng(seed: [u8; 32]) -> (r: SmallRng) {
    SmallRng::from_seed(seed)
}

/// Relies on `Rng::fill` on `SmallRng`: 32 bytes drawn from `rng`.
#[verifier::external_body]
pub(crate) fn next_seed(rng: &mut SmallRng) -> (r: [u8; 32]) {
    let mut seed = [0u8; 32];
    rng.fill(&mut seed);
    seed
}

/// Relies on `SeedableRng::from_rng` with `rand::thread_rng`: a small generator
/// seeded from the thread-local one. Filling bytes from `ThreadRng` never fails,
/// so the `unwrap` does not panic; `thread_rng` itself panics only when the
/// operating system's generator cannot seed it on first use.
#[verifier::external_body]
pub(crate) fn default_rng() -> (r: SmallRng) {
    SmallRng::from_rng(&mut rand::thread_rng()).unwrap()
}

} // verus!
