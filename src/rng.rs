use vstd::prelude::*;
use rand::Rng;
use rand::SeedableRng;
use rand::seq::SliceRandom;
use rand_chacha::ChaCha8Rng;

verus! {

/// The seeded generator that every random choice of a run goes through.
#[verifier::external_type_specification]
#[verifier::external_body]
pub struct ExChaCha8Rng(ChaCha8Rng);

/// Relies on rand_core's `SeedableRng::seed_from_u64` for `ChaCha8Rng`.
#[verifier::external_body]
pub(crate) fn seeded(seed: u64) -> (r: ChaCha8Rng) {
    ChaCha8Rng::seed_from_u64(seed)
}

/// Relies on rand's `Rng::gen_range` over `lo..hi`: a value in the half-open
/// range, which must not be empty.
#[verifier::external_body]
pub(crate) fn random_in(rng: &mut ChaCha8Rng, lo: usize, hi: usize) -> (r: usize)
    requires
        lo < hi,
    ensures
        lo <= r < hi,
{
    rng.gen_range(lo..hi)
}

/// Relies on rand's `seq::index::sample`: `amount` distinct indices below
/// `length`, drawn without replacement.
#[verifier::external_body]
pub(crate) fn sample_indices(rng: &mut ChaCha8Rng, length: usize, amount: usize) -> (r: Vec<usize>)
    requires
        amount <= length,
    ensures
        r.len() == amount,
        forall|i: int| 0 <= i < r.len() ==> #[trigger] r[i] < length,
        forall|i: int, j: int| 0 <= i < j < r.len() ==> r[i] != r[j],
{
    rand::seq::index::sample(rng, length, amount).into_vec()
}

/// Relies on rand's `SliceRandom::shuffle`: the same items in some order.
#[verifier::external_body]
pub(crate) fn shuffle<T>(v: &mut Vec<T>, rng: &mut ChaCha8Rng)
    ensures
        final(v)@.to_multiset() == old(v)@.to_multiset(),
{
    v.shuffle(rng)
}

} // verus!
