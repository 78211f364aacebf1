//! The random-number calls the generators make, each behind a trusted
//! wrapper whose contract says only what holds of every outcome.

use rand::rngs::StdRng;
use vstd::prelude::*;

verus! {

#[verifier::external_type_specification]
#[verifier::external_body]
pub struct ExStdRng(StdRng);

/// The generator that `StdRng::seed_from_u64` builds from `seed`. Seeding is
/// deterministic: the same seed gives the same generator, and so the same
/// sequence of draws.
pub uninterp spec fn seeded_generator(seed: u64) -> StdRng;

/// `rand::rngs::StdRng::seed_from_u64`: the generator seeded from `seed`,
/// named [`seeded_generator`]; what that generator draws is not stated.
#[verifier::external_body]
pub(crate) fn seeded_rng(seed: u64) -> (r: StdRng)
    ensures
        r == seeded_generator(seed),
{
    <StdRng as rand::SeedableRng>::seed_from_u64(seed)
}

/// `rand::random::<u64>()`: a `u64` drawn from the thread-local generator.
/// Every value is possible, so nothing is stated of it.
#[verifier::external_body]
pub(crate) fn fresh_seed() -> u64 {
    rand::random::<u64>()
}

/// `RngExt::random::<u64>` on a `StdRng`: any `u64`.
#[verifier::external_body]
pub(crate) fn random_u64(rng: &mut StdRng) -> u64 {
    rand::RngExt::random::<u64>(rng)
}

/// `RngExt::random_range` with the half-open range `lo..hi`: a value in the
/// range. It panics on an empty range, which `requires` rules out.
#[verifier::external_body]
pub(crate) fn random_below(rng: &mut StdRng, lo: usize, hi: usize) -> (r: usize)
    requires
        lo < hi,
    ensures
        lo <= r < hi,
{
    rand::RngExt::random_range(rng, lo..hi)
}

/// `RngExt::random_range` with the closed range `lo..=hi`: a value in the
/// range. It panics on an empty range, which `requires` rules out.
#[verifier::external_body]
pub(crate) fn random_between(rng: &mut StdRng, lo: usize, hi: usize) -> (r: usize)
    requires
        lo <= hi,
    ensures
        lo <= r <= hi,
{
    rand::RngExt::random_range(rng, lo..=hi)
}

/// `IteratorRandom::sample` on `0..n`: `min(amount, n)` distinct indices
/// below `n`, in an order the source leaves open.
#[verifier::external_body]
pub(crate) fn sample_indices(rng: &mut StdRng, n: usize, amount: usize) -> (r: Vec<usize>)
    ensures
        r@.len() == if amount <= n { amount } else { n },
        r@.no_duplicates(),
        forall|i: int| 0 <= i < r@.len() ==> #[trigger] r@[i] < n,
{
    rand::seq::IteratorRandom::sample(0..n, rng, amount)
}

/// `IndexedRandom::sample` on a slice, copied out: the elements at
/// `min(amount, len)` distinct positions of `items`.
#[verifier::external_body]
pub(crate) fn sample_items(rng: &mut StdRng, items: &[usize], amount: usize) -> (r: Vec<usize>)
    ensures
        r@.len() == if amount <= items@.len() { amount as int } else { items@.len() as int },
        exists|pos: Seq<int>|
            #![trigger pos.len()]
            pos.len() == r@.len() && pos.no_duplicates() && forall|i: int|
                0 <= i < pos.len() ==> 0 <= #[trigger] pos[i] < items@.len() && r@[i] == items@[pos[i]],
{
    rand::seq::IndexedRandom::sample(items, rng, amount).copied().collect()
}

/// `SliceRandom::shuffle`: the same elements in another order.
#[verifier::external_body]
pub(crate) fn shuffle(rng: &mut StdRng, v: &mut Vec<usize>)
    ensures
        final(v)@.to_multiset() == old(v)@.to_multiset(),
{
    rand::seq::SliceRandom::shuffle(v.as_mut_slice(), rng)
}

} // verus!
