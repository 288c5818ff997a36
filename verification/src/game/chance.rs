//! The random source a run draws from, and the few draws the game makes.
//!
//! Everything here calls into `rand`. What is stated of each draw holds of
//! every outcome; which outcome comes depends on the generator's state.

use rand::rngs::StdRng;
use rand::seq::IndexedRandom;
use rand::{RngExt, SeedableRng};
use vstd::prelude::*;

verus! {

/// `rand`'s standard generator, carried through the game as an opaque value.
#[verifier::external_type_specification]
#[verifier::external_body]
pub struct ExStdRng(StdRng);

/// `StdRng::seed_from_u64`: a generator whose whole sequence is fixed by
/// `seed`. Nothing is stated of the generator, which is opaque here.
#[verifier::external_body]
pub fn seeded(seed: u64) -> (rng: StdRng) {
    StdRng::seed_from_u64(seed)
}

/// `rand::random`: a fresh seed from the thread-local generator, which the
/// system seeds. Nothing is stated of the value.
#[verifier::external_body]
pub fn random_seed() -> (seed: u64) {
    rand::random()
}

/// `RngExt::random_range` over `lo..=hi`: some value in that range. The
/// call panics on an empty range, which `requires` rules out.
#[verifier::external_body]
pub fn random_inclusive(rng: &mut StdRng, lo: usize, hi: usize) -> (r: usize)
    requires
        lo <= hi,
    ensures
        lo <= r <= hi,
{
    rng.random_range(lo..=hi)
}

/// `RngExt::random_range` over `lo..hi`: some value in that range. The call
/// panics on an empty range, which `requires` rules out.
#[verifier::external_body]
pub fn random_below(rng: &mut StdRng, lo: i32, hi: i32) -> (r: i32)
    requires
        lo < hi,
    ensures
        lo <= r < hi,
{
    rng.random_range(lo..hi)
}

/// `IndexedRandom::choose` on `items`: `None` exactly when `items` is
/// empty, else one of its elements.
#[verifier::external_body]
pub fn choose_one(rng: &mut StdRng, items: &Vec<usize>) -> (r: Option<usize>)
    ensures
        r is None <==> items@.len() == 0,
        r is Some ==> items@.contains(r->0),
{
    items.choose(rng).copied()
}

/// `IndexedRandom::sample` on `items`: `min(amount, len)` elements of
/// `items` drawn at distinct positions, so that distinct items give
/// distinct results. Their order is left open.
#[verifier::external_body]
pub fn sample_some(rng: &mut StdRng, items: &Vec<usize>, amount: usize) -> (r: Vec<usize>)
    ensures
        r@.len() == (if amount < items@.len() {
            amount as nat
        } else {
            items@.len()
        }),
        forall|i: int| 0 <= i < r@.len() ==> items@.contains(#[trigger] r@[i]),
        items@.no_duplicates() ==> r@.no_duplicates(),
{
    items.sample(rng, amount).copied().collect()
}

} // verus!
