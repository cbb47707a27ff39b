use rand::rngs::ThreadRng;
use rand::seq::SliceRandom;
use rand::Rng;
use vstd::prelude::*;

verus! {

/// The thread-local random generator of `rand`; opaque here.
#[verifier::external_type_specification]
#[verifier::external_body]
pub struct ExThreadRng(rand::rngs::ThreadRng);

/// `rand::thread_rng` hands out the thread-local generator; nothing is stated of it.
pub assume_specification[ rand::thread_rng ]() -> ThreadRng;

/// `SliceRandom::shuffle` on a vector: its source (rand 0.7.3) swaps entries pairwise from the
/// back (Fisher–Yates), so the result holds the same entries, each as often; their order is left
/// to chance and not stated.
#[verifier::external_body]
pub(crate) fn shuffle_vec<T>(v: &mut Vec<T>, rng: &mut ThreadRng)
    ensures
        final(v)@.to_multiset() == old(v)@.to_multiset(),
{
    v.shuffle(rng);
}

/// `Rng::gen_range` on `usize`: a number drawn from `low` up to, not including, `high` (rand
/// 0.7.3 panics when `low >= high`, which `requires` rules out). Which one is left to chance.
#[verifier::external_body]
pub(crate) fn random_below(rng: &mut ThreadRng, low: usize, high: usize) -> (r: usize)
    requires
        low < high,
    ensures
        low <= r < high,
{
    rng.gen_range(low, high)
}

/// `Rng::gen::<bool>`: a random bit; nothing is stated of it.
#[verifier::external_body]
pub(crate) fn random_bool(rng: &mut ThreadRng) -> bool {
    rng.gen()
}

} // verus!
