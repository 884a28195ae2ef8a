use vstd::prelude::*;
use rand::rngs::{OsRng, StdRng};
use rand::{RngCore, SeedableRng};

verus! {

#[verifier::external_type_specification]
#[verifier::external_body]
pub struct ExStdRng(StdRng);

/// The first `n` outputs of rand's `StdRng` seeded with `seed`: the generator that
/// `StdRng::from_seed` makes, then `RngCore::next_u64` called `n` times. In the rand version
/// used, `StdRng` is ChaCha with 12 rounds, a deterministic generator: the stream depends
/// on the seed alone.
pub uninterp spec fn seeded_u64s(seed: Seq<u8>, n: nat) -> Seq<u64>;

/// `StdRng::from_seed` of rand, then `RngCore::next_u64` `n` times: the first `n` outputs of
/// the generator the seed fixes, in order. Claimed: `n` values, which are `seeded_u64s` of
/// the seed; nothing is said of the values themselves.
#[verifier::external_body]
pub(crate) fn rng_take(seed: [u8; 32], n: usize) -> (r: Vec<u64>)
    ensures
        r@ == seeded_u64s(seed@, n as nat),
        r@.len() == n,
{
    let mut rng = StdRng::from_seed(seed);
    (0..n).map(|_| rng.next_u64()).collect()
}

/// `SeedableRng::from_rng` of rand with `OsRng`: a generator seeded from the operating
/// system's randomness, or `None` where that source fails (rand returns its error then,
/// without panicking). Nothing is stated of the generator.
#[verifier::external_body]
pub(crate) fn rng_from_os() -> Option<StdRng> {
    StdRng::from_rng(OsRng).ok()
}

/// `RngCore::next_u64` of rand on a `StdRng`: the generator's next 64-bit output.
/// Nothing is stated of the value, which depends on the generator's hidden state.
#[verifier::external_body]
pub(crate) fn rng_next_u64(rng: &mut StdRng) -> u64 {
    rng.next_u64()
}

} // verus!
