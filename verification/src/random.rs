use rand::rngs::ThreadRng;
use rand::{Rng, RngCore};
use vstd::prelude::*;

verus! {

/// The thread-local random number generator of `rand`, carried through as an opaque value.
#[verifier::external_type_specification]
#[verifier::external_body]
pub struct ExThreadRng(ThreadRng);

/// Draws a word from `RngCore::next_u64` of the thread-local generator.
/// The word is random: any `u64` may come back, so nothing is stated of it.
///
/// This call may unwind instead of returning: the generator reseeds itself from the
/// operating system's entropy source every 64 KiB of output and after a fork, and it
/// panics when that source fails. `rand` offers no fallible path for this generator
/// (its `try_fill_bytes` goes through the same reseeding), so the failure is not turned
/// into an error; the contract speaks only of a call that returns.
#[verifier::external_body]
pub fn next_u64(rng: &mut ThreadRng) -> u64 {
    rng.next_u64()
}

/// Draws a word from `Rng::gen::<u64>()` (the `Standard` distribution) of the
/// thread-local generator. The word is random: nothing is stated of it.
///
/// `gen::<u64>()` calls `next_u64`, so this call may unwind in the same way, when the
/// operating system's entropy source fails while the generator reseeds.
#[verifier::external_body]
pub fn gen_u64(rng: &mut ThreadRng) -> u64 {
    rng.gen::<u64>()
}

} // verus!
