//! Trusted access to the process random number generator.
//!
//! Nothing is promised about which value comes back — two draws on equal
//! state may differ — so callers state what holds of every outcome.

use vstd::prelude::*;

use rand::Rng;

verus! {

#[verifier::external_type_specification]
#[verifier::external_body]
pub struct ExThreadRng(rand::rngs::ThreadRng);

/// Relies on rand::rng: a handle to the thread-local generator.
#[verifier::external_body]
pub fn fresh_rng() -> rand::rngs::ThreadRng {
    rand::rng()
}

/// Relies on rand::Rng::random_range: a draw from `0..n`, in range for
/// every outcome; it panics only on an empty range, which `n >= 1` rules
/// out.
#[verifier::external_body]
pub fn rand_below(rng: &mut rand::rngs::ThreadRng, n: usize) -> (r: usize)
    requires
        n >= 1,
    ensures
        r < n,
{
    rng.random_range(0..n)
}

/// Relies on rand::Rng::random_ratio: a fair coin; the ratio 1/2 is
/// always accepted.
#[verifier::external_body]
pub fn coin_flip(rng: &mut rand::rngs::ThreadRng) -> bool {
    rng.random_ratio(1, 2)
}

} // verus!
