//! The random draws of the algorithm, taken from the thread-local generator of `rand`.
use rand::distributions::Distribution;
use rand::distributions::Uniform;
use rand::seq::SliceRandom;
use rand::Rng;
use vstd::prelude::*;

verus! {

/// Relies on `rand::distributions::Uniform::new(0, n)` sampled with `rand::thread_rng()`:
/// a value of the half-open range `[0, n)`; `Uniform::new` panics when the range is empty.
#[verifier::external_body]
pub(crate) fn random_index(n: usize) -> (r: usize)
    requires
        n > 0,
    ensures
        r < n,
{
    Uniform::new(0, n).sample(&mut rand::thread_rng())
}

/// Relies on `rand::Rng::gen_ratio` with `rand::thread_rng()`: `true` with probability
/// `numerator / denominator`, never when `numerator == 0`, always when
/// `numerator == denominator`; it panics when `denominator == 0` or `numerator > denominator`.
#[verifier::external_body]
pub(crate) fn random_ratio(numerator: u32, denominator: u32) -> (r: bool)
    requires
        0 < denominator,
        numerator <= denominator,
    ensures
        numerator == 0 ==> !r,
        numerator == denominator ==> r,
{
    rand::thread_rng().gen_ratio(numerator, denominator)
}

/// Relies on `rand::seq::SliceRandom::shuffle` with `rand::thread_rng()`: it reorders the
/// slice by swaps, so the same values stay, as often as before.
#[verifier::external_body]
pub(crate) fn shuffle(v: &mut Vec<usize>)
    ensures
        final(v)@.to_multiset() == old(v)@.to_multiset(),
{
    v.shuffle(&mut rand::thread_rng())
}

} // verus!
