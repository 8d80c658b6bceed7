use vstd::prelude::*;

verus! {

/// Calls `rand::Rng::gen_ratio` on the thread-local generator: `true` with
/// probability `numerator / denominator`. As rand's source shows, a zero
/// numerator never hits and a numerator equal to the denominator always does;
/// it panics on a zero denominator or a numerator above it, which `requires`
/// rules out. Which value comes back otherwise is left unsaid: it is random.
#[verifier::external_body]
pub(crate) fn random_ratio(numerator: u32, denominator: u32) -> (hit: bool)
    requires
        0 < denominator,
        numerator <= denominator,
    ensures
        numerator == 0 ==> !hit,
        numerator == denominator ==> hit,
{
    rand::Rng::gen_ratio(&mut rand::thread_rng(), numerator, denominator)
}

/// Calls `rand::Rng::gen_range(0..len)` on the thread-local generator: a
/// uniformly drawn index below `len`. It panics on an empty range, which
/// `requires` rules out; which index comes back is left unsaid: it is random.
#[verifier::external_body]
pub(crate) fn random_index(len: usize) -> (i: usize)
    requires
        0 < len,
    ensures
        i < len,
{
    rand::Rng::gen_range(&mut rand::thread_rng(), 0..len)
}

} // verus!
