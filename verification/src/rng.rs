use vstd::prelude::*;

use rand::Rng;

verus! {

/// A uniformly drawn index below `n`, from `rand::Rng::gen_range(0..n)` on the thread-local
/// generator (`rand::thread_rng`). The outcome is random: the contract states only that it
/// lies in the range, which `gen_range` guarantees; `gen_range` panics on an empty range,
/// so `n` must be positive.
#[verifier::external_body]
pub(crate) fn random_below(n: usize) -> (r: usize)
    requires
        n > 0,
    ensures
        r < n,
{
    rand::thread_rng().gen_range(0..n)
}

/// A random boolean that is `true` with probability `numerator / denominator`, from
/// `rand::Rng::gen_ratio` on the thread-local generator. Its documentation guarantees
/// `false` when the numerator is 0 and `true` when it equals the denominator, and a panic
/// when the denominator is 0 or below the numerator; nothing else is stated of the outcome.
#[verifier::external_body]
pub(crate) fn random_ratio(numerator: u32, denominator: u32) -> (r: bool)
    requires
        0 < denominator,
        numerator <= denominator,
    ensures
        numerator == 0 ==> !r,
        numerator == denominator ==> r,
{
    rand::thread_rng().gen_ratio(numerator, denominator)
}

/// A random integer in `lo..=hi` (uniform, drawn through `random_below`).
pub fn random_i32_inclusive(lo: i32, hi: i32) -> (r: i32)
    requires
        lo <= hi,
        hi - lo < usize::MAX,
    ensures
        lo <= r <= hi,
{
    let span: i64 = hi as i64 - lo as i64 + 1;
    let k = random_below(span as usize);
    (lo as i64 + k as i64) as i32
}

/// A random integer in `lo..=hi` (uniform, drawn through `random_below`).
pub fn random_u32_inclusive(lo: u32, hi: u32) -> (r: u32)
    requires
        lo <= hi,
        hi - lo < usize::MAX,
    ensures
        lo <= r <= hi,
{
    let span: u64 = hi as u64 - lo as u64 + 1;
    let k = random_below(span as usize);
    (lo as u64 + k as u64) as u32
}

/// A random integer in `lo..hi` (uniform, drawn through `random_below`).
pub fn random_usize_in(lo: usize, hi: usize) -> (r: usize)
    requires
        lo < hi,
    ensures
        lo <= r < hi,
{
    lo + random_below(hi - lo)
}

} // verus!
