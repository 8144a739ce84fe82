//! The two random draws the board makes, behind contracts that state what
//! holds of every outcome. Nothing here is proved: both functions hand the
//! work to the `rand` crate.

use rand::Rng;
use vstd::prelude::*;

verus! {

/// Calls `rand::Rng::gen_range` on the calling thread's generator
/// (`rand::thread_rng`) with the half-open range `0..bound`.
///
/// Believed of it: the number drawn lies in that range. The call panics on an
/// empty range, which `requires` leaves out.
#[verifier::external_body]
pub(crate) fn random_below(bound: i32) -> (r: i32)
    requires
        bound > 0,
    ensures
        0 <= r < bound,
{
    rand::thread_rng().gen_range(0..bound)
}

/// Calls `rand::Rng::gen_ratio` on the calling thread's generator
/// (`rand::thread_rng`): `true` with a chance of `numerator` in `denominator`.
///
/// Believed of it: a chance of one is always `true`, a chance of zero always
/// `false`; in between nothing is known of the result. The call panics on a
/// zero denominator and on a numerator above the denominator, which `requires`
/// leaves out.
#[verifier::external_body]
pub(crate) fn random_ratio(numerator: u32, denominator: u32) -> (r: bool)
    requires
        0 < denominator,
        numerator <= denominator,
    ensures
        numerator == denominator ==> r,
        numerator == 0 ==> !r,
{
    rand::thread_rng().gen_ratio(numerator, denominator)
}

} // verus!
