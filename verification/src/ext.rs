use vstd::prelude::*;
use rand::seq::SliceRandom;
use std::time::{Duration, Instant};
use crate::shape::Shape;

verus! {

/// `std::time::Instant`, carried through the game as an opaque timestamp.
#[verifier::external_type_specification]
#[verifier::external_body]
pub struct ExInstant(Instant);

/// Calls `Instant::now`. The clock is outside the library: nothing is promised of
/// the moment returned.
#[verifier::external_body]
pub(crate) fn instant_now() -> Instant {
    Instant::now()
}

/// Calls `Instant::duration_since`. The result depends on the clock readings: nothing
/// is promised of it.
#[verifier::external_body]
pub(crate) fn duration_since(later: &Instant, earlier: &Instant) -> Duration {
    later.duration_since(*earlier)
}

/// Calls `Instant::elapsed`. The result depends on the clock: nothing is promised of it.
#[verifier::external_body]
pub(crate) fn elapsed(since: &Instant) -> Duration {
    since.elapsed()
}

/// Calls `Duration::as_millis`. `Duration` is opaque here, so nothing is promised of the
/// number of whole milliseconds returned.
#[verifier::external_body]
pub(crate) fn whole_millis(d: &Duration) -> u128 {
    d.as_millis()
}

/// The decimal digits of `n`, most significant first, without leading zeros.
pub open spec fn decimal(n: nat) -> Seq<char>
    decreases n,
{
    if n < 10 {
        seq![(48 + n) as char]
    } else {
        decimal(n / 10).push((48 + n % 10) as char)
    }
}

/// Calls `ToString::to_string` on a `u32`. `Display` for `u32` writes the number in
/// decimal without leading zeros (a single `0` for zero).
#[verifier::external_body]
pub(crate) fn decimal_text(n: u32) -> (s: String)
    ensures
        s@ == decimal(n as nat),
{
    n.to_string()
}

/// Calls rand's `SliceRandom::shuffle` with `rand::thread_rng()`. rand's source shuffles
/// in place by swapping elements, so the result holds the same shapes as the input; which
/// order comes out is chance. (`thread_rng` panics if the operating system cannot seed it.)
#[verifier::external_body]
pub(crate) fn shuffle_shapes(v: &mut Vec<Shape>)
    ensures
        final(v)@.len() == old(v)@.len(),
        final(v)@.to_multiset() == old(v)@.to_multiset(),
{
    v.shuffle(&mut rand::thread_rng());
}

} // verus!
