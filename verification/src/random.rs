//! The random draws the games make. Every item here is trusted: it calls
//! `fastrand` or `rand` and states only what holds of every outcome.

use rand::seq::{IndexedRandom, SliceRandom};
use rand::Rng;
use vstd::prelude::*;

verus! {

/// Calls `rand::Rng::random_range(0..n)` on the thread-local generator
/// `rand::rng()`. Claimed: the draw lies in `0..n`. The range must not be
/// empty (`random_range` panics on an empty range).
#[verifier::external_body]
pub(crate) fn rand_below(n: usize) -> (r: usize)
    requires
        n > 0,
    ensures
        r < n,
{
    rand::rng().random_range(0..n)
}

/// Calls `rand::seq::IndexedRandom::choose` on the items with
/// `rand::rng()`. Claimed: `None` exactly when there are no items, else one
/// of the items.
#[verifier::external_body]
pub(crate) fn rand_choose<T: Copy>(items: &Vec<T>) -> (r: Option<T>)
    ensures
        r is None <==> items@.len() == 0,
        r matches Some(x) ==> items@.contains(x),
{
    items.as_slice().choose(&mut rand::rng()).copied()
}

/// Calls `rand::Rng::random_ratio(numerator, denominator)` on `rand::rng()`:
/// `true` with probability `numerator / denominator`. Claimed: a ratio of
/// one always gives `true`, a ratio of zero `false`; nothing else.
/// `random_ratio` panics unless `0 < denominator` and
/// `numerator <= denominator`.
#[verifier::external_body]
pub(crate) fn rand_ratio(numerator: u32, denominator: u32) -> (b: bool)
    requires
        0 < denominator,
        numerator <= denominator,
    ensures
        numerator == denominator ==> b,
        numerator == 0 ==> !b,
{
    rand::rng().random_ratio(numerator, denominator)
}

/// Calls `rand::Rng::random::<bool>()` on `rand::rng()`: a fair coin.
/// Nothing is claimed of the outcome.
#[verifier::external_body]
pub(crate) fn rand_coin() -> (b: bool) {
    rand::rng().random::<bool>()
}

/// Calls `rand::seq::SliceRandom::shuffle` with `rand::rng()`. Claimed: the
/// vector afterwards holds the same items, each as often as before.
#[verifier::external_body]
pub(crate) fn rand_shuffle<T>(v: &mut Vec<T>)
    ensures
        final(v)@.to_multiset() == old(v)@.to_multiset(),
{
    v.shuffle(&mut rand::rng())
}

/// Calls `fastrand::u32(lo..hi)`. Claimed: the draw lies in `lo..hi`; the
/// range must not be empty (fastrand panics on an empty range).
#[verifier::external_body]
pub(crate) fn fast_u32(lo: u32, hi: u32) -> (r: u32)
    requires
        lo < hi,
    ensures
        lo <= r < hi,
{
    fastrand::u32(lo..hi)
}

/// Calls `fastrand::i32(lo..hi)`. Claimed: the draw lies in `lo..hi`; the
/// range must not be empty.
#[verifier::external_body]
pub(crate) fn fast_i32(lo: i32, hi: i32) -> (r: i32)
    requires
        lo < hi,
    ensures
        lo <= r < hi,
{
    fastrand::i32(lo..hi)
}

/// Calls `fastrand::usize(lo..hi)`. Claimed: the draw lies in `lo..hi`; the
/// range must not be empty.
#[verifier::external_body]
pub(crate) fn fast_usize(lo: usize, hi: usize) -> (r: usize)
    requires
        lo < hi,
    ensures
        lo <= r < hi,
{
    fastrand::usize(lo..hi)
}

/// Calls `fastrand::usize(..=hi)`. Claimed: the draw is at most `hi`.
#[verifier::external_body]
pub(crate) fn fast_usize_upto(hi: usize) -> (r: usize)
    ensures
        r <= hi,
{
    fastrand::usize(..=hi)
}

/// Calls `fastrand::bool()`. Nothing is claimed of the outcome.
#[verifier::external_body]
pub(crate) fn fast_bool() -> (b: bool) {
    fastrand::bool()
}

/// Calls `fastrand::shuffle` on the vector's items. Claimed: the vector
/// afterwards holds the same items, each as often as before.
#[verifier::external_body]
pub(crate) fn fast_shuffle<T>(v: &mut Vec<T>)
    ensures
        final(v)@.to_multiset() == old(v)@.to_multiset(),
{
    fastrand::shuffle(v)
}

} // verus!
