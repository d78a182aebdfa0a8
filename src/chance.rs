//! Random draws, taken from the `rand` crate.
use vstd::prelude::*;
use rand::distributions::Distribution;
use rand::Rng;

verus! {

/// The sum of a list of weights.
pub open spec fn total_weight(w: Seq<u32>) -> int
    decreases w.len(),
{
    if w.len() == 0 {
        0
    } else {
        total_weight(w.drop_last()) + w.last() as int
    }
}

/// Relies on rand's `thread_rng().gen_range(lo..hi)`: a value of the half-open
/// range `lo..hi`, which must not be empty (else it panics).
#[verifier::external_body]
pub(crate) fn random_between(lo: i64, hi: i64) -> (r: i64)
    requires
        lo < hi,
    ensures
        lo <= r < hi,
{
    rand::thread_rng().gen_range(lo..hi)
}

/// Relies on rand's `WeightedIndex::new` and its `sample`: building fails on an
/// empty list or on weights that are all zero, and the running total is a
/// `u32`; a draw is an index whose weight is positive, as the draw finds the
/// first cumulative weight above a uniform value below the total.
#[verifier::external_body]
pub(crate) fn sample_weighted(weights: &Vec<u32>) -> (r: usize)
    requires
        weights.len() > 0,
        0 < total_weight(weights@) <= u32::MAX,
    ensures
        r < weights.len(),
        weights[r as int] > 0,
{
    let dist = rand::distributions::WeightedIndex::<u32>::new(weights.iter()).unwrap();
    dist.sample(&mut rand::thread_rng())
}

} // verus!
