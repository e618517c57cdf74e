use vstd::prelude::*;

verus! {

/// The injected random-number source: rand's seedable standard generator.
#[verifier::external_type_specification]
#[verifier::external_body]
pub struct ExStdRng(rand::rngs::StdRng);

/// Sum of a sequence of machine integers, as a mathematical integer.
pub open spec fn usize_sum(s: Seq<usize>) -> int
    decreases s.len(),
{
    if s.len() == 0 {
        0
    } else {
        s[0] + usize_sum(s.drop_first())
    }
}

/// Relies on rand's `Rng::gen_range` over `0..n`: the draw is uniform over
/// the range, so in particular it lies below `n`.
#[verifier::external_body]
pub(crate) fn rand_below(rng: &mut rand::rngs::StdRng, n: usize) -> (r: usize)
    requires
        n >= 1,
    ensures
        r < n,
{
    rand::Rng::gen_range(rng, 0..n)
}

/// Relies on rand's `WeightedIndex`: construction succeeds on a non-empty
/// weight list with a positive, non-overflowing total, and sampling returns
/// the index of one entry, never one whose weight is zero.
#[verifier::external_body]
pub(crate) fn weighted_index(rng: &mut rand::rngs::StdRng, weights: &Vec<usize>) -> (r: usize)
    requires
        weights@.len() >= 1,
        usize_sum(weights@) <= usize::MAX,
        exists|i: int| 0 <= i < weights@.len() && weights@[i] > 0,
    ensures
        r < weights@.len(),
        weights@[r as int] > 0,
{
    let dist = rand::distributions::WeightedIndex::new(weights).unwrap();
    rand::Rng::sample(rng, dist)
}

} // verus!
