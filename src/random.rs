use vstd::prelude::*;

use rand::distributions::Distribution;
use rand::Rng;

verus! {

#[verifier::external_type_specification]
#[verifier::external_body]
pub struct ExStdRng(rand::rngs::StdRng);

#[verifier::external_type_specification]
#[verifier::external_body]
pub struct ExChaCha8Rng(rand_chacha::ChaCha8Rng);

/// Relies on rand's `Rng::gen_range` over `0..len`: a value of the range,
/// drawn uniformly; the range must not be empty.
#[verifier::external_body]
pub(crate) fn uniform_index(rng: &mut rand::rngs::StdRng, len: usize) -> (r: usize)
    requires
        len > 0,
    ensures
        r < len,
{
    rng.gen_range(0..len)
}

/// Relies on rand's `WeightedIndex::new` and `sample`: an index drawn with
/// probability proportional to its weight. `new` fails on no weights or a
/// zero total, and the running total must fit the weight type; `sample`
/// returns the first index whose running total passes a uniform draw below
/// the total, which is never one of weight zero.
#[verifier::external_body]
pub(crate) fn weighted_index(weights: &Vec<u32>, rng: &mut rand_chacha::ChaCha8Rng) -> (r: usize)
    requires
        crate::node::sum_u32(weights@, weights@.len() as int) > 0,
        crate::node::sum_u32(weights@, weights@.len() as int) <= u32::MAX,
    ensures
        r < weights@.len(),
        weights@[r as int] > 0,
{
    rand::distributions::WeightedIndex::new(weights.iter().copied())
        .expect("weights are valid")
        .sample(rng)
}

} // verus!
