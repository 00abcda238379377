use vstd::prelude::*;
use rand::distributions::{Distribution, WeightedIndex};
use rand::rngs::StdRng;
use rand::{Rng, SeedableRng};

verus! {

#[verifier::external_type_specification]
#[verifier::external_body]
pub struct ExStdRng(StdRng);

pub open spec fn total(weights: Seq<u64>) -> int
    decreases weights.len(),
{
    if weights.len() == 0 {
        0
    } else {
        total(weights.drop_last()) + weights.last()
    }
}

/// Relies on `SeedableRng::seed_from_u64` for `StdRng`: the generator's draws
/// are fixed by the seed.
#[verifier::external_body]
pub(crate) fn seeded(seed: u64) -> StdRng {
    StdRng::seed_from_u64(seed)
}

/// Relies on `Rng::gen_range` over an inclusive range of `i64`: the draw lies
/// in the range (it panics only on an empty one).
#[verifier::external_body]
pub(crate) fn draw_between(rng: &mut StdRng, lo: i64, hi: i64) -> (r: i64)
    requires
        lo <= hi,
    ensures
        lo <= r <= hi,
{
    rng.gen_range(lo..=hi)
}

/// Relies on `WeightedIndex::new` and its `sample`: an index into the
/// weights, drawn with probability proportional to its weight. `new` fails on
/// no weights or a zero total, and its running sum panics on overflow.
#[verifier::external_body]
pub(crate) fn draw_weighted(rng: &mut StdRng, weights: &Vec<u64>) -> (r: usize)
    requires
        weights.len() > 0,
        forall|k: int| 0 <= k < weights.len() ==> (#[trigger] weights@[k]) > 0,
        total(weights@) <= u64::MAX,
    ensures
        r < weights.len(),
{
    match WeightedIndex::new(weights) {
        Ok(index) => index.sample(rng),
        Err(_) => 0,
    }
}

} // verus!
