use rand::Rng;
use vstd::prelude::*;

verus! {

#[verifier::external_type_specification]
#[verifier::external_body]
pub struct ExMcg128Xsl64(rand_pcg::Mcg128Xsl64);

/// Relies on `rand::Rng::gen_range` (rand 0.7): a value drawn from
/// `[0, bound)`. It panics when the range is empty, which `requires` rules out.
#[verifier::external_body]
pub(crate) fn random_below(rng: &mut rand_pcg::Mcg128Xsl64, bound: usize) -> (r: usize)
    requires
        bound > 0,
    ensures
        r < bound,
{
    rng.gen_range(0, bound)
}

/// Relies on `slice::sort_unstable`: the pairs come back reordered, none lost
/// or added, in ascending order; tuples compare by their first component first.
#[verifier::external_body]
pub(crate) fn sort_pairs(v: &mut Vec<(u128, usize)>)
    ensures
        final(v)@.to_multiset() == old(v)@.to_multiset(),
        forall|i: int, j: int| 0 <= i < j < final(v)@.len() ==> final(v)@[i].0 <= final(v)@[j].0,
{
    v.sort_unstable();
}

} // verus!
