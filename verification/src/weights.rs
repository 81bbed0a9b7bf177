//! The files a model is made of: where each comes from, the revision it is pinned
//! to, and how large it is.
use vstd::prelude::*;

verus! {

/// One file of a model's weights.
#[derive(Debug, Clone, Copy, PartialEq, Eq)]
pub struct Weight {
    pub repo: &'static str,
    pub revision: &'static str,
    pub file: &'static str,
    pub bytes: u64,
}

/// The bytes that all of `weights` take together.
pub open spec fn sum_bytes(weights: Seq<Weight>) -> int
    decreases weights.len(),
{
    if weights.len() == 0 {
        0
    } else {
        sum_bytes(weights.drop_last()) + weights.last().bytes
    }
}

proof fn lemma_sum_grows(weights: Seq<Weight>, i: int)
    requires
        0 <= i <= weights.len(),
    ensures
        sum_bytes(weights.take(i)) <= sum_bytes(weights),
    decreases weights.len() - i,
{
    if i < weights.len() {
        lemma_sum_grows(weights, i + 1);
        assert(weights.take(i + 1).drop_last() =~= weights.take(i));
    } else {
        assert(weights.take(i) =~= weights);
    }
}

/// How many bytes the files take together, when that fits in a `u64`.
pub fn total_bytes(weights: &[Weight]) -> (n: u64)
    requires
        sum_bytes(weights@) <= u64::MAX,
    ensures
        n == sum_bytes(weights@),
{
    let mut n: u64 = 0;
    let mut i: usize = 0;
    while i < weights.len()
        invariant
            i <= weights.len(),
            sum_bytes(weights@) <= u64::MAX,
            n == sum_bytes(weights@.take(i as int)),
        decreases weights.len() - i,
    {
        proof {
            lemma_sum_grows(weights@, i + 1);
            assert(weights@.take(i + 1).drop_last() =~= weights@.take(i as int));
        }
        n = n + weights[i].bytes;
        i = i + 1;
    }
    assert(weights@.take(i as int) =~= weights@);
    n
}

} // verus!
