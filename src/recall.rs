use vstd::prelude::*;

verus! {

/// The true nearest neighbor `gt` is among the first `k` results.
pub open spec fn hit_at_k(gt: usize, result: Seq<(usize, u128)>, k: usize) -> bool {
    exists|i: int| 0 <= i < k && i < result.len() && (#[trigger] result[i]).0 == gt
}

/// Number of queries whose true nearest neighbor is among the first `k` results.
pub open spec fn hits_upto(gts: Seq<usize>, results: Seq<Vec<(usize, u128)>>, k: usize, n: int) -> nat
    decreases n,
{
    if n <= 0 {
        0
    } else {
        hits_upto(gts, results, k, n - 1) + if hit_at_k(gts[n - 1], results[n - 1]@, k) {
            1nat
        } else {
            0nat
        }
    }
}

/// Whether `gt` appears among the first `k` entries of one query's results.
pub fn calculate_recall_1_at_k(gt: usize, result: &Vec<(usize, u128)>, k: usize) -> (r: bool)
    ensures
        r == hit_at_k(gt, result@, k),
{
    let mut i: usize = 0;
    while i < result.len()
        invariant
            i <= result@.len(),
            forall|j: int| 0 <= j < i ==> (#[trigger] result@[j]).0 != gt,
        decreases result@.len() - i,
    {
        if result[i].0 == gt {
            return i < k;
        }
        i = i + 1;
    }
    false
}

/// The numerator of Recall@k: how many queries find their true nearest
/// neighbor in their first `k` results. Pairs `gts[i]` with `results[i]`.
pub fn count_recall_hits(gts: &Vec<usize>, results: &Vec<Vec<(usize, u128)>>, k: usize) -> (r: usize)
    requires
        gts@.len() == results@.len(),
    ensures
        r == hits_upto(gts@, results@, k, gts@.len() as int),
{
    let mut count: usize = 0;
    let mut i: usize = 0;
    while i < gts.len()
        invariant
            gts@.len() == results@.len(),
            i <= gts@.len(),
            count == hits_upto(gts@, results@, k, i as int),
            count <= i,
        decreases gts@.len() - i,
    {
        if calculate_recall_1_at_k(gts[i], &results[i], k) {
            count = count + 1;
        }
        i = i + 1;
    }
    count
}

} // verus!
