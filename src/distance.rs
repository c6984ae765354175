use vstd::prelude::*;

verus! {

/// Sum of squared coordinate differences over the first `n` coordinates.
pub open spec fn sq_dist_upto(a: Seq<i32>, b: Seq<i32>, n: int) -> int
    decreases n,
{
    if n <= 0 {
        0
    } else {
        sq_dist_upto(a, b, n - 1) + (a[n - 1] - b[n - 1]) * (a[n - 1] - b[n - 1])
    }
}

/// Squared Euclidean distance between two vectors of one dimensionality.
pub open spec fn sq_dist(a: Seq<i32>, b: Seq<i32>) -> int {
    sq_dist_upto(a, b, a.len() as int)
}

/// The largest dimensionality a vector may have: the file format stores it as `u32`.
pub open spec fn max_dim() -> int {
    u32::MAX as int
}

pub proof fn lemma_sq_dist_upto_bounds(a: Seq<i32>, b: Seq<i32>, n: int)
    requires
        0 <= n,
    ensures
        0 <= sq_dist_upto(a, b, n) <= n * 0x1_0000_0000_0000_0000,
    decreases n,
{
    if n > 0 {
        lemma_sq_dist_upto_bounds(a, b, n - 1);
        let d = a[n - 1] - b[n - 1];
        assert(-0x1_0000_0000 < d < 0x1_0000_0000);
        assert(0 <= d * d <= 0x1_0000_0000_0000_0000) by (nonlinear_arith)
            requires
                -0x1_0000_0000 < d < 0x1_0000_0000,
        ;
    }
}

/// Squared Euclidean distance, computed exactly.
pub fn squared_distance(a: &[i32], b: &[i32]) -> (r: u128)
    requires
        a@.len() == b@.len(),
        a@.len() <= max_dim(),
    ensures
        r as int == sq_dist(a@, b@),
{
    let n = a.len();
    let mut acc: u128 = 0;
    let mut i: usize = 0;
    while i < n
        invariant
            n == a@.len(),
            n == b@.len(),
            n <= max_dim(),
            i <= n,
            acc as int == sq_dist_upto(a@, b@, i as int),
        decreases n - i,
    {
        let x = a[i] as i64;
        let y = b[i] as i64;
        let diff: u64 = if x >= y {
            (x - y) as u64
        } else {
            (y - x) as u64
        };
        let ghost dd = a@[i as int] - b@[i as int];
        assert(diff as int * diff as int == dd * dd) by (nonlinear_arith)
            requires
                diff as int == dd || diff as int == -dd,
        ;
        assert(diff as int * diff as int <= 0x1_0000_0000_0000_0000) by (nonlinear_arith)
            requires
                0 <= diff < 0x1_0000_0000,
        ;
        proof {
            lemma_sq_dist_upto_bounds(a@, b@, i as int + 1);
            assert((i as int + 1) * 0x1_0000_0000_0000_0000 <= 0x1_0000_0000 * 0x1_0000_0000_0000_0000) by (nonlinear_arith)
                requires
                    i + 1 <= 0x1_0000_0000,
            ;
        }
        let sq: u128 = (diff as u128) * (diff as u128);
        acc = acc + sq;
        i = i + 1;
    }
    acc
}

} // verus!
