use vstd::prelude::*;

use crate::acorn::{result_ok, sorted_results};
use crate::bitmask::{intersection_size, lemma_jaccard_bounds, lemma_popcount_upto_bound, union_size, Bitmask};
use crate::dataset::{ConstructionError, HybridSearchMetadata, OakIndexOptions, SearchableError};
use crate::fvecs::{FlattenedVecs, FvecsDataset, FvecsDatasetPartition};

verus! {

/// The score a partition must beat for the router to use it, unless set otherwise.
pub const DEFAULT_SCORE_THRESHOLD: u64 = 10;

/// A routing score `num / den`; a zero denominator stands for the score 0.
pub open spec fn norm_score(s: (int, int)) -> (int, int) {
    if s.1 == 0 {
        (0, 1)
    } else {
        s
    }
}

/// Score `a` is strictly below score `b`.
pub open spec fn score_lt(a: (int, int), b: (int, int)) -> bool {
    norm_score(a).0 * norm_score(b).1 < norm_score(b).0 * norm_score(a).1
}

/// Score `s` is strictly above the threshold `tau`.
pub open spec fn score_exceeds(s: (int, int), tau: int) -> bool {
    norm_score(s).0 > tau * norm_score(s).1
}

/// `gain · loss = (|B| / |π|) · (|ν∩μ| / |ν∪μ|)` as a fraction.
pub open spec fn partition_score(base_len: int, part_len: int, nu: Seq<bool>, mu: Seq<bool>) -> (int, int) {
    (base_len * intersection_size(nu, mu), part_len * union_size(nu, mu))
}

/// Index of the first highest score among the first `n`.
pub open spec fn best_upto(scores: Seq<(int, int)>, n: int) -> int
    decreases n,
{
    if n <= 1 {
        0
    } else if score_lt(scores[best_upto(scores, n - 1)], scores[n - 1]) {
        n - 1
    } else {
        best_upto(scores, n - 1)
    }
}

/// The partition a query goes to: the first highest-scoring one, when its score
/// is above `tau`; `None` sends the query to the base dataset.
pub open spec fn route_of(scores: Seq<(int, int)>, tau: int) -> Option<int> {
    if scores.len() > 0 && score_exceeds(scores[best_upto(scores, scores.len() as int)], tau) {
        Some(best_upto(scores, scores.len() as int))
    } else {
        None
    }
}

proof fn lemma_best_in_range(scores: Seq<(int, int)>, n: int)
    requires
        1 <= n,
    ensures
        0 <= best_upto(scores, n) < n,
    decreases n,
{
    if n > 1 {
        lemma_best_in_range(scores, n - 1);
    }
}

/// Router fallback: when no partition's score is above the threshold, the
/// query goes to the base dataset.
pub proof fn lemma_router_fallback(scores: Seq<(int, int)>, tau: int)
    requires
        forall|k: int| 0 <= k < scores.len() ==> !score_exceeds(#[trigger] scores[k], tau),
    ensures
        route_of(scores, tau) == None::<int>,
{
    if scores.len() > 0 {
        lemma_best_in_range(scores, scores.len() as int);
    }
}

/// Chooses, per query, between a base dataset and precomputed partitions.
pub struct Router {
    pub base: FvecsDataset,
    pub opportunistic: Vec<(Bitmask, FvecsDatasetPartition)>,
    pub search_masks: Vec<Bitmask>,
    pub threshold: u64,
}

impl Router {
    pub open spec fn wf(&self) -> bool {
        &&& self.base.wf()
        &&& self.base.count <= u32::MAX
        &&& self.search_masks@.len() == self.opportunistic@.len()
        &&& forall|k: int| 0 <= k < self.opportunistic@.len() ==> {
            &&& (#[trigger] self.opportunistic@[k]).0.wf()
            &&& self.opportunistic@[k].0.view().len() == self.base.count
            &&& self.opportunistic@[k].1.represents(self.base.flat.rows_view())
            &&& self.search_masks@[k].view().len() == self.opportunistic@[k].1.vectors@.len()
            &&& forall|j: int| 0 <= j < self.search_masks@[k].view().len() ==> self.search_masks@[k].view()[j]
        }
    }

    /// The score of every partition for the query filter `nu`.
    pub open spec fn scores(&self, nu: Seq<bool>) -> Seq<(int, int)> {
        Seq::new(
            self.opportunistic@.len(),
            |k: int|
                partition_score(
                    self.base.count as int,
                    self.opportunistic@[k].1.vectors@.len() as int,
                    nu,
                    self.opportunistic@[k].0.view(),
                ),
        )
    }

    /// Where a query with filter `nu` goes.
    pub open spec fn spec_route(&self, nu: Seq<bool>) -> Option<int> {
        route_of(self.scores(nu), self.threshold as int)
    }

    /// A router over `base` and the `(μ, partition)` pairs, with threshold 10.
    pub fn new(base: FvecsDataset, opportunistic: Vec<(Bitmask, FvecsDatasetPartition)>) -> (r: Self)
        requires
            base.wf(),
            base.count <= u32::MAX,
            forall|k: int| 0 <= k < opportunistic@.len() ==> {
                &&& (#[trigger] opportunistic@[k]).0.wf()
                &&& opportunistic@[k].0.view().len() == base.count
                &&& opportunistic@[k].1.represents(base.flat.rows_view())
            },
        ensures
            r.wf(),
            r.base == base,
            r.opportunistic == opportunistic,
            r.threshold == DEFAULT_SCORE_THRESHOLD,
    {
        let mut search_masks: Vec<Bitmask> = Vec::new();
        let mut k: usize = 0;
        while k < opportunistic.len()
            invariant
                k <= opportunistic@.len(),
                search_masks@.len() == k,
                forall|i: int| 0 <= i < opportunistic@.len() ==> (#[trigger] opportunistic@[i]).1.wf(),
                forall|i: int| 0 <= i < k ==> (#[trigger] search_masks@[i]).view().len() == opportunistic@[i].1.vectors@.len()
                    && forall|j: int| 0 <= j < search_masks@[i].view().len() ==> search_masks@[i].view()[j],
            decreases opportunistic@.len() - k,
        {
            let m = opportunistic[k].1.select_all_mask();
            search_masks.push(m);
            k = k + 1;
        }
        Router { base, opportunistic, search_masks, threshold: DEFAULT_SCORE_THRESHOLD }
    }

    /// The same router with threshold `threshold`.
    pub fn with_threshold(self, threshold: u64) -> (r: Self)
        requires
            self.wf(),
        ensures
            r.wf(),
            r.base == self.base,
            r.opportunistic == self.opportunistic,
            r.threshold == threshold,
    {
        Router { threshold, ..self }
    }

    pub fn len(&self) -> (r: usize)
        ensures
            r == self.base.count,
    {
        self.base.len()
    }

    pub fn get_dimensionality(&self) -> (r: usize)
        ensures
            r == self.base.dimensionality,
    {
        self.base.get_dimensionality()
    }

    pub fn get_metadata(&self) -> (r: &HybridSearchMetadata)
        ensures
            r == &self.base.metadata,
    {
        self.base.get_metadata()
    }

    /// Nothing to prepare: the base and the partitions are indexed on their own.
    pub fn initialize(&mut self, _opts: &OakIndexOptions) -> (r: Result<(), ConstructionError>)
        ensures
            *final(self) == *old(self),
            r is Ok,
    {
        Ok(())
    }

    /// Computes where a query with filter `nu` goes.
    pub fn route(&self, nu: &Bitmask) -> (r: Option<usize>)
        requires
            self.wf(),
            nu.view().len() == self.base.count,
        ensures
            r matches Some(k) ==> self.spec_route(nu.view()) == Some(k as int),
            r is None ==> self.spec_route(nu.view()) is None,
    {
        let p = self.opportunistic.len();
        if p == 0 {
            return None;
        }
        let ghost scores = self.scores(nu.view());
        let base_len = self.base.len() as u128;
        let mut best: usize = 0;
        let mut best_num: u128 = 0;
        let mut best_den: u128 = 1;
        let mut k: usize = 0;
        while k < p
            invariant
                self.wf(),
                nu.view().len() == self.base.count,
                p == self.opportunistic@.len(),
                scores == self.scores(nu.view()),
                base_len == self.base.count,
                k <= p,
                k > 0 ==> best < k,
                k > 0 ==> best == best_upto(scores, k as int),
                k > 0 ==> (best_num as int, best_den as int) == norm_score(scores[best as int]),
                best_den > 0,
                best_num <= u64::MAX,
                best_den <= u64::MAX,
            decreases p - k,
        {
            let entry = &self.opportunistic[k];
            assert(entry.0.view().len() == self.base.count);
            let j = match nu.jaccard_similarity(&entry.0) {
                Ok(j) => j,
                Err(_) => {
                    return None;
                },
            };
            proof {
                lemma_jaccard_bounds(nu.view(), entry.0.view());
                lemma_popcount_upto_bound(entry.1.mask.view(), entry.1.mask.view().len() as int);
            }
            let part_len = entry.1.len();
            let inter = j.intersection_count as u128;
            let uni = j.union_count as u128;
            assert(inter <= u32::MAX && uni <= u32::MAX && part_len <= u32::MAX);
            assert(base_len * inter <= u64::MAX && (part_len as u128) * uni <= u64::MAX) by (nonlinear_arith)
                requires
                    base_len <= u32::MAX,
                    inter <= u32::MAX,
                    part_len <= u32::MAX,
                    uni <= u32::MAX,
            ;
            let num_raw = base_len * inter;
            let den_raw = (part_len as u128) * uni;
            let (num, den) = if den_raw == 0 {
                (0u128, 1u128)
            } else {
                (num_raw, den_raw)
            };
            assert((num as int, den as int) == norm_score(scores[k as int]));
            assert(best_num * den <= u128::MAX && num * best_den <= u128::MAX) by (nonlinear_arith)
                requires
                    best_num <= u64::MAX,
                    best_den <= u64::MAX,
                    num <= u64::MAX,
                    den <= u64::MAX,
            ;
            if k == 0 || best_num * den < num * best_den {
                best = k;
                best_num = num;
                best_den = den;
            }
            k = k + 1;
        }
        assert((self.threshold as u128) * best_den <= u128::MAX) by (nonlinear_arith)
            requires
                self.threshold <= u64::MAX,
                best_den <= u64::MAX,
        ;
        if best_num > (self.threshold as u128) * best_den {
            Some(best)
        } else {
            None
        }
    }
    /// What a query sent to partition `k` returns: `DatasetIsNotIndexed` exactly
    /// when that partition has no index, else `DimensionMismatch` exactly when
    /// the query dimensionality is off, else per query at most `topk` results,
    /// strictly ascending, each a parent id inside the partition's own mask with
    /// its exact squared distance.
    pub open spec fn partition_post(
        &self,
        k: int,
        queries: Seq<Seq<i32>>,
        query_dim: usize,
        topk: usize,
        r: Result<Vec<Vec<(usize, u128)>>, SearchableError>,
    ) -> bool {
        let part = self.opportunistic@[k].1;
        &&& part.index.is_none() <==> r == Err::<Vec<Vec<(usize, u128)>>, SearchableError>(SearchableError::DatasetIsNotIndexed)
        &&& part.index.is_some() && query_dim != part.dimensionality <==> r == Err::<Vec<Vec<(usize, u128)>>, SearchableError>(
            SearchableError::DimensionMismatch,
        )
        &&& part.index.is_some() && query_dim == part.dimensionality ==> r is Ok
        &&& r matches Ok(res) ==> {
            &&& res@.len() == queries.len()
            &&& topk > 0 && part.vectors@.len() > 0 ==> forall|i: int| 0 <= i < res@.len() ==> (#[trigger] res@[i])@.len() > 0
            &&& forall|i: int| 0 <= i < res@.len() ==> (#[trigger] res@[i])@.len() <= topk && sorted_results(res@[i]@) && forall|t: int|
                0 <= t < res@[i]@.len() ==> result_ok(self.base.flat.rows_view(), queries[i], part.mask.view(), #[trigger] res@[i]@[t])
        }
    }

    /// Routed search: scores every partition against the query filter and
    /// either sends the queries to the best partition (with its all-ones mask,
    /// results already in parent ids) or to the base dataset with the filter.
    pub fn search_with_bitmask(
        &self,
        query_vectors: &FlattenedVecs,
        query_bitmask: &Bitmask,
        topk: usize,
        efsearch: usize,
    ) -> (r: Result<Vec<Vec<(usize, u128)>>, SearchableError>)
        requires
            self.wf(),
            query_vectors.wf(),
        ensures
            query_bitmask.view().len() != self.base.count || self.spec_route(query_bitmask.view()) is None
                ==> self.base.search_with_bitmask_post(
                query_vectors.rows_view(),
                query_vectors.dimensionality,
                query_bitmask.view(),
                topk,
                r,
            ),
            query_bitmask.view().len() == self.base.count ==> (self.spec_route(query_bitmask.view()) matches Some(k)
                ==> self.partition_post(k, query_vectors.rows_view(), query_vectors.dimensionality, topk, r)),
    {
        if query_bitmask.capacity() != self.base.len() {
            return self.base.search_with_bitmask(query_vectors, query_bitmask, topk, efsearch);
        }
        match self.route(query_bitmask) {
            None => self.base.search_with_bitmask(query_vectors, query_bitmask, topk, efsearch),
            Some(k) => {
                proof {
                    lemma_best_in_range(self.scores(query_bitmask.view()), self.opportunistic@.len() as int);
                }
                let part = &self.opportunistic[k].1;
                let mask = &self.search_masks[k];
                let r = part.search_with_bitmask(query_vectors, mask, topk, efsearch);
                proof {
                    let rows = self.base.flat.rows_view();
                    let queries = query_vectors.rows_view();
                    assert(part.represents(rows));
                    if r is Ok {
                        let res = r->Ok_0;
                        assert forall|i: int, t: int| 0 <= i < res@.len() && 0 <= t < res@[i]@.len() implies result_ok(
                            rows,
                            queries[i],
                            part.mask.view(),
                            #[trigger] res@[i]@[t],
                        ) by {
                            assert(part.global_result_ok(queries[i], mask.view(), res@[i]@[t]));
                            let j = choose|j: int|
                                0 <= j < part.original_indices@.len() && #[trigger] part.original_indices@[j] == res@[i]@[t].0
                                    && mask.view()[j] && res@[i]@[t].1 as int == crate::distance::sq_dist(queries[i], part.vectors@[j]@);
                            assert(part.vectors@[j]@ == rows[part.original_indices@[j] as int]);
                        }
                    }
                }
                r
            },
        }
    }

    /// Routed search with a predicate: the predicate (all vectors when `None`)
    /// is compiled to a filter over the base attributes, then routed.
    pub fn search(
        &self,
        query_vectors: &FlattenedVecs,
        predicate_query: &Option<crate::predicate::PredicateQuery>,
        topk: usize,
        efsearch: usize,
    ) -> (r: Result<Vec<Vec<(usize, u128)>>, SearchableError>)
        requires
            self.wf(),
            query_vectors.wf(),
        ensures
            predicate_query.is_some() && self.base.metadata.view().len() != self.base.count ==> r == Err::<
                Vec<Vec<(usize, u128)>>,
                SearchableError,
            >(SearchableError::PredicateSerializationError),
            ({
                let nu = Seq::new(self.base.count as nat, |i: int| match predicate_query {
                    Some(pq) => pq.spec_matches(self.base.metadata.view()[i]),
                    None => true,
                });
                (predicate_query.is_none() || self.base.metadata.view().len() == self.base.count) ==> {
                    &&& self.spec_route(nu) is None ==> self.base.search_with_bitmask_post(
                        query_vectors.rows_view(),
                        query_vectors.dimensionality,
                        nu,
                        topk,
                        r,
                    )
                    &&& self.spec_route(nu) matches Some(k) ==> self.partition_post(
                        k,
                        query_vectors.rows_view(),
                        query_vectors.dimensionality,
                        topk,
                        r,
                    )
                }
            }),
    {
        let mask = match predicate_query {
            None => Bitmask::new_full(self.base.len()),
            Some(pq) => {
                if self.base.metadata.len() != self.base.len() {
                    return Err(SearchableError::PredicateSerializationError);
                }
                Bitmask::new(pq, &self.base.metadata)
            },
        };
        let ghost nu = Seq::new(self.base.count as nat, |i: int| match predicate_query {
            Some(pq) => pq.spec_matches(self.base.metadata.view()[i]),
            None => true,
        });
        assert(mask.view() =~= nu);
        self.search_with_bitmask(query_vectors, &mask, topk, efsearch)
    }
}

} // verus!
