use vstd::prelude::*;

use crate::acorn::{copy_row, results_valid, result_ok, sorted_results, result_lt, AcornHnswIndex};
use crate::bitmask::{lemma_popcount_upto_bound, lemma_select_by_push, popcount, popcount_upto, select_by, Bitmask};
use crate::dataset::{ConstructionError, HybridSearchMetadata, OakIndexOptions, SearchableError};
use crate::distance::max_dim;
use crate::predicate::PredicateQuery;

verus! {

/// `count` vectors of one dimensionality stored back to back: vector `i`
/// occupies `data[i·d .. i·d + d]`. The count is kept apart so that a
/// dimensionality of 0 still has vectors.
pub struct FlattenedVecs {
    pub dimensionality: usize,
    pub count: usize,
    pub data: Vec<i32>,
}

/// Row `i` of a flat block with row length `d`.
pub open spec fn flat_row(data: Seq<i32>, d: int, i: int) -> Seq<i32> {
    data.subrange(i * d, i * d + d)
}

/// The first `c` rows of a flat block with row length `d`.
pub open spec fn flat_rows(data: Seq<i32>, d: int, c: int) -> Seq<Seq<i32>> {
    Seq::new(c as nat, |i: int| flat_row(data, d, i))
}

pub proof fn lemma_row_in_bounds(len: int, d: int, c: int, i: int)
    requires
        d >= 0,
        len == c * d,
        0 <= i < c,
    ensures
        0 <= i * d,
        i * d + d <= len,
{
    assert(0 <= i * d && i * d + d <= c * d) by (nonlinear_arith)
        requires
            0 <= i < c,
            d >= 0,
    ;
}

/// Appending one row to a flat block appends it to its rows.
pub proof fn lemma_push_row(data: Seq<i32>, d: int, c: int, row: Seq<i32>)
    requires
        d >= 0,
        c >= 0,
        data.len() == c * d,
        row.len() == d,
    ensures
        (data + row).len() == (c + 1) * d,
        flat_rows(data + row, d, c + 1) == flat_rows(data, d, c).push(row),
{
    assert((c + 1) * d == c * d + d) by (nonlinear_arith);
    let s = data + row;
    let a = flat_rows(s, d, c + 1);
    let b = flat_rows(data, d, c).push(row);
    assert forall|i: int| 0 <= i < a.len() implies a[i] == b[i] by {
        if i < c {
            lemma_row_in_bounds(data.len() as int, d, c, i);
            assert(flat_row(s, d, i) =~= flat_row(data, d, i));
        } else {
            assert(i * d == data.len()) by (nonlinear_arith)
                requires
                    i == c,
                    data.len() == c * d,
            ;
            assert(flat_row(s, d, i) =~= row);
        }
    }
    assert(a =~= b);
}

impl FlattenedVecs {
    /// The data holds exactly `count` rows of `dimensionality` values.
    pub open spec fn wf(&self) -> bool {
        self.data@.len() == self.count * self.dimensionality
    }

    pub open spec fn rows_view(&self) -> Seq<Seq<i32>> {
        flat_rows(self.data@, self.dimensionality as int, self.count as int)
    }

    /// Number of vectors.
    pub fn len(&self) -> (r: usize)
        ensures
            r == self.rows_view().len(),
    {
        self.count
    }

    /// A copy of vector `i`.
    pub fn row(&self, i: usize) -> (r: Vec<i32>)
        requires
            self.wf(),
            i < self.rows_view().len(),
        ensures
            r@ == self.rows_view()[i as int],
    {
        let d = self.dimensionality;
        let total = self.data.len();
        proof {
            lemma_row_in_bounds(total as int, d as int, self.count as int, i as int);
        }
        let start = i * d;
        let mut out: Vec<i32> = Vec::new();
        let mut j: usize = 0;
        while j < d
            invariant
                start as int == i as int * d as int,
                start + d <= self.data@.len(),
                self.data@.len() == total,
                j <= d,
                out@ == self.data@.subrange(start as int, start + j),
            decreases d - j,
        {
            out.push(self.data[start + j]);
            assert(self.data@.subrange(start as int, start + j + 1) == self.data@.subrange(start as int, start + j).push(
                self.data@[start + j],
            ));
            j = j + 1;
        }
        out
    }

    /// Every vector as its own `Vec`.
    pub fn to_rows(&self) -> (r: Vec<Vec<i32>>)
        requires
            self.wf(),
        ensures
            r@.len() == self.rows_view().len(),
            forall|i: int| 0 <= i < r@.len() ==> (#[trigger] r@[i])@ == self.rows_view()[i],
    {
        let n = self.len();
        let mut out: Vec<Vec<i32>> = Vec::new();
        let mut i: usize = 0;
        while i < n
            invariant
                self.wf(),
                n == self.rows_view().len(),
                i <= n,
                out@.len() == i,
                forall|j: int| 0 <= j < i ==> (#[trigger] out@[j])@ == self.rows_view()[j],
            decreases n - i,
        {
            out.push(self.row(i));
            i = i + 1;
        }
        out
    }

    /// Splits the block into one single-vector block per vector.
    pub fn to_vec(self) -> (r: Vec<FlattenedVecs>)
        requires
            self.wf(),
        ensures
            r@.len() == self.rows_view().len(),
            forall|i: int| 0 <= i < r@.len() ==> (#[trigger] r@[i]).dimensionality == self.dimensionality && r@[i].count == 1
                && r@[i].data@ == self.rows_view()[i] && r@[i].wf(),
    {
        let n = self.len();
        let mut out: Vec<FlattenedVecs> = Vec::new();
        let mut i: usize = 0;
        while i < n
            invariant
                self.wf(),
                n == self.rows_view().len(),
                i <= n,
                out@.len() == i,
                forall|j: int| 0 <= j < i ==> (#[trigger] out@[j]).dimensionality == self.dimensionality && out@[j].count == 1
                    && out@[j].data@ == self.rows_view()[j] && out@[j].wf(),
            decreases n - i,
        {
            let row = self.row(i);
            proof {
                lemma_row_in_bounds(self.data@.len() as int, self.dimensionality as int, self.count as int, i as int);
            }
            out.push(FlattenedVecs { dimensionality: self.dimensionality, count: 1, data: row });
            i = i + 1;
        }
        out
    }

    /// The vectors whose bit is set in `bitmask`, in dataset order.
    pub fn clone_via_bitmask(&self, bitmask: &Bitmask) -> (r: Self)
        requires
            self.wf(),
            bitmask.view().len() == self.rows_view().len(),
        ensures
            r.wf(),
            r.dimensionality == self.dimensionality,
            r.rows_view() == select_by(self.rows_view(), bitmask.view()),
    {
        let n = self.len();
        let d = self.dimensionality;
        let mut data: Vec<i32> = Vec::new();
        let mut kept: usize = 0;
        let mut i: usize = 0;
        proof {
            assert(flat_rows(data@, d as int, 0) =~= Seq::<Seq<i32>>::empty());
        }
        while i < n
            invariant
                self.wf(),
                d == self.dimensionality,
                n == self.rows_view().len(),
                bitmask.view().len() == n,
                i <= n,
                kept <= i,
                data@.len() == kept * d,
                flat_rows(data@, d as int, kept as int) == select_by(self.rows_view().take(i as int), bitmask.view().take(i as int)),
            decreases n - i,
        {
            proof {
                lemma_select_by_push(self.rows_view(), bitmask.view(), i as int);
            }
            if bitmask.get(i) {
                let row = self.row(i);
                proof {
                    lemma_row_in_bounds(self.data@.len() as int, d as int, self.count as int, i as int);
                    assert(row@.len() == d);
                }
                let ghost before = data@;
                let mut j: usize = 0;
                while j < row.len()
                    invariant
                        j <= row@.len(),
                        data@ == before + row@.take(j as int),
                    decreases row@.len() - j,
                {
                    data.push(row[j]);
                    assert(row@.take(j as int + 1) == row@.take(j as int).push(row@[j as int]));
                    j = j + 1;
                }
                proof {
                    assert(row@.take(row@.len() as int) == row@);
                    lemma_push_row(before, d as int, kept as int, row@);
                }
                kept = kept + 1;
            }
            i = i + 1;
        }
        proof {
            assert(self.rows_view().take(n as int) == self.rows_view());
            assert(bitmask.view().take(n as int) == bitmask.view());
        }
        FlattenedVecs { dimensionality: d, count: kept, data }
    }
}

/// One result list per query, each valid for its query (see `results_valid`).
pub open spec fn batch_valid(
    rows: Seq<Seq<i32>>,
    queries: Seq<Seq<i32>>,
    mask: Seq<bool>,
    k: usize,
    res: Seq<Vec<(usize, u128)>>,
) -> bool {
    &&& res.len() == queries.len()
    &&& forall|i: int| 0 <= i < res.len() ==> results_valid(rows, queries[i], mask, k, (#[trigger] res[i])@)
    &&& k > 0 && rows.len() > 0 && (forall|j: int| 0 <= j < mask.len() ==> #[trigger] mask[j]) ==> forall|i: int|
        0 <= i < res.len() ==> (#[trigger] res[i])@.len() > 0
}

/// Runs `idx.search` on every query vector; `rows` are the index's vectors.
fn search_batch(idx: &AcornHnswIndex, query_vectors: &FlattenedVecs, mask: &Bitmask, topk: usize, efsearch: usize) -> (r:
    Vec<Vec<(usize, u128)>>)
    requires
        idx.wf(),
        query_vectors.wf(),
        query_vectors.dimensionality == idx.dim,
        mask.view().len() == idx.num_nodes(),
    ensures
        batch_valid(idx.rows_view(), query_vectors.rows_view(), mask.view(), topk, r@),
{
    let nq = query_vectors.len();
    let mut out: Vec<Vec<(usize, u128)>> = Vec::new();
    let mut i: usize = 0;
    while i < nq
        invariant
            idx.wf(),
            query_vectors.wf(),
            query_vectors.dimensionality == idx.dim,
            mask.view().len() == idx.num_nodes(),
            nq == query_vectors.rows_view().len(),
            i <= nq,
            out@.len() == i,
            forall|j: int| 0 <= j < i ==> results_valid(idx.rows_view(), query_vectors.rows_view()[j], mask.view(), topk, (#[trigger] out@[j])@),
            topk > 0 && idx.num_nodes() > 0 && (forall|j: int| 0 <= j < mask.view().len() ==> #[trigger] mask.view()[j])
                ==> forall|j: int| 0 <= j < i ==> (#[trigger] out@[j])@.len() > 0,
        decreases nq - i,
    {
        let q = query_vectors.row(i);
        proof {
            lemma_row_in_bounds(query_vectors.data@.len() as int, query_vectors.dimensionality as int, query_vectors.count as int, i as int);
        }
        match idx.search(q.as_slice(), mask, topk, efsearch) {
            Ok(res) => {
                out.push(res);
            },
            Err(_) => {
                proof {
                    assert(false);
                }
            },
        }
        i = i + 1;
    }
    out
}

/// An in-memory dataset: the vectors, one attribute per vector, and the index
/// once it has been built.
pub struct FvecsDataset {
    pub count: usize,
    pub dimensionality: usize,
    pub index: Option<AcornHnswIndex>,
    pub metadata: HybridSearchMetadata,
    pub flat: FlattenedVecs,
}

impl FvecsDataset {
    pub open spec fn wf(&self) -> bool {
        &&& self.flat.wf()
        &&& self.count == self.flat.rows_view().len()
        &&& self.dimensionality == self.flat.dimensionality
        &&& self.index matches Some(idx) ==> idx.wf() && idx.rows_view() == self.flat.rows_view() && idx.dim
            == self.dimensionality
    }

    /// A dataset over `flat` with the given attributes, not yet indexed.
    pub fn new(flat: FlattenedVecs, metadata: HybridSearchMetadata) -> (r: Self)
        requires
            flat.wf(),
        ensures
            r.wf(),
            r.index.is_none(),
            r.flat == flat,
            r.metadata == metadata,
    {
        let count = flat.len();
        let dimensionality = flat.dimensionality;
        FvecsDataset { count, dimensionality, index: None, metadata, flat }
    }

    pub fn len(&self) -> (r: usize)
        ensures
            r == self.count,
    {
        self.count
    }

    pub fn get_dimensionality(&self) -> (r: usize)
        ensures
            r == self.dimensionality,
    {
        self.dimensionality
    }

    pub fn get_metadata(&self) -> (r: &HybridSearchMetadata)
        ensures
            r == &self.metadata,
    {
        &self.metadata
    }

    /// Builds the index over the dataset's vectors.
    pub fn initialize(&mut self, opts: &OakIndexOptions) -> (r: Result<(), ConstructionError>)
        requires
            old(self).wf(),
        ensures
            final(self).wf(),
            final(self).flat == old(self).flat,
            final(self).metadata == old(self).metadata,
            final(self).count == old(self).count,
            !opts.valid() <==> r == Err::<(), ConstructionError>(ConstructionError::InvalidOptions),
            opts.valid() && old(self).count > u32::MAX <==> r == Err::<(), ConstructionError>(ConstructionError::CapacityExceeded),
            opts.valid() && old(self).count <= u32::MAX && old(self).dimensionality > max_dim() <==> r == Err::<(), ConstructionError>(
                ConstructionError::ShapeMismatch,
            ),
            r is Ok ==> final(self).index.is_some(),
            r is Ok ==> (final(self).index matches Some(idx) && (idx.num_nodes() >= 2 ==> idx.has_some_edge(0))),
            r is Err ==> final(self).index == old(self).index,
    {
        let rows = self.flat.to_rows();
        let ghost rv = rows@;
        assert(AcornHnswIndex::rows_fit(rows@, self.dimensionality)) by {
            assert forall|i: int| 0 <= i < rows@.len() implies (#[trigger] rows@[i])@.len() == self.dimensionality by {
                lemma_row_in_bounds(self.flat.data@.len() as int, self.dimensionality as int, self.flat.count as int, i);
            }
        }
        match AcornHnswIndex::new(rows, self.dimensionality, opts) {
            Ok(idx) => {
                assert(idx.rows_view() =~= self.flat.rows_view());
                self.index = Some(idx);
                Ok(())
            },
            Err(e) => Err(e),
        }
    }

    /// Searches each query vector under the filter of `predicate_query` (all
    /// vectors when `None`).
    pub fn search(
        &self,
        query_vectors: &FlattenedVecs,
        predicate_query: &Option<PredicateQuery>,
        topk: usize,
        efsearch: usize,
    ) -> (r: Result<Vec<Vec<(usize, u128)>>, SearchableError>)
        requires
            self.wf(),
            query_vectors.wf(),
        ensures
            self.index.is_none() <==> r == Err::<Vec<Vec<(usize, u128)>>, SearchableError>(SearchableError::DatasetIsNotIndexed),
            self.index.is_some() && (query_vectors.dimensionality != self.dimensionality || (predicate_query.is_some()
                && self.metadata.view().len() != self.count)) <==> r == Err::<Vec<Vec<(usize, u128)>>, SearchableError>(
                SearchableError::DimensionMismatch,
            ),
            self.index.is_some() && query_vectors.dimensionality == self.dimensionality && (predicate_query.is_none()
                || self.metadata.view().len() == self.count) ==> r is Ok,
            r matches Ok(res) ==> batch_valid(
                self.flat.rows_view(),
                query_vectors.rows_view(),
                Seq::new(self.count as nat, |i: int| match predicate_query {
                    Some(pq) => pq.spec_matches(self.metadata.view()[i]),
                    None => true,
                }),
                topk,
                res@,
            ),
    {
        if self.index.is_none() {
            return Err(SearchableError::DatasetIsNotIndexed);
        }
        let mask = match predicate_query {
            None => Bitmask::new_full(self.count),
            Some(pq) => Bitmask::new(pq, &self.metadata),
        };
        let ghost want = Seq::new(self.count as nat, |i: int| match predicate_query {
            Some(pq) => pq.spec_matches(self.metadata.view()[i]),
            None => true,
        });
        let r = self.search_with_bitmask(query_vectors, &mask, topk, efsearch);
        proof {
            if mask.view().len() == self.count {
                assert(mask.view() =~= want);
            }
        }
        r
    }

    /// What `search_with_bitmask` returns: `DatasetIsNotIndexed` exactly when
    /// there is no index, else `DimensionMismatch` exactly when the query
    /// dimensionality or the mask length is off, else valid results per query.
    pub open spec fn search_with_bitmask_post(
        &self,
        queries: Seq<Seq<i32>>,
        query_dim: usize,
        mask: Seq<bool>,
        topk: usize,
        r: Result<Vec<Vec<(usize, u128)>>, SearchableError>,
    ) -> bool {
        &&& self.index.is_none() <==> r == Err::<Vec<Vec<(usize, u128)>>, SearchableError>(SearchableError::DatasetIsNotIndexed)
        &&& self.index.is_some() && (query_dim != self.dimensionality || mask.len() != self.count) <==> r == Err::<
            Vec<Vec<(usize, u128)>>,
            SearchableError,
        >(SearchableError::DimensionMismatch)
        &&& self.index.is_some() && query_dim == self.dimensionality && mask.len() == self.count ==> r is Ok
        &&& r matches Ok(res) ==> batch_valid(self.flat.rows_view(), queries, mask, topk, res@)
    }

    /// Searches each query vector under the filter `bitmask`.
    pub fn search_with_bitmask(
        &self,
        query_vectors: &FlattenedVecs,
        bitmask: &Bitmask,
        topk: usize,
        efsearch: usize,
    ) -> (r: Result<Vec<Vec<(usize, u128)>>, SearchableError>)
        requires
            self.wf(),
            query_vectors.wf(),
        ensures
            self.search_with_bitmask_post(query_vectors.rows_view(), query_vectors.dimensionality, bitmask.view(), topk, r),
    {
        match &self.index {
            None => Err(SearchableError::DatasetIsNotIndexed),
            Some(idx) => {
                if query_vectors.dimensionality != self.dimensionality || bitmask.capacity() != self.count {
                    return Err(SearchableError::DimensionMismatch);
                }
                Ok(search_batch(idx, query_vectors, bitmask, topk, efsearch))
            },
        }
    }
}

/// A sub-dataset selected by a bitmask over a parent: a compacted copy of the
/// selected vectors (in ascending parent order), their attributes, an index of
/// its own, and `original_indices[j]`, the parent id of local vector `j`.
pub struct FvecsDatasetPartition {
    pub dimensionality: usize,
    pub mask: Bitmask,
    pub index: Option<AcornHnswIndex>,
    pub vectors: Vec<Vec<i32>>,
    pub metadata: HybridSearchMetadata,
    pub original_indices: Vec<usize>,
}

impl FvecsDatasetPartition {
    pub open spec fn rows_view(&self) -> Seq<Seq<i32>> {
        Seq::new(self.vectors@.len(), |j: int| self.vectors@[j]@)
    }

    /// One local vector per set bit of the mask, mapped back to strictly
    /// ascending parent ids whose bits are set.
    pub open spec fn wf(&self) -> bool {
        &&& self.mask.wf()
        &&& self.vectors@.len() == popcount(self.mask.view())
        &&& self.original_indices@.len() == self.vectors@.len()
        &&& forall|j: int| 0 <= j < self.original_indices@.len() ==> #[trigger] self.original_indices@[j] < self.mask.view().len()
            && self.mask.view()[self.original_indices@[j] as int]
        &&& forall|a: int, b: int| 0 <= a < b < self.original_indices@.len() ==> #[trigger] self.original_indices@[a]
            < #[trigger] self.original_indices@[b]
        &&& forall|j: int| 0 <= j < self.vectors@.len() ==> (#[trigger] self.vectors@[j])@.len() == self.dimensionality
        &&& self.index matches Some(idx) ==> idx.wf() && idx.rows_view() == self.rows_view() && idx.dim == self.dimensionality
    }

    /// The partition was cut from a parent with these vectors.
    pub open spec fn represents(&self, parent_rows: Seq<Seq<i32>>) -> bool {
        &&& self.wf()
        &&& self.mask.view().len() == parent_rows.len()
        &&& forall|j: int| 0 <= j < self.vectors@.len() ==> (#[trigger] self.vectors@[j])@ == parent_rows[self.original_indices@[j] as int]
    }

    /// A result in parent ids: some local vector `j` passing `local_mask` has parent
    /// id `e.0` and squared distance `e.1` to `q`.
    pub open spec fn global_result_ok(&self, q: Seq<i32>, local_mask: Seq<bool>, e: (usize, u128)) -> bool {
        exists|j: int|
            0 <= j < self.original_indices@.len() && #[trigger] self.original_indices@[j] == e.0 && local_mask[j] && e.1 as int
                == crate::distance::sq_dist(q, self.vectors@[j]@)
    }

    /// Cuts the vectors selected by `mask` out of `parent`.
    pub fn new(parent: &FvecsDataset, mask: Bitmask) -> (r: Self)
        requires
            parent.wf(),
            mask.wf(),
            mask.view().len() == parent.count,
        ensures
            r.represents(parent.flat.rows_view()),
            r.mask == mask,
            r.index.is_none(),
            r.dimensionality == parent.dimensionality,
            parent.metadata.view().len() == parent.count ==> r.metadata.view() == select_by(parent.metadata.view(), mask.view()),
    {
        let n = parent.count;
        let mut vectors: Vec<Vec<i32>> = Vec::new();
        let mut original_indices: Vec<usize> = Vec::new();
        let mut i: usize = 0;
        while i < n
            invariant
                parent.wf(),
                mask.wf(),
                n == parent.count,
                mask.view().len() == n,
                i <= n,
                vectors@.len() == popcount_upto(mask.view(), i as int),
                original_indices@.len() == vectors@.len(),
                forall|j: int| 0 <= j < original_indices@.len() ==> #[trigger] original_indices@[j] < i && mask.view()[original_indices@[j] as int],
                forall|a: int, b: int| 0 <= a < b < original_indices@.len() ==> #[trigger] original_indices@[a] < #[trigger] original_indices@[b],
                forall|j: int| 0 <= j < vectors@.len() ==> (#[trigger] vectors@[j])@ == parent.flat.rows_view()[original_indices@[j] as int],
            decreases n - i,
        {
            proof {
                lemma_popcount_upto_bound(mask.view(), i as int);
            }
            if mask.get(i) {
                vectors.push(parent.flat.row(i));
                original_indices.push(i);
            }
            i = i + 1;
        }
        let metadata = if parent.metadata.len() == n {
            HybridSearchMetadata::new_from_bitmask(&parent.metadata, &mask)
        } else {
            HybridSearchMetadata::new(Vec::new())
        };
        let r = FvecsDatasetPartition {
            dimensionality: parent.dimensionality,
            mask,
            index: None,
            vectors,
            metadata,
            original_indices,
        };
        assert forall|j: int| 0 <= j < r.vectors@.len() implies (#[trigger] r.vectors@[j])@.len() == r.dimensionality by {
            lemma_row_in_bounds(parent.flat.data@.len() as int, parent.dimensionality as int, parent.flat.count as int, r.original_indices@[j] as int);
        }
        r
    }

    /// Number of vectors in the partition.
    pub fn len(&self) -> (r: usize)
        requires
            self.wf(),
        ensures
            r == self.vectors@.len(),
    {
        self.mask.bitcount()
    }

    pub fn get_dimensionality(&self) -> (r: usize)
        ensures
            r == self.dimensionality,
    {
        self.dimensionality
    }

    pub fn get_metadata(&self) -> (r: &HybridSearchMetadata)
        ensures
            r == &self.metadata,
    {
        &self.metadata
    }

    /// A mask over the partition with every bit set: the filter used when a
    /// query is sent here without further filtering.
    pub fn select_all_mask(&self) -> (r: Bitmask)
        requires
            self.wf(),
        ensures
            r.wf(),
            r.view().len() == self.vectors@.len(),
            forall|j: int| 0 <= j < r.view().len() ==> r.view()[j],
    {
        Bitmask::new_full(self.len())
    }

    /// Builds the partition's own index over its compacted vectors.
    pub fn initialize(&mut self, opts: &OakIndexOptions) -> (r: Result<(), ConstructionError>)
        requires
            old(self).wf(),
        ensures
            final(self).wf(),
            final(self).vectors == old(self).vectors,
            final(self).original_indices == old(self).original_indices,
            final(self).mask == old(self).mask,
            final(self).dimensionality == old(self).dimensionality,
            !opts.valid() <==> r == Err::<(), ConstructionError>(ConstructionError::InvalidOptions),
            opts.valid() && old(self).vectors@.len() > u32::MAX <==> r == Err::<(), ConstructionError>(
                ConstructionError::CapacityExceeded,
            ),
            opts.valid() && old(self).vectors@.len() <= u32::MAX && old(self).dimensionality > max_dim() <==> r == Err::<
                (),
                ConstructionError,
            >(ConstructionError::ShapeMismatch),
            r is Ok ==> final(self).index.is_some(),
            r is Ok ==> (final(self).index matches Some(idx) && (idx.num_nodes() >= 2 ==> idx.has_some_edge(0))),
    {
        let mut rows: Vec<Vec<i32>> = Vec::new();
        let mut j: usize = 0;
        while j < self.vectors.len()
            invariant
                self.wf(),
                j <= self.vectors@.len(),
                rows@.len() == j,
                forall|a: int| 0 <= a < j ==> (#[trigger] rows@[a])@ == self.vectors@[a]@,
            decreases self.vectors@.len() - j,
        {
            rows.push(copy_row(&self.vectors[j]));
            j = j + 1;
        }
        assert(AcornHnswIndex::rows_fit(rows@, self.dimensionality));
        match AcornHnswIndex::new(rows, self.dimensionality, opts) {
            Ok(idx) => {
                assert(idx.rows_view() =~= self.rows_view());
                self.index = Some(idx);
                Ok(())
            },
            Err(e) => Err(e),
        }
    }

    /// What `search_with_bitmask` returns: `DatasetIsNotIndexed` exactly when
    /// there is no index, else `DimensionMismatch` exactly when the query
    /// dimensionality or the mask length is off, else per query at most `topk`
    /// results, strictly ascending, in parent ids (see `global_result_ok`), and
    /// not empty under an all-ones mask when `topk > 0` and the partition has vectors.
    pub open spec fn search_with_bitmask_post(
        &self,
        queries: Seq<Seq<i32>>,
        query_dim: usize,
        mask: Seq<bool>,
        topk: usize,
        r: Result<Vec<Vec<(usize, u128)>>, SearchableError>,
    ) -> bool {
        &&& self.index.is_none() <==> r == Err::<Vec<Vec<(usize, u128)>>, SearchableError>(SearchableError::DatasetIsNotIndexed)
        &&& self.index.is_some() && (query_dim != self.dimensionality || mask.len() != self.vectors@.len()) <==> r == Err::<
            Vec<Vec<(usize, u128)>>,
            SearchableError,
        >(SearchableError::DimensionMismatch)
        &&& self.index.is_some() && query_dim == self.dimensionality && mask.len() == self.vectors@.len() ==> r is Ok
        &&& r matches Ok(res) ==> {
            &&& res@.len() == queries.len()
            &&& forall|i: int| 0 <= i < res@.len() ==> (#[trigger] res@[i])@.len() <= topk && sorted_results(res@[i]@)
                && forall|t: int| 0 <= t < res@[i]@.len() ==> self.global_result_ok(queries[i], mask, #[trigger] res@[i]@[t])
            &&& topk > 0 && self.vectors@.len() > 0 && (forall|j: int| 0 <= j < mask.len() ==> #[trigger] mask[j])
                ==> forall|i: int| 0 <= i < res@.len() ==> (#[trigger] res@[i])@.len() > 0
        }
    }

    /// Searches each query vector under the filter of `predicate_query` over the
    /// partition's own attributes (all its vectors when `None`), reporting parent ids.
    pub fn search(
        &self,
        query_vectors: &FlattenedVecs,
        predicate_query: &Option<PredicateQuery>,
        topk: usize,
        efsearch: usize,
    ) -> (r: Result<Vec<Vec<(usize, u128)>>, SearchableError>)
        requires
            self.wf(),
            query_vectors.wf(),
        ensures
            predicate_query.is_some() && self.metadata.view().len() != self.vectors@.len() ==> r == Err::<
                Vec<Vec<(usize, u128)>>,
                SearchableError,
            >(SearchableError::PredicateSerializationError),
            predicate_query.is_none() || self.metadata.view().len() == self.vectors@.len() ==> self.search_with_bitmask_post(
                query_vectors.rows_view(),
                query_vectors.dimensionality,
                Seq::new(self.vectors@.len(), |i: int| match predicate_query {
                    Some(pq) => pq.spec_matches(self.metadata.view()[i]),
                    None => true,
                }),
                topk,
                r,
            ),
    {
        let n = self.len();
        let mask = match predicate_query {
            None => Bitmask::new_full(n),
            Some(pq) => {
                if self.metadata.len() != n {
                    return Err(SearchableError::PredicateSerializationError);
                }
                Bitmask::new(pq, &self.metadata)
            },
        };
        let ghost want = Seq::new(self.vectors@.len(), |i: int| match predicate_query {
            Some(pq) => pq.spec_matches(self.metadata.view()[i]),
            None => true,
        });
        assert(mask.view() =~= want);
        self.search_with_bitmask(query_vectors, &mask, topk, efsearch)
    }

    /// Searches each query vector under `bitmask`, a filter over the
    /// partition's own vectors, and reports parent ids.
    pub fn search_with_bitmask(
        &self,
        query_vectors: &FlattenedVecs,
        bitmask: &Bitmask,
        topk: usize,
        efsearch: usize,
    ) -> (r: Result<Vec<Vec<(usize, u128)>>, SearchableError>)
        requires
            self.wf(),
            query_vectors.wf(),
        ensures
            self.search_with_bitmask_post(query_vectors.rows_view(), query_vectors.dimensionality, bitmask.view(), topk, r),
    {
        match &self.index {
            None => Err(SearchableError::DatasetIsNotIndexed),
            Some(idx) => {
                if query_vectors.dimensionality != self.dimensionality || bitmask.capacity() != self.vectors.len() {
                    return Err(SearchableError::DimensionMismatch);
                }
                assert(idx.rows_view().len() == self.rows_view().len());
                let local = search_batch(idx, query_vectors, bitmask, topk, efsearch);
                let mut out: Vec<Vec<(usize, u128)>> = Vec::new();
                let mut i: usize = 0;
                while i < local.len()
                    invariant
                        self.wf(),
                        self.index == Some(*idx),
                        batch_valid(idx.rows_view(), query_vectors.rows_view(), bitmask.view(), topk, local@),
                        i <= local@.len(),
                        out@.len() == i,
                        forall|a: int| 0 <= a < i ==> (#[trigger] out@[a])@.len() <= topk && sorted_results(out@[a]@)
                            && forall|t: int| 0 <= t < out@[a]@.len() ==> self.global_result_ok(
                                query_vectors.rows_view()[a],
                                bitmask.view(),
                                #[trigger] out@[a]@[t],
                            ),
                        forall|a: int| 0 <= a < i ==> (#[trigger] out@[a])@.len() == local@[a]@.len(),
                    decreases local@.len() - i,
                {
                    let mapped = self.to_parent_ids(&local[i], Ghost(query_vectors.rows_view()[i as int]), bitmask);
                    out.push(mapped);
                    i = i + 1;
                }
                assert(idx.rows_view().len() == self.vectors@.len());
                Ok(out)
            },
        }
    }

    /// Rewrites one local result list in parent ids.
    fn to_parent_ids(&self, local: &Vec<(usize, u128)>, q: Ghost<Seq<i32>>, bitmask: &Bitmask) -> (r: Vec<(usize, u128)>)
        requires
            self.wf(),
            self.index matches Some(idx) && results_valid(idx.rows_view(), q@, bitmask.view(), local@.len() as usize, local@),
        ensures
            r@.len() == local@.len(),
            sorted_results(r@),
            forall|t: int| 0 <= t < r@.len() ==> self.global_result_ok(q@, bitmask.view(), #[trigger] r@[t]),
    {
        let ghost idx = self.index->Some_0;
        let mut out: Vec<(usize, u128)> = Vec::new();
        let mut t: usize = 0;
        while t < local.len()
            invariant
                self.wf(),
                self.index == Some(idx),
                results_valid(idx.rows_view(), q@, bitmask.view(), local@.len() as usize, local@),
                t <= local@.len(),
                out@.len() == t,
                forall|a: int| 0 <= a < t ==> (#[trigger] out@[a]) == (self.original_indices@[local@[a].0 as int], local@[a].1),
            decreases local@.len() - t,
        {
            let e = local[t];
            assert(result_ok(idx.rows_view(), q@, bitmask.view(), local@[t as int]));
            out.push((self.original_indices[e.0], e.1));
            t = t + 1;
        }
        proof {
            assert forall|a: int| 0 <= a < out@.len() implies self.global_result_ok(q@, bitmask.view(), #[trigger] out@[a]) by {
                assert(result_ok(idx.rows_view(), q@, bitmask.view(), local@[a]));
                let j = local@[a].0 as int;
                assert(self.original_indices@[j] == out@[a].0);
            }
            assert forall|a: int, b: int| 0 <= a < b < out@.len() implies result_lt(#[trigger] out@[a], #[trigger] out@[b]) by {
                assert(result_lt(local@[a], local@[b]));
                assert(result_ok(idx.rows_view(), q@, bitmask.view(), local@[a]));
                assert(result_ok(idx.rows_view(), q@, bitmask.view(), local@[b]));
                let ja = local@[a].0 as int;
                let jb = local@[b].0 as int;
                if ja < jb {
                    assert(self.original_indices@[ja] < self.original_indices@[jb]);
                }
            }
        }
        out
    }
}

impl FvecsDataset {
    /// The partition of the vectors whose attribute satisfies `pq`.
    pub fn view(&self, pq: &PredicateQuery) -> (r: FvecsDatasetPartition)
        requires
            self.wf(),
            self.metadata.view().len() == self.count,
        ensures
            r.represents(self.flat.rows_view()),
            r.index.is_none(),
            forall|i: int| 0 <= i < self.count ==> r.mask.view()[i] == pq.spec_matches(#[trigger] self.metadata.view()[i]),
    {
        let mask = Bitmask::new(pq, &self.metadata);
        FvecsDatasetPartition::new(self, mask)
    }
}

} // verus!
