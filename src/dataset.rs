use vstd::prelude::*;

use crate::bitmask::Bitmask;

verus! {

/// The errors that searching a dataset can return.
#[derive(Debug, Clone, Copy, PartialEq, Eq, Structural)]
pub enum SearchableError {
    /// Search was called before the index was built.
    DatasetIsNotIndexed,
    /// The predicate could not be turned into a filter.
    PredicateSerializationError,
    /// The query or the filter does not fit the dataset's shape.
    DimensionMismatch,
    /// Two bitmasks of different lengths were combined.
    LengthMismatch,
}

/// The errors that building an index can return.
#[derive(Debug, Clone, Copy, PartialEq, Eq, Structural)]
pub enum ConstructionError {
    /// More vectors than 32-bit node ids can address.
    CapacityExceeded,
    /// Attribute count, vector count or dimensionality do not agree.
    ShapeMismatch,
    /// An index parameter is out of its allowed range.
    InvalidOptions,
}

/// The attributes for hybrid search: one `i32` tag per vector.
pub struct HybridSearchMetadata {
    pub attrs: Vec<i32>,
}

impl HybridSearchMetadata {
    pub open spec fn view(&self) -> Seq<i32> {
        self.attrs@
    }

    pub fn new(attrs: Vec<i32>) -> (r: Self)
        ensures
            r.view() == attrs@,
    {
        HybridSearchMetadata { attrs }
    }

    /// Keeps the attributes whose bit is set in `mask`, in dataset order.
    pub fn new_from_bitmask(other: &Self, mask: &Bitmask) -> (r: Self)
        requires
            mask.wf(),
            mask.view().len() == other.view().len(),
        ensures
            r.view() == crate::bitmask::select_by(other.view(), mask.view()),
    {
        let mut attrs: Vec<i32> = Vec::new();
        let mut i: usize = 0;
        let n = other.attrs.len();
        while i < n
            invariant
                n == other.view().len(),
                mask.wf(),
                mask.view().len() == n,
                i <= n,
                attrs@ == crate::bitmask::select_by(other.view().take(i as int), mask.view().take(i as int)),
            decreases n - i,
        {
            proof {
                crate::bitmask::lemma_select_by_push(other.view(), mask.view(), i as int);
            }
            if mask.get(i) {
                attrs.push(other.attrs[i]);
            }
            i = i + 1;
        }
        proof {
            assert(other.view().take(n as int) == other.view());
            assert(mask.view().take(n as int) == mask.view());
        }
        HybridSearchMetadata { attrs }
    }

    pub fn len(&self) -> (r: usize)
        ensures
            r == self.view().len(),
    {
        self.attrs.len()
    }

    /// The tag of vector `i`.
    pub fn get(&self, i: usize) -> (r: i32)
        requires
            i < self.view().len(),
        ensures
            r == self.view()[i as int],
    {
        self.attrs[i]
    }

    /// All tags, in vector order.
    pub fn as_slice(&self) -> (r: &[i32])
        ensures
            r@ == self.view(),
    {
        self.attrs.as_slice()
    }
}

/// Parameters of the ACORN index.
#[derive(Clone, Copy, Debug, PartialEq, Eq, Structural)]
pub struct OakIndexOptions {
    /// Degree bound on the layers above the ground layer.
    pub m: i32,
    /// Neighbor expansion factor on the ground layer.
    pub gamma: i32,
    /// Neighbors always kept when a ground-layer list is pruned; also the cap on
    /// the one-hop expansion through filtered-out nodes.
    pub m_beta: i32,
    /// Beam width while building.
    pub ef_construction: i32,
    /// Seed of the generator that draws each node's top layer.
    pub seed: u64,
}

impl OakIndexOptions {
    /// The ranges the index accepts: `2 <= m <= 65535`, `1 <= gamma <= 65535`,
    /// `m_beta >= 0`, `ef_construction >= 1`.
    pub open spec fn valid(&self) -> bool {
        &&& 2 <= self.m <= u16::MAX
        &&& 1 <= self.gamma <= u16::MAX
        &&& 0 <= self.m_beta
        &&& 1 <= self.ef_construction
    }

    pub fn is_valid(&self) -> (r: bool)
        ensures
            r == self.valid(),
    {
        2 <= self.m && self.m <= 65535 && 1 <= self.gamma && self.gamma <= 65535 && 0 <= self.m_beta
            && 1 <= self.ef_construction
    }
}

impl Default for OakIndexOptions {
    fn default() -> (r: Self)
        ensures
            r.m == 32 && r.gamma == 1 && r.m_beta == 64 && r.ef_construction == 40 && r.seed == 0,
    {
        OakIndexOptions { gamma: 1, m: 32, m_beta: 64, ef_construction: 40, seed: 0 }
    }
}

} // verus!
