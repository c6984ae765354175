use vstd::prelude::*;

use crate::dataset::{HybridSearchMetadata, SearchableError};
use crate::predicate::PredicateQuery;
use std::collections::HashSet;

verus! {

/// Number of set bits among the first `n` positions of `s`.
pub open spec fn popcount_upto(s: Seq<bool>, n: int) -> nat
    decreases n,
{
    if n <= 0 {
        0
    } else {
        popcount_upto(s, n - 1) + if s[n - 1] { 1nat } else { 0nat }
    }
}

/// Number of set bits of `s`.
pub open spec fn popcount(s: Seq<bool>) -> nat {
    popcount_upto(s, s.len() as int)
}

/// Number of positions below `n` set in both `a` and `b`.
pub open spec fn inter_upto(a: Seq<bool>, b: Seq<bool>, n: int) -> nat
    decreases n,
{
    if n <= 0 {
        0
    } else {
        inter_upto(a, b, n - 1) + if a[n - 1] && b[n - 1] { 1nat } else { 0nat }
    }
}

/// Number of positions below `n` set in `a` or in `b`.
pub open spec fn union_upto(a: Seq<bool>, b: Seq<bool>, n: int) -> nat
    decreases n,
{
    if n <= 0 {
        0
    } else {
        union_upto(a, b, n - 1) + if a[n - 1] || b[n - 1] { 1nat } else { 0nat }
    }
}

/// `|A ∩ B|` for two masks read as sets of positions.
pub open spec fn intersection_size(a: Seq<bool>, b: Seq<bool>) -> nat {
    inter_upto(a, b, a.len() as int)
}

/// `|A ∪ B|` for two masks read as sets of positions.
pub open spec fn union_size(a: Seq<bool>, b: Seq<bool>) -> nat {
    union_upto(a, b, a.len() as int)
}

/// The mask with every bit flipped.
pub open spec fn complement(a: Seq<bool>) -> Seq<bool> {
    Seq::new(a.len(), |i: int| !a[i])
}

/// The elements of `s` whose bit in `bits` is set, in order.
pub open spec fn select_by<A>(s: Seq<A>, bits: Seq<bool>) -> Seq<A>
    decreases s.len(),
{
    if s.len() == 0 || bits.len() == 0 {
        Seq::empty()
    } else {
        select_by(s.drop_last(), bits.drop_last()) + if bits.last() {
            seq![s.last()]
        } else {
            Seq::empty()
        }
    }
}

pub proof fn lemma_select_by_push<A>(s: Seq<A>, bits: Seq<bool>, i: int)
    requires
        0 <= i < s.len(),
        s.len() == bits.len(),
    ensures
        select_by(s.take(i + 1), bits.take(i + 1)) == select_by(s.take(i), bits.take(i)) + if bits[i] {
            seq![s[i]]
        } else {
            Seq::empty()
        },
{
    assert(s.take(i + 1).drop_last() == s.take(i));
    assert(bits.take(i + 1).drop_last() == bits.take(i));
}

pub proof fn lemma_popcount_upto_ext(s: Seq<bool>, t: Seq<bool>, n: int)
    requires
        0 <= n <= s.len(),
        n <= t.len(),
        forall|i: int| 0 <= i < n ==> s[i] == t[i],
    ensures
        popcount_upto(s, n) == popcount_upto(t, n),
    decreases n,
{
    if n > 0 {
        lemma_popcount_upto_ext(s, t, n - 1);
    }
}

pub proof fn lemma_popcount_upto_bound(s: Seq<bool>, n: int)
    requires
        0 <= n,
    ensures
        popcount_upto(s, n) <= n,
    decreases n,
{
    if n > 0 {
        lemma_popcount_upto_bound(s, n - 1);
    }
}

proof fn lemma_inter_union_upto(a: Seq<bool>, b: Seq<bool>, n: int)
    requires
        0 <= n,
    ensures
        inter_upto(a, b, n) <= union_upto(a, b, n),
        union_upto(a, b, n) <= n,
    decreases n,
{
    if n > 0 {
        lemma_inter_union_upto(a, b, n - 1);
    }
}

proof fn lemma_self_upto(a: Seq<bool>, n: int)
    requires
        0 <= n,
    ensures
        inter_upto(a, a, n) == popcount_upto(a, n),
        union_upto(a, a, n) == popcount_upto(a, n),
    decreases n,
{
    if n > 0 {
        lemma_self_upto(a, n - 1);
    }
}

proof fn lemma_complement_upto(a: Seq<bool>, n: int)
    requires
        0 <= n <= a.len(),
    ensures
        inter_upto(a, complement(a), n) == 0,
        union_upto(a, complement(a), n) == n,
    decreases n,
{
    if n > 0 {
        lemma_complement_upto(a, n - 1);
    }
}

/// Jaccard bounds: for masks of one length, `0 <= |A∩B| <= |A∪B| <= N`, so the
/// similarity lies in `[0, 1]`.
pub proof fn lemma_jaccard_bounds(a: Seq<bool>, b: Seq<bool>)
    requires
        a.len() == b.len(),
    ensures
        intersection_size(a, b) <= union_size(a, b),
        union_size(a, b) <= a.len(),
        jaccard_at_most_one(jaccard_of(a, b)),
{
    lemma_inter_union_upto(a, b, a.len() as int);
}

/// A mask with at least one set bit has Jaccard similarity exactly 1 with itself.
pub proof fn lemma_jaccard_self(a: Seq<bool>)
    requires
        popcount(a) > 0,
    ensures
        intersection_size(a, a) == union_size(a, a),
        union_size(a, a) == popcount(a),
        jaccard_is_one(jaccard_of(a, a)),
{
    lemma_self_upto(a, a.len() as int);
}

/// A mask and its complement have Jaccard similarity exactly 0.
pub proof fn lemma_jaccard_complement(a: Seq<bool>)
    ensures
        intersection_size(a, complement(a)) == 0,
        union_size(a, complement(a)) == a.len(),
        jaccard_is_zero(jaccard_of(a, complement(a))),
{
    lemma_complement_upto(a, a.len() as int);
}

/// The Jaccard similarity `|A∩B| / |A∪B|`, kept as the exact pair of counts.
/// When both masks are empty the union is 0 and the similarity is read as 0.
#[derive(Clone, Copy, Debug, PartialEq, Eq, Structural)]
pub struct Jaccard {
    pub intersection_count: usize,
    pub union_count: usize,
}

/// The Jaccard pair of two masks, as mathematical counts.
pub open spec fn jaccard_of(a: Seq<bool>, b: Seq<bool>) -> (nat, nat) {
    (intersection_size(a, b), union_size(a, b))
}

/// The similarity is 0.
pub open spec fn jaccard_is_zero(j: (nat, nat)) -> bool {
    j.0 == 0
}

/// The similarity is 1.
pub open spec fn jaccard_is_one(j: (nat, nat)) -> bool {
    j.1 > 0 && j.0 == j.1
}

/// The similarity is at most 1.
pub open spec fn jaccard_at_most_one(j: (nat, nat)) -> bool {
    j.0 <= j.1
}

impl Jaccard {
    pub open spec fn view(&self) -> (nat, nat) {
        (self.intersection_count as nat, self.union_count as nat)
    }
}

/// A dense filter over a dataset: bit `i` says whether vector `i` passes a predicate.
/// Bits are stored one per byte (0 or 1), and the number of set bits is cached.
pub struct Bitmask {
    pub map: Vec<i8>,
    pub bitcount: usize,
}

impl Bitmask {
    /// The bits as booleans.
    pub open spec fn view(&self) -> Seq<bool> {
        Seq::new(self.map@.len(), |i: int| self.map@[i] == 1)
    }

    /// Every byte is 0 or 1 and the cached count is the number of ones.
    pub open spec fn wf(&self) -> bool {
        &&& forall|i: int| 0 <= i < self.map@.len() ==> #[trigger] self.map@[i] == 0 || self.map@[i] == 1
        &&& self.bitcount == popcount(self.view())
    }

    pub open spec fn spec_bitcount(&self) -> usize {
        self.bitcount
    }

    /// Builds the filter of `pq` over the attributes of a dataset: bit `i` is set
    /// exactly when attribute `i` satisfies the predicate.
    pub fn new(pq: &PredicateQuery, metadata: &HybridSearchMetadata) -> (r: Self)
        ensures
            r.wf(),
            r.view().len() == metadata.view().len(),
            forall|i: int| 0 <= i < r.view().len() ==> r.view()[i] == pq.spec_matches(#[trigger] metadata.view()[i]),
    {
        let n = metadata.len();
        let mut map: Vec<i8> = Vec::new();
        let mut bitcount: usize = 0;
        let mut i: usize = 0;
        while i < n
            invariant
                n == metadata.view().len(),
                i <= n,
                map@.len() == i,
                forall|j: int| 0 <= j < i ==> #[trigger] map@[j] == 0 || map@[j] == 1,
                forall|j: int| 0 <= j < i ==> (#[trigger] map@[j] == 1) == pq.spec_matches(metadata.view()[j]),
                bitcount == popcount_upto(Seq::new(map@.len(), |j: int| map@[j] == 1), i as int),
            decreases n - i,
        {
            let ghost old_bits = Seq::new(map@.len(), |j: int| map@[j] == 1);
            proof {
                lemma_popcount_upto_bound(old_bits, i as int);
            }
            let bit = pq.matches(metadata.get(i));
            if bit {
                map.push(1);
                bitcount = bitcount + 1;
            } else {
                map.push(0);
            }
            proof {
                let new_bits = Seq::new(map@.len(), |j: int| map@[j] == 1);
                lemma_popcount_upto_ext(old_bits, new_bits, i as int);
            }
            i = i + 1;
        }
        Bitmask { map, bitcount }
    }

    /// A mask of length `n` with every bit set.
    pub fn new_full(n: usize) -> (r: Self)
        ensures
            r.wf(),
            r.view().len() == n,
            forall|i: int| 0 <= i < n ==> r.view()[i],
            r.spec_bitcount() == n,
    {
        let mut map: Vec<i8> = Vec::new();
        let mut i: usize = 0;
        while i < n
            invariant
                i <= n,
                map@.len() == i,
                forall|j: int| 0 <= j < i ==> #[trigger] map@[j] == 1,
                popcount(Seq::new(map@.len(), |j: int| map@[j] == 1)) == i,
            decreases n - i,
        {
            let ghost old_bits = Seq::new(map@.len(), |j: int| map@[j] == 1);
            map.push(1);
            proof {
                let new_bits = Seq::new(map@.len(), |j: int| map@[j] == 1);
                lemma_popcount_upto_ext(old_bits, new_bits, i as int);
            }
            i = i + 1;
        }
        Bitmask { map, bitcount: n }
    }

    /// A mask of length `n` with no bit set.
    pub fn new_empty(n: usize) -> (r: Self)
        ensures
            r.wf(),
            r.view().len() == n,
            forall|i: int| 0 <= i < n ==> !r.view()[i],
            r.spec_bitcount() == 0,
    {
        let mut map: Vec<i8> = Vec::new();
        let mut i: usize = 0;
        while i < n
            invariant
                i <= n,
                map@.len() == i,
                forall|j: int| 0 <= j < i ==> #[trigger] map@[j] == 0,
                popcount(Seq::new(map@.len(), |j: int| map@[j] == 1)) == 0,
            decreases n - i,
        {
            let ghost old_bits = Seq::new(map@.len(), |j: int| map@[j] == 1);
            map.push(0);
            proof {
                let new_bits = Seq::new(map@.len(), |j: int| map@[j] == 1);
                lemma_popcount_upto_ext(old_bits, new_bits, i as int);
            }
            i = i + 1;
        }
        Bitmask { map, bitcount: 0 }
    }

    /// Builds a mask from bytes; `None` unless every byte is 0 or 1.
    pub fn from_map(map: Vec<i8>) -> (r: Option<Self>)
        ensures
            (forall|i: int| 0 <= i < map@.len() ==> #[trigger] map@[i] == 0 || map@[i] == 1) <==> r.is_some(),
            r matches Some(m) ==> m.wf() && m.view() == Seq::new(map@.len(), |i: int| map@[i] == 1),
    {
        let n = map.len();
        let mut bitcount: usize = 0;
        let mut i: usize = 0;
        let ghost bits = Seq::new(map@.len(), |j: int| map@[j] == 1);
        while i < n
            invariant
                n == map@.len(),
                bits == Seq::new(map@.len(), |j: int| map@[j] == 1),
                i <= n,
                forall|j: int| 0 <= j < i ==> #[trigger] map@[j] == 0 || map@[j] == 1,
                bitcount == popcount_upto(bits, i as int),
            decreases n - i,
        {
            proof {
                lemma_popcount_upto_bound(bits, i as int);
            }
            if map[i] == 1 {
                bitcount = bitcount + 1;
            } else if map[i] != 0 {
                return None;
            }
            i = i + 1;
        }
        Some(Bitmask { map, bitcount })
    }

    /// Number of bits (the length of the dataset the mask filters).
    pub fn capacity(&self) -> (r: usize)
        ensures
            r == self.view().len(),
    {
        self.map.len()
    }

    /// Number of set bits.
    pub fn bitcount(&self) -> (r: usize)
        requires
            self.wf(),
        ensures
            r == popcount(self.view()),
    {
        self.bitcount
    }

    /// Bit `i`.
    pub fn get(&self, i: usize) -> (r: bool)
        requires
            i < self.view().len(),
        ensures
            r == self.view()[i as int],
    {
        self.map[i] == 1
    }

    /// Sets bit `i`, keeping the count exact.
    pub fn set(&mut self, i: usize)
        requires
            old(self).wf(),
            i < old(self).view().len(),
        ensures
            final(self).wf(),
            final(self).view() == old(self).view().update(i as int, true),
    {
        let ghost old_bits = self.view();
        if self.map[i] != 1 {
            proof {
                assert(self.map.len() <= usize::MAX);
                lemma_popcount_set(old_bits, i as int);
                lemma_popcount_upto_bound(old_bits.update(i as int, true), old_bits.len() as int);
            }
            self.map.set(i, 1);
            self.bitcount = self.bitcount + 1;
            assert(self.view() == old_bits.update(i as int, true));
        } else {
            assert(self.view() == old_bits.update(i as int, true));
        }
    }

    /// The bytes of the mask, one per vector.
    pub fn as_slice(&self) -> (r: &[i8])
        ensures
            r@ == self.map@,
    {
        self.map.as_slice()
    }

    /// The distinct byte values occurring in the mask.
    pub fn to_hashset(&self) -> (r: HashSet<i8>)
        ensures
            forall|v: i8| r@.contains(v) <==> exists|i: int| 0 <= i < self.map@.len() && self.map@[i] == v,
    {
        broadcast use vstd::std_specs::hash::group_hash_axioms;
        let mut s: HashSet<i8> = HashSet::new();
        let mut i: usize = 0;
        while i < self.map.len()
            invariant
                i <= self.map@.len(),
                forall|v: i8| s@.contains(v) <==> exists|j: int| 0 <= j < i && self.map@[j] == v,
            decreases self.map@.len() - i,
        {
            s.insert(self.map[i]);
            proof {
                assert forall|v: i8| s@.contains(v) <==> exists|j: int| 0 <= j < i + 1 && self.map@[j] == v by {
                    if v == self.map@[i as int] {
                        assert(0 <= i < i + 1 && self.map@[i as int] == v);
                    }
                }
            }
            i = i + 1;
        }
        s
    }

    /// Jaccard similarity `|A∩B| / |A∪B|`; fails with `LengthMismatch` when the
    /// masks differ in length.
    pub fn jaccard_similarity(&self, other: &Self) -> (r: Result<Jaccard, SearchableError>)
        ensures
            self.view().len() != other.view().len() <==> r == Err::<Jaccard, SearchableError>(SearchableError::LengthMismatch),
            self.view().len() == other.view().len() <==> r is Ok,
            r matches Ok(j) ==> j.view() == jaccard_of(self.view(), other.view()),
    {
        let n = self.map.len();
        if n != other.map.len() {
            return Err(SearchableError::LengthMismatch);
        }
        let mut inter: usize = 0;
        let mut uni: usize = 0;
        let mut i: usize = 0;
        while i < n
            invariant
                n == self.view().len(),
                n == other.view().len(),
                i <= n,
                inter == inter_upto(self.view(), other.view(), i as int),
                uni == union_upto(self.view(), other.view(), i as int),
            decreases n - i,
        {
            proof {
                lemma_inter_union_upto(self.view(), other.view(), i as int);
            }
            let a = self.map[i] == 1;
            let b = other.map[i] == 1;
            if a && b {
                inter = inter + 1;
            }
            if a || b {
                uni = uni + 1;
            }
            i = i + 1;
        }
        Ok(Jaccard { intersection_count: inter, union_count: uni })
    }
}

pub proof fn lemma_popcount_set(s: Seq<bool>, i: int)
    requires
        0 <= i < s.len(),
        !s[i],
    ensures
        popcount(s.update(i, true)) == popcount(s) + 1,
{
    lemma_popcount_set_upto(s, i, s.len() as int);
}

proof fn lemma_popcount_set_upto(s: Seq<bool>, i: int, n: int)
    requires
        0 <= i < s.len(),
        0 <= n <= s.len(),
        !s[i],
    ensures
        popcount_upto(s.update(i, true), n) == popcount_upto(s, n) + if i < n { 1int } else { 0int },
    decreases n,
{
    if n > 0 {
        lemma_popcount_set_upto(s, i, n - 1);
    }
}

} // verus!
