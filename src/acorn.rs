use vstd::prelude::*;

use crate::bitmask::{lemma_popcount_set, lemma_popcount_upto_bound, popcount, Bitmask};
use crate::dataset::{ConstructionError, OakIndexOptions, SearchableError};
use crate::levels::{draw_levels, seeded_levels, MAX_LEVEL};
use crate::distance::{max_dim, sq_dist, squared_distance};

verus! {

/// A search entry: squared distance to the query, then node id.
pub type Entry = (u128, usize);

/// The order on entries: by distance, ties broken by the smaller id.
pub open spec fn entry_lt(a: Entry, b: Entry) -> bool {
    a.0 < b.0 || (a.0 == b.0 && a.1 < b.1)
}

/// Strictly increasing in the entry order (so also free of repeated ids).
/// The order on result pairs `(id, distance)`: by distance, ties by id.
pub open spec fn result_lt(a: (usize, u128), b: (usize, u128)) -> bool {
    a.1 < b.1 || (a.1 == b.1 && a.0 < b.0)
}

/// A result pair names a vector that passes the mask, with its true squared distance.
pub open spec fn result_ok(rows: Seq<Seq<i32>>, q: Seq<i32>, mask: Seq<bool>, e: (usize, u128)) -> bool {
    &&& e.0 < rows.len()
    &&& mask[e.0 as int]
    &&& e.1 as int == sq_dist(q, rows[e.0 as int])
}

/// What a successful search returns over `rows`: at most `k` pairs, each naming
/// a vector that passes the mask with its exact squared distance, strictly
/// ascending by distance and then id.
pub open spec fn results_valid(rows: Seq<Seq<i32>>, q: Seq<i32>, mask: Seq<bool>, k: usize, res: Seq<(usize, u128)>) -> bool {
    &&& res.len() <= k
    &&& forall|i: int| 0 <= i < res.len() ==> result_ok(rows, q, mask, #[trigger] res[i])
    &&& sorted_results(res)
}

/// Strictly increasing in the result order.
pub open spec fn sorted_results(s: Seq<(usize, u128)>) -> bool {
    forall|i: int, j: int| 0 <= i < j < s.len() ==> result_lt(#[trigger] s[i], #[trigger] s[j])
}

pub open spec fn sorted_entries(s: Seq<Entry>) -> bool {
    forall|i: int, j: int| 0 <= i < j < s.len() ==> entry_lt(#[trigger] s[i], #[trigger] s[j])
}

/// Whether node `i` passes the optional filter.
pub open spec fn spec_passes(mask: Option<&Bitmask>, i: int) -> bool {
    match mask {
        Some(mk) => mk.view()[i],
        None => true,
    }
}

fn passes(mask: Option<&Bitmask>, i: usize) -> (r: bool)
    requires
        mask matches Some(mk) ==> i < mk.view().len(),
    ensures
        r == spec_passes(mask, i as int),
{
    match mask {
        Some(mk) => mk.get(i),
        None => true,
    }
}

/// Inserts `e` at its place in a sorted list, unless it is there already.
fn insert_sorted(v: &mut Vec<Entry>, e: Entry)
    requires
        sorted_entries(old(v)@),
    ensures
        sorted_entries(final(v)@),
        final(v)@.len() <= old(v)@.len() + 1,
        forall|x: Entry| #[trigger] final(v)@.contains(x) ==> (old(v)@.contains(x) || x == e),
        forall|x: Entry| #[trigger] old(v)@.contains(x) ==> final(v)@.contains(x),
        final(v)@.contains(e),
{
    let mut p: usize = 0;
    while p < v.len() && entry_lt_exec(v[p], e)
        invariant
            p <= v@.len(),
            forall|i: int| 0 <= i < p ==> entry_lt(#[trigger] v@[i], e),
        decreases v@.len() - p,
    {
        p = p + 1;
    }
    if p < v.len() && v[p].0 == e.0 && v[p].1 == e.1 {
        assert(v@[p as int] == e);
        assert(v@.contains(e));
        return;
    }
    let ghost old_v = v@;
    v.insert(p, e);
    proof {
        assert forall|i: int, j: int| 0 <= i < j < v@.len() implies entry_lt(#[trigger] v@[i], #[trigger] v@[j]) by {
            if j < p {
            } else if j == p {
            } else if i == p {
                assert(v@[j] == old_v[j - 1]);
                assert(!entry_lt(old_v[p as int], e));
                if j - 1 > p {
                    assert(entry_lt(old_v[p as int], old_v[j - 1]));
                }
            } else if i < p {
                assert(v@[j] == old_v[j - 1]);
            } else {
                assert(v@[i] == old_v[i - 1] && v@[j] == old_v[j - 1]);
            }
        }
        assert forall|x: Entry| #[trigger] old_v.contains(x) implies v@.contains(x) by {
            let k = choose|k: int| 0 <= k < old_v.len() && old_v[k] == x;
            if k < p {
                assert(v@[k] == x);
            } else {
                assert(v@[k + 1] == x);
            }
        }
        assert(v@[p as int] == e);
        assert forall|x: Entry| #[trigger] v@.contains(x) implies old_v.contains(x) || x == e by {
            let k = choose|k: int| 0 <= k < v@.len() && v@[k] == x;
            if k < p {
                assert(old_v[k] == x);
            } else if k > p {
                assert(old_v[k - 1] == x);
            }
        }
    }
}

fn entry_lt_exec(a: Entry, b: Entry) -> (r: bool)
    ensures
        r == entry_lt(a, b),
{
    a.0 < b.0 || (a.0 == b.0 && a.1 < b.1)
}

fn falses(n: usize) -> (r: Vec<bool>)
    ensures
        r@.len() == n,
        forall|i: int| 0 <= i < n ==> !#[trigger] r@[i],
        popcount(r@) == 0,
{
    let mut v: Vec<bool> = Vec::new();
    let mut i: usize = 0;
    while i < n
        invariant
            i <= n,
            v@.len() == i,
            forall|j: int| 0 <= j < i ==> !#[trigger] v@[j],
        decreases n - i,
    {
        v.push(false);
        i = i + 1;
    }
    proof {
        lemma_popcount_zero(v@, n as int);
    }
    v
}

proof fn lemma_popcount_zero(s: Seq<bool>, n: int)
    requires
        0 <= n <= s.len(),
        forall|j: int| 0 <= j < n ==> !#[trigger] s[j],
    ensures
        crate::bitmask::popcount_upto(s, n) == 0,
    decreases n,
{
    if n > 0 {
        lemma_popcount_zero(s, n - 1);
    }
}

/// The list without `x`, order kept.
fn without(list: &Vec<usize>, x: usize) -> (r: Vec<usize>)
    ensures
        r@.len() <= list@.len(),
        forall|y: usize| #[trigger] r@.contains(y) <==> (list@.contains(y) && y != x),
        list@.no_duplicates() ==> r@.no_duplicates(),
        forall|j: int| 0 <= j < r@.len() ==> exists|k: int| 0 <= k < list@.len() && #[trigger] r@[j] == list@[k],
{
    let mut out: Vec<usize> = Vec::new();
    let mut i: usize = 0;
    while i < list.len()
        invariant
            i <= list@.len(),
            out@.len() <= i,
            forall|y: usize| #[trigger] out@.contains(y) <==> (list@.take(i as int).contains(y) && y != x),
            list@.no_duplicates() ==> out@.no_duplicates(),
            forall|j: int| 0 <= j < out@.len() ==> exists|k: int| 0 <= k < i && #[trigger] out@[j] == list@[k],
        decreases list@.len() - i,
    {
        let y = list[i];
        let ghost before = out@;
        proof {
            let t1 = list@.take(i + 1);
            let t0 = list@.take(i as int);
            assert forall|z: usize| #[trigger] t1.contains(z) <==> (t0.contains(z) || z == y) by {
                if t1.contains(z) {
                    let k = choose|k: int| 0 <= k < t1.len() && t1[k] == z;
                    if k < i {
                        assert(t0[k] == z);
                    }
                }
                if t0.contains(z) {
                    let k = choose|k: int| 0 <= k < t0.len() && t0[k] == z;
                    assert(t1[k] == z);
                }
                if z == y {
                    assert(t1[i as int] == z);
                }
            }
        }
        if y != x {
            out.push(y);
            proof {
                assert forall|z: usize| #[trigger] out@.contains(z) <==> (before.contains(z) || z == y) by {
                    if out@.contains(z) {
                        let k = choose|k: int| 0 <= k < out@.len() && out@[k] == z;
                        if k < before.len() {
                            assert(before[k] == z);
                        }
                    }
                    if before.contains(z) {
                        let k = choose|k: int| 0 <= k < before.len() && before[k] == z;
                        assert(out@[k] == z);
                    }
                    if z == y {
                        assert(out@[before.len() as int] == z);
                    }
                }
                if list@.no_duplicates() {
                    assert(!before.contains(y)) by {
                        if before.contains(y) {
                            assert(list@.take(i as int).contains(y));
                            let t0 = list@.take(i as int);
                            let k = choose|k: int| 0 <= k < t0.len() && t0[k] == y;
                            assert(list@[k] == list@[i as int]);
                        }
                    }
                    assert forall|a: int, b: int| 0 <= a < b < out@.len() implies #[trigger] out@[a] != #[trigger] out@[b] by {
                        if b == before.len() {
                            if out@[a] == out@[b] {
                                assert(before[a] == y);
                                assert(before.contains(y));
                            }
                        }
                    }
                }
                assert forall|j: int| 0 <= j < out@.len() implies exists|k: int| 0 <= k < i + 1 && #[trigger] out@[j] == list@[k] by {
                    if j < before.len() {
                        assert(out@[j] == before[j]);
                    } else {
                        assert(out@[j] == list@[i as int]);
                    }
                }
            }
        }
        i = i + 1;
    }
    assert(list@.take(list@.len() as int) == list@);
    out
}

fn list_contains(list: &Vec<usize>, x: usize) -> (r: bool)
    ensures
        r == list@.contains(x),
{
    let mut i: usize = 0;
    while i < list.len()
        invariant
            i <= list@.len(),
            forall|j: int| 0 <= j < i ==> list@[j] != x,
        decreases list@.len() - i,
    {
        if list[i] == x {
            assert(list@[i as int] == x);
            return true;
        }
        i = i + 1;
    }
    false
}

pub(crate) fn copy_row(v: &Vec<i32>) -> (r: Vec<i32>)
    ensures
        r@ == v@,
{
    let mut out: Vec<i32> = Vec::new();
    let mut i: usize = 0;
    while i < v.len()
        invariant
            i <= v@.len(),
            out@ == v@.take(i as int),
        decreases v@.len() - i,
    {
        out.push(v[i]);
        assert(v@.take(i as int).push(v@[i as int]) == v@.take(i + 1));
        i = i + 1;
    }
    assert(v@.take(v@.len() as int) == v@);
    out
}

/// Hierarchical proximity graph over a fixed set of vectors, with ACORN's
/// predicate-aware search on the ground layer. Node `i` is vector `i`;
/// `links[l][i]` lists the neighbors of node `i` on layer `l`.
pub struct AcornHnswIndex {
    pub dim: usize,
    pub vectors: Vec<Vec<i32>>,
    pub levels: Vec<usize>,
    pub links: Vec<Vec<Vec<usize>>>,
    pub entry_point: usize,
    pub max_level: usize,
    pub m: usize,
    pub gamma: usize,
    pub m_beta: usize,
    pub ef_construction: usize,
}

impl AcornHnswIndex {
    pub open spec fn num_nodes(&self) -> int {
        self.vectors@.len() as int
    }

    pub open spec fn num_layers(&self) -> int {
        self.links@.len() as int
    }

    pub open spec fn vector(&self, i: int) -> Seq<i32> {
        self.vectors@[i]@
    }

    pub open spec fn adj(&self, l: int, u: int) -> Seq<usize> {
        self.links@[l]@[u]@
    }

    pub open spec fn has_edge(&self, l: int, u: int, v: int) -> bool {
        self.adj(l, u).contains(v as usize)
    }

    /// Degree cap of layer `l`: `M·γ` on the ground layer, `M` above it.
    pub open spec fn cap(&self, l: int) -> int {
        if l == 0 {
            self.m * self.gamma
        } else {
            self.m as int
        }
    }

    /// Sizes and ids are in range: what search needs.
    pub open spec fn wf_shape(&self) -> bool {
        &&& self.dim <= max_dim()
        &&& self.num_nodes() <= u32::MAX
        &&& forall|i: int| 0 <= i < self.num_nodes() ==> (#[trigger] self.vectors@[i])@.len() == self.dim
        &&& self.levels@.len() == self.num_nodes()
        &&& self.num_layers() >= 1
        &&& self.max_level < self.num_layers()
        &&& forall|l: int| 0 <= l < self.num_layers() ==> (#[trigger] self.links@[l])@.len() == self.num_nodes()
        &&& forall|l: int, u: int, j: int|
            0 <= l < self.num_layers() && 0 <= u < self.num_nodes() && 0 <= j < self.adj(l, u).len()
                ==> #[trigger] self.adj(l, u)[j] < self.num_nodes()
        &&& self.num_nodes() > 0 ==> self.entry_point < self.num_nodes()
        &&& forall|i: int| 0 <= i < self.num_nodes() ==> #[trigger] self.levels@[i] < self.num_layers()
        &&& self.m <= u16::MAX && self.gamma <= u16::MAX
        &&& self.m >= 1 && self.gamma >= 1 && self.ef_construction >= 1
    }

    /// The graph laws: no self-loops, every neighbor listed on layer `l` lies on
    /// layer `l`, no repeated neighbors, degree caps, and every edge present in
    /// both directions.
    pub open spec fn wf_graph(&self) -> bool {
        &&& forall|l: int, u: int, j: int|
            0 <= l < self.num_layers() && 0 <= u < self.num_nodes() && 0 <= j < self.adj(l, u).len()
                ==> #[trigger] self.adj(l, u)[j] != u && self.levels@[self.adj(l, u)[j] as int] >= l
        &&& forall|l: int, u: int|
            0 <= l < self.num_layers() && 0 <= u < self.num_nodes() ==> (#[trigger] self.adj(l, u)).no_duplicates()
        &&& forall|l: int, u: int|
            0 <= l < self.num_layers() && 0 <= u < self.num_nodes() ==> (#[trigger] self.adj(l, u)).len() <= self.cap(l)
        &&& forall|l: int, u: int, v: int|
            0 <= l < self.num_layers() && 0 <= u < self.num_nodes() && 0 <= v < self.num_nodes()
                && #[trigger] self.has_edge(l, u, v) ==> self.has_edge(l, v, u)
    }

    pub open spec fn wf(&self) -> bool {
        self.wf_shape() && self.wf_graph()
    }

    /// An entry whose distance is the true squared distance from `q` to its node.
    pub open spec fn entry_ok(&self, q: Seq<i32>, e: Entry) -> bool {
        &&& e.1 < self.num_nodes()
        &&& e.0 as int == sq_dist(q, self.vector(e.1 as int))
    }

    fn dist_to(&self, q: &[i32], i: usize) -> (r: u128)
        requires
            self.wf_shape(),
            q@.len() == self.dim,
            i < self.num_nodes(),
        ensures
            r as int == sq_dist(q@, self.vector(i as int)),
    {
        let v = &self.vectors[i];
        squared_distance(q, v.as_slice())
    }

    /// Greedy descent on layer `l`: moves to the closest neighbor while that
    /// brings it nearer to `q`, and returns the local minimum reached.
    fn greedy_closest(&self, q: &[i32], start: usize, l: usize) -> (r: usize)
        requires
            self.wf_shape(),
            q@.len() == self.dim,
            start < self.num_nodes(),
            l < self.num_layers(),
        ensures
            r < self.num_nodes(),
            sq_dist(q@, self.vector(r as int)) <= sq_dist(q@, self.vector(start as int)),
            self.adj(l as int, start as int).len() == 0 ==> r == start,
    {
        let mut cur = start;
        let mut d = self.dist_to(q, cur);
        loop
            invariant
                self.wf_shape(),
                q@.len() == self.dim,
                l < self.num_layers(),
                cur < self.num_nodes(),
                d as int == sq_dist(q@, self.vector(cur as int)),
                d as int <= sq_dist(q@, self.vector(start as int)),
                self.adj(l as int, start as int).len() == 0 ==> cur == start,
            decreases d,
        {
            let c0 = cur;
            let ghost d0 = d;
            let nbrs = &self.links[l][c0];
            let mut changed = false;
            let mut j: usize = 0;
            while j < nbrs.len()
                invariant
                    self.wf_shape(),
                    q@.len() == self.dim,
                    l < self.num_layers(),
                    c0 < self.num_nodes(),
                    nbrs@ == self.adj(l as int, c0 as int),
                    j <= nbrs@.len(),
                    cur < self.num_nodes(),
                    d as int == sq_dist(q@, self.vector(cur as int)),
                    d <= d0,
                    changed ==> d < d0,
                    d0 as int <= sq_dist(q@, self.vector(start as int)),
                    self.adj(l as int, start as int).len() == 0 ==> cur == start && c0 == start,
                decreases nbrs@.len() - j,
            {
                let nb = nbrs[j];
                assert(self.adj(l as int, c0 as int)[j as int] < self.num_nodes());
                let dn = self.dist_to(q, nb);
                if dn < d {
                    cur = nb;
                    d = dn;
                    changed = true;
                }
                j = j + 1;
            }
            if !changed {
                break;
            }
        }
        cur
    }

    /// Offers node `x` to a beam search: if it is new and fits among the best
    /// `ef` results, it joins both the candidates and the results.
    fn consider(
        &self,
        q: &[i32],
        x: usize,
        ef: usize,
        mask: Option<&Bitmask>,
        visited: &mut Vec<bool>,
        cands: &mut Vec<Entry>,
        results: &mut Vec<Entry>,
    )
        requires
            self.wf_shape(),
            q@.len() == self.dim,
            x < self.num_nodes(),
            spec_passes(mask, x as int),
            old(visited)@.len() == self.num_nodes(),
            popcount(old(visited)@) <= self.num_nodes(),
            sorted_entries(old(cands)@),
            sorted_entries(old(results)@),
            old(results)@.len() <= ef,
            forall|i: int| 0 <= i < old(cands)@.len() ==> self.entry_ok(q@, #[trigger] old(cands)@[i]),
            forall|i: int| 0 <= i < old(results)@.len() ==> self.entry_ok(q@, #[trigger] old(results)@[i]),
            forall|i: int| 0 <= i < old(results)@.len() ==> spec_passes(mask, (#[trigger] old(results)@[i]).1 as int),
        ensures
            final(visited)@.len() == self.num_nodes(),
            popcount(final(visited)@) <= self.num_nodes(),
            sorted_entries(final(cands)@),
            sorted_entries(final(results)@),
            final(results)@.len() <= ef,
            forall|i: int| 0 <= i < final(cands)@.len() ==> self.entry_ok(q@, #[trigger] final(cands)@[i]),
            forall|i: int| 0 <= i < final(results)@.len() ==> self.entry_ok(q@, #[trigger] final(results)@[i]),
            forall|i: int| 0 <= i < final(results)@.len() ==> spec_passes(mask, (#[trigger] final(results)@[i]).1 as int),
            2 * (self.num_nodes() - popcount(final(visited)@)) + final(cands)@.len()
                <= 2 * (self.num_nodes() - popcount(old(visited)@)) + old(cands)@.len(),
            old(results)@.len() > 0 ==> final(results)@.len() > 0,
    {
        if visited[x] {
            return;
        }
        proof {
            lemma_popcount_set(visited@, x as int);
            lemma_popcount_upto_bound(visited@.update(x as int, true), self.num_nodes());
        }
        visited.set(x, true);
        let d = self.dist_to(q, x);
        let e: Entry = (d, x);
        let n_res = results.len();
        if n_res < ef || (n_res > 0 && d < results[n_res - 1].0) {
            let ghost old_c = cands@;
            let ghost old_r = results@;
            insert_sorted(cands, e);
            insert_sorted(results, e);
            let ghost mid_r = results@;
            results.truncate(ef);
            proof {
                assert forall|i: int| 0 <= i < cands@.len() implies self.entry_ok(q@, #[trigger] cands@[i]) by {
                    assert(cands@.contains(cands@[i]));
                    if old_c.contains(cands@[i]) {
                        let k = choose|k: int| 0 <= k < old_c.len() && old_c[k] == cands@[i];
                        assert(self.entry_ok(q@, old_c[k]));
                    }
                }
                assert forall|i: int| 0 <= i < results@.len() implies self.entry_ok(q@, #[trigger] results@[i])
                    && spec_passes(mask, results@[i].1 as int) by {
                    let y = results@[i];
                    assert(mid_r[i] == y);
                    assert(mid_r.contains(y));
                    if old_r.contains(y) {
                        let k = choose|k: int| 0 <= k < old_r.len() && old_r[k] == y;
                        assert(self.entry_ok(q@, old_r[k]));
                        assert(spec_passes(mask, old_r[k].1 as int));
                    }
                }
                assert forall|i: int, j: int| 0 <= i < j < results@.len() implies entry_lt(#[trigger] results@[i], #[trigger] results@[j]) by {
                    assert(mid_r[i] == results@[i] && mid_r[j] == results@[j]);
                }
                if old_r.len() > 0 {
                    assert(old_r.contains(old_r[0]));
                    assert(mid_r.contains(old_r[0]));
                }
            }
        }
    }

    /// Everything but the links is the same in both indexes.
    pub open spec fn same_frame(&self, other: &Self) -> bool {
        &&& self.dim == other.dim
        &&& self.vectors@ == other.vectors@
        &&& self.levels@ == other.levels@
        &&& self.entry_point == other.entry_point
        &&& self.max_level == other.max_level
        &&& self.m == other.m
        &&& self.gamma == other.gamma
        &&& self.m_beta == other.m_beta
        &&& self.ef_construction == other.ef_construction
        &&& self.links@.len() == other.links@.len()
        &&& forall|l: int| 0 <= l < self.num_layers() ==> (#[trigger] self.links@[l])@.len() == other.links@[l]@.len()
    }

    /// The graph laws depend on the links and the degree parameters alone.
    proof fn lemma_graph_frame(a: &Self, b: &Self)
        requires
            a.wf_graph(),
            a.wf_shape(),
            a.links@ == b.links@,
            a.levels@ == b.levels@,
            a.vectors@.len() == b.vectors@.len(),
            a.m == b.m,
            a.gamma == b.gamma,
        ensures
            b.wf_graph(),
            forall|l: int, u: int, j: int|
                0 <= l < b.num_layers() && 0 <= u < b.num_nodes() && 0 <= j < b.adj(l, u).len()
                    ==> #[trigger] b.adj(l, u)[j] < b.num_nodes(),
    {
        assert forall|l: int, u: int| 0 <= l < b.num_layers() && 0 <= u < b.num_nodes() implies #[trigger] b.adj(l, u)
            == a.adj(l, u) by {}
        assert forall|l: int, u: int, v: int|
            0 <= l < b.num_layers() && 0 <= u < b.num_nodes() && 0 <= v < b.num_nodes() && #[trigger] b.has_edge(l, u, v)
                implies b.has_edge(l, v, u) by {
            assert(b.adj(l, u) == a.adj(l, u));
            assert(b.adj(l, v) == a.adj(l, v));
            assert(a.has_edge(l, u, v));
        }
    }

    /// Some edge exists on layer `l`.
    pub open spec fn has_some_edge(&self, l: int) -> bool {
        exists|u: int, v: int| 0 <= u < self.num_nodes() && 0 <= v < self.num_nodes() && self.has_edge(l, u, v)
    }

    /// Adds the undirected edge `u`–`v` on layer `l`.
    fn add_edge(&mut self, l: usize, u: usize, v: usize)
        requires
            old(self).wf(),
            l < old(self).num_layers(),
            u < old(self).num_nodes(),
            v < old(self).num_nodes(),
            u != v,
            !old(self).has_edge(l as int, u as int, v as int),
            old(self).levels@[u as int] >= l,
            old(self).levels@[v as int] >= l,
            old(self).adj(l as int, u as int).len() < old(self).cap(l as int),
            old(self).adj(l as int, v as int).len() < old(self).cap(l as int),
        ensures
            final(self).wf(),
            final(self).same_frame(old(self)),
            forall|ll: int, a: int, b: int|
                0 <= ll < final(self).num_layers() && 0 <= a < final(self).num_nodes() && 0 <= b < final(self).num_nodes()
                    ==> (#[trigger] final(self).has_edge(ll, a, b) <==> (old(self).has_edge(ll, a, b) || (ll == l
                    && ((a == u && b == v) || (a == v && b == u))))),
            forall|ll: int, a: int|
                0 <= ll < final(self).num_layers() && 0 <= a < final(self).num_nodes() && !(ll == l && (a == u || a == v))
                    ==> #[trigger] final(self).adj(ll, a) == old(self).adj(ll, a),
    {
        let ghost old_self = *self;
        self.links[l][u].push(v);
        self.links[l][v].push(u);
        proof {
            let ghost n = self.num_nodes();
            assert forall|ll: int, a: int| 0 <= ll < self.num_layers() && 0 <= a < n implies #[trigger] self.adj(ll, a)
                == if ll == l && a == u {
                old_self.adj(ll, a).push(v)
            } else if ll == l && a == v {
                old_self.adj(ll, a).push(u)
            } else {
                old_self.adj(ll, a)
            } by {}
            assert(self.same_frame(&old_self));
            assert forall|ll: int, a: int, b: int|
                0 <= ll < self.num_layers() && 0 <= a < n && 0 <= b < n implies (#[trigger] self.has_edge(ll, a, b)
                <==> (old_self.has_edge(ll, a, b) || (ll == l && ((a == u && b == v) || (a == v && b == u))))) by {
                assert(self.adj(ll, a) == if ll == l && a == u {
                    old_self.adj(ll, a).push(v)
                } else if ll == l && a == v {
                    old_self.adj(ll, a).push(u)
                } else {
                    old_self.adj(ll, a)
                });
                if ll == l && (a == u || a == v) {
                    let s = old_self.adj(ll, a);
                    let w = if a == u { v } else { u };
                    assert(s.push(w as usize).contains(b as usize) <==> (s.contains(b as usize) || b == w)) by {
                        if s.push(w as usize).contains(b as usize) {
                            let sp = s.push(w as usize);
                            let k = choose|k: int| 0 <= k < sp.len() && sp[k] == b as usize;
                            if k < s.len() {
                                assert(s[k] == b as usize);
                            }
                        }
                        if s.contains(b as usize) {
                            let k = choose|k: int| 0 <= k < s.len() && s[k] == b as usize;
                            assert(s.push(w as usize)[k] == b as usize);
                        }
                        if b == w {
                            assert(s.push(w as usize)[s.len() as int] == b as usize);
                        }
                    }
                }
            }
            assert forall|ll: int, a: int, j: int|
                0 <= ll < self.num_layers() && 0 <= a < n && 0 <= j < self.adj(ll, a).len()
                    implies #[trigger] self.adj(ll, a)[j] < n && self.adj(ll, a)[j] != a
                    && self.levels@[self.adj(ll, a)[j] as int] >= ll by {
                if ll == l && (a == u || a == v) && j == self.adj(ll, a).len() - 1 {
                } else {
                    assert(self.adj(ll, a)[j] == old_self.adj(ll, a)[j]);
                }
            }
            assert(self.wf_shape());
            assert forall|ll: int, a: int| 0 <= ll < self.num_layers() && 0 <= a < n implies (#[trigger] self.adj(ll, a)).no_duplicates()
                && self.adj(ll, a).len() <= self.cap(ll) by {
                if ll == l && (a == u || a == v) {
                    let s = old_self.adj(ll, a);
                    let w = if a == u { v } else { u };
                    assert(!s.contains(w as usize)) by {
                        if a == v {
                            if s.contains(u as usize) {
                                assert(old_self.has_edge(ll, v as int, u as int));
                            }
                        }
                    }
                    let sp = s.push(w as usize);
                    assert(sp.no_duplicates()) by {
                        assert forall|i: int, j: int| 0 <= i < j < sp.len() implies #[trigger] sp[i] != #[trigger] sp[j] by {
                            if j == s.len() {
                                assert(s[i] != w as usize) by {
                                    if s[i] == w as usize {
                                        assert(s.contains(w as usize));
                                    }
                                }
                            }
                        }
                    }
                }
            }
        }
    }

    /// Removes the undirected edge `u`–`v` on layer `l`, if present.
    fn remove_edge(&mut self, l: usize, u: usize, v: usize)
        requires
            old(self).wf(),
            l < old(self).num_layers(),
            u < old(self).num_nodes(),
            v < old(self).num_nodes(),
            u != v,
        ensures
            final(self).wf(),
            final(self).same_frame(old(self)),
            forall|ll: int, a: int, b: int|
                0 <= ll < final(self).num_layers() && 0 <= a < final(self).num_nodes() && 0 <= b < final(self).num_nodes()
                    ==> (#[trigger] final(self).has_edge(ll, a, b) <==> (old(self).has_edge(ll, a, b) && !(ll == l
                    && ((a == u && b == v) || (a == v && b == u))))),
            forall|ll: int, a: int|
                0 <= ll < final(self).num_layers() && 0 <= a < final(self).num_nodes() && !(ll == l && (a == u || a == v))
                    ==> #[trigger] final(self).adj(ll, a) == old(self).adj(ll, a),
    {
        let ghost old_self = *self;
        let nu = without(&self.links[l][u], v);
        let nv = without(&self.links[l][v], u);
        self.links[l].set(u, nu);
        self.links[l].set(v, nv);
        proof {
            let ghost n = self.num_nodes();
            assert forall|ll: int, a: int| 0 <= ll < self.num_layers() && 0 <= a < n && !(ll == l && (a == u || a == v))
                implies #[trigger] self.adj(ll, a) == old_self.adj(ll, a) by {}
            assert(self.adj(l as int, u as int) == nu@);
            assert(self.adj(l as int, v as int) == nv@);
            assert(self.same_frame(&old_self));
            assert forall|ll: int, a: int, b: int|
                0 <= ll < self.num_layers() && 0 <= a < n && 0 <= b < n implies (#[trigger] self.has_edge(ll, a, b)
                <==> (old_self.has_edge(ll, a, b) && !(ll == l && ((a == u && b == v) || (a == v && b == u))))) by {
                if ll == l && a == u {
                    assert(nu@.contains(b as usize) <==> (old_self.adj(ll, a).contains(b as usize) && b as usize != v));
                } else if ll == l && a == v {
                    assert(nv@.contains(b as usize) <==> (old_self.adj(ll, a).contains(b as usize) && b as usize != u));
                }
            }
            assert forall|ll: int, a: int, j: int|
                0 <= ll < self.num_layers() && 0 <= a < n && 0 <= j < self.adj(ll, a).len()
                    implies #[trigger] self.adj(ll, a)[j] < n && self.adj(ll, a)[j] != a
                    && self.levels@[self.adj(ll, a)[j] as int] >= ll by {
                if ll == l && (a == u || a == v) {
                    let k = choose|k: int| 0 <= k < old_self.adj(ll, a).len() && self.adj(ll, a)[j] == old_self.adj(ll, a)[k];
                    assert(old_self.adj(ll, a)[k] < n);
                }
            }
            assert(self.wf_shape());
            assert forall|ll: int, a: int| 0 <= ll < self.num_layers() && 0 <= a < n implies (#[trigger] self.adj(ll, a)).no_duplicates()
                && self.adj(ll, a).len() <= self.cap(ll) by {
                if ll == l && (a == u || a == v) {
                    assert(old_self.adj(ll, a).no_duplicates());
                }
            }
            assert forall|ll: int, a: int, b: int|
                0 <= ll < self.num_layers() && 0 <= a < n && 0 <= b < n && #[trigger] self.has_edge(ll, a, b)
                    implies self.has_edge(ll, b, a) by {
                assert(old_self.has_edge(ll, a, b));
                assert(old_self.has_edge(ll, b, a));
            }
        }
    }

    fn layer_cap(&self, l: usize) -> (r: usize)
        requires
            self.wf_shape(),
        ensures
            r as int == self.cap(l as int),
    {
        if l == 0 {
            assert(self.m * self.gamma <= u16::MAX * u16::MAX) by (nonlinear_arith)
                requires
                    self.m <= u16::MAX,
                    self.gamma <= u16::MAX,
            ;
            self.m * self.gamma
        } else {
            self.m
        }
    }

    fn dist_nodes(&self, a: usize, b: usize) -> (r: u128)
        requires
            self.wf_shape(),
            a < self.num_nodes(),
            b < self.num_nodes(),
        ensures
            r as int == sq_dist(self.vector(a as int), self.vector(b as int)),
    {
        squared_distance(self.vectors[a].as_slice(), self.vectors[b].as_slice())
    }

    /// Heuristic neighbor selection over candidates sorted by distance to
    /// `base`: the first `keep_min` are taken as they come; after that a
    /// candidate is taken only if no taken one is closer to it than `base` is.
    /// At most `limit` are taken; `base` itself and repeats are skipped.
    fn select_neighbors(&self, cands: &Vec<Entry>, base: usize, limit: usize, keep_min: usize) -> (r: Vec<usize>)
        requires
            self.wf_shape(),
            forall|i: int| 0 <= i < cands@.len() ==> (#[trigger] cands@[i]).1 < self.num_nodes(),
        ensures
            r@.len() <= limit,
            r@.no_duplicates(),
            forall|j: int| 0 <= j < r@.len() ==> #[trigger] r@[j] < self.num_nodes() && r@[j] != base,
            forall|j: int| 0 <= j < r@.len() ==> exists|k: int| 0 <= k < cands@.len() && #[trigger] r@[j] == cands@[k].1,
            limit > 0 && cands@.len() > 0 && cands@[0].1 != base ==> r@.len() > 0 && r@[0] == cands@[0].1,
    {
        let mut out: Vec<usize> = Vec::new();
        let mut i: usize = 0;
        while i < cands.len() && out.len() < limit
            invariant
                self.wf_shape(),
                forall|k: int| 0 <= k < cands@.len() ==> (#[trigger] cands@[k]).1 < self.num_nodes(),
                i <= cands@.len(),
                out@.len() <= limit,
                out@.no_duplicates(),
                forall|j: int| 0 <= j < out@.len() ==> #[trigger] out@[j] < self.num_nodes() && out@[j] != base,
                forall|j: int| 0 <= j < out@.len() ==> exists|k: int| 0 <= k < i && #[trigger] out@[j] == cands@[k].1,
                i > 0 && limit > 0 && cands@[0].1 != base ==> out@.len() > 0 && out@[0] == cands@[0].1,
                i == 0 ==> out@.len() == 0,
            decreases cands@.len() - i,
        {
            let (d, x) = cands[i];
            if x != base && !list_contains(&out, x) {
                let mut ok = true;
                if out.len() >= keep_min {
                    let mut t: usize = 0;
                    while t < out.len()
                        invariant
                            self.wf_shape(),
                            x < self.num_nodes(),
                            t <= out@.len(),
                            forall|j: int| 0 <= j < out@.len() ==> #[trigger] out@[j] < self.num_nodes(),
                            !ok ==> out@.len() > 0,
                        decreases out@.len() - t,
                    {
                        if self.dist_nodes(x, out[t]) < d {
                            ok = false;
                            break;
                        }
                        t = t + 1;
                    }
                }
                if ok {
                    let ghost before = out@;
                    out.push(x);
                    proof {
                        assert forall|jj: int| 0 <= jj < out@.len() implies exists|k: int| 0 <= k < i + 1 && #[trigger] out@[jj]
                            == cands@[k].1 by {
                            if jj < before.len() {
                                assert(out@[jj] == before[jj]);
                            } else {
                                assert(out@[jj] == cands@[i as int].1);
                            }
                        }
                        assert forall|a: int, b: int| 0 <= a < b < out@.len() implies #[trigger] out@[a] != #[trigger] out@[b] by {
                            if b == before.len() && out@[a] == out@[b] {
                                assert(before[a] == x);
                                assert(before.contains(x));
                            }
                        }
                    }
                }
            }
            i = i + 1;
        }
        out
    }

    /// Links `q` to `nb` on layer `l`. When `nb` is already full, its list plus
    /// `q` is re-selected by the heuristic (keeping `m_beta` on the ground
    /// layer), and every dropped neighbor loses the edge in both directions.
    fn link(&mut self, l: usize, q: usize, nb: usize)
        requires
            old(self).wf(),
            l < old(self).num_layers(),
            q < old(self).num_nodes(),
            nb < old(self).num_nodes(),
        ensures
            final(self).wf(),
            final(self).same_frame(old(self)),
            forall|ll: int, a: int, b: int|
                0 <= ll < final(self).num_layers() && 0 <= a < final(self).num_nodes() && 0 <= b < final(self).num_nodes()
                    && ll != l ==> (#[trigger] final(self).has_edge(ll, a, b) == old(self).has_edge(ll, a, b)),
            old(self).has_some_edge(l as int) ==> final(self).has_some_edge(l as int),
            q != nb && old(self).levels@[q as int] >= l && old(self).levels@[nb as int] >= l && old(self).adj(l as int, q as int).len()
                == 0 && old(self).adj(l as int, nb as int).len() == 0 ==> final(self).has_edge(l as int, q as int, nb as int),
    {
        if q == nb || self.levels[q] < l || self.levels[nb] < l || list_contains(&self.links[l][q], nb) {
            return;
        }
        let cap = self.layer_cap(l);
        assert(cap >= 1) by (nonlinear_arith)
            requires
                cap == self.cap(l as int),
                self.cap(l as int) == if l == 0 { self.m * self.gamma } else { self.m as int },
                self.m >= 1,
                self.gamma >= 1,
        ;
        if self.links[l][q].len() >= cap {
            return;
        }
        if self.links[l][nb].len() < cap {
            self.add_edge(l, q, nb);
            proof {
                assert(self.has_edge(l as int, q as int, nb as int));
            }
            return;
        }
        let ghost entry = *self;
        let cur = self.links[l][nb].clone();
        assert(cur@ =~= self.adj(l as int, nb as int));
        let mut es: Vec<Entry> = Vec::new();
        let mut i: usize = 0;
        while i < cur.len()
            invariant
                self.wf(),
                *self == entry,
                nb < self.num_nodes(),
                l < self.num_layers(),
                cur@ == self.adj(l as int, nb as int),
                i <= cur@.len(),
                sorted_entries(es@),
                forall|k: int| 0 <= k < es@.len() ==> (#[trigger] es@[k]).1 < self.num_nodes() && es@[k].1 != nb && cur@.contains(
                    es@[k].1,
                ),
            decreases cur@.len() - i,
        {
            let x = cur[i];
            assert(self.adj(l as int, nb as int)[i as int] < self.num_nodes());
            assert(self.adj(l as int, nb as int)[i as int] != nb);
            assert(cur@.contains(x));
            let ghost before = es@;
            insert_sorted(&mut es, (self.dist_nodes(nb, x), x));
            proof {
                assert forall|k: int| 0 <= k < es@.len() implies (#[trigger] es@[k]).1 < self.num_nodes() && es@[k].1 != nb
                    && cur@.contains(es@[k].1) by {
                    assert(es@.contains(es@[k]));
                    if before.contains(es@[k]) {
                        let kk = choose|kk: int| 0 <= kk < before.len() && before[kk] == es@[k];
                        assert(before[kk].1 < self.num_nodes());
                    }
                }
            }
            i = i + 1;
        }
        let ghost before = es@;
        insert_sorted(&mut es, (self.dist_nodes(nb, q), q));
        proof {
            assert forall|k: int| 0 <= k < es@.len() implies (#[trigger] es@[k]).1 < self.num_nodes() && es@[k].1 != nb && (
            es@[k].1 == q || cur@.contains(es@[k].1)) by {
                assert(es@.contains(es@[k]));
                if before.contains(es@[k]) {
                    let kk = choose|kk: int| 0 <= kk < before.len() && before[kk] == es@[k];
                    assert(before[kk].1 < self.num_nodes());
                }
            }
            assert(es@.len() > 0);
        }
        let keep_min = if l == 0 { self.m_beta } else { 0 };
        let keep = self.select_neighbors(&es, nb, cap, keep_min);
        proof {
            assert(keep@.len() > 0);
            let k0 = keep@[0];
            assert(k0 == es@[0].1);
            assert(k0 == q || cur@.contains(k0));
            assert(!cur@.contains(q as usize)) by {
                if cur@.contains(q as usize) {
                    assert(entry.has_edge(l as int, nb as int, q as int));
                    assert(entry.has_edge(l as int, q as int, nb as int));
                }
            }
        }
        let ghost start = *self;
        let mut j: usize = 0;
        while j < cur.len()
            invariant
                self.wf(),
                self.same_frame(&start),
                start.wf(),
                start == entry,
                nb < self.num_nodes(),
                q < self.num_nodes(),
                q != nb,
                l < self.num_layers(),
                cur@ == start.adj(l as int, nb as int),
                !cur@.contains(q as usize),
                j <= cur@.len(),
                self.adj(l as int, q as int) == start.adj(l as int, q as int),
                forall|x: int| 0 <= x < self.num_nodes() && start.has_edge(l as int, nb as int, x) && keep@.contains(x as usize)
                    ==> #[trigger] self.has_edge(l as int, nb as int, x),
                forall|ll: int, a: int, b: int|
                    0 <= ll < self.num_layers() && 0 <= a < self.num_nodes() && 0 <= b < self.num_nodes() && ll != l
                        ==> (#[trigger] self.has_edge(ll, a, b) == start.has_edge(ll, a, b)),
            decreases cur@.len() - j,
        {
            let x = cur[j];
            assert(start.adj(l as int, nb as int)[j as int] < start.num_nodes());
            assert(start.adj(l as int, nb as int)[j as int] != nb);
            assert(x != q) by {
                assert(cur@.contains(x));
            }
            if !list_contains(&keep, x) {
                self.remove_edge(l, nb, x);
            }
            j = j + 1;
        }
        let ghost after = *self;
        if list_contains(&keep, q) && self.links[l][nb].len() < cap && self.links[l][q].len() < cap
            && !list_contains(&self.links[l][q], nb) {
            self.add_edge(l, q, nb);
        }
        proof {
            let k0 = keep@[0];
            assert(keep@.contains(k0));
            if cur@.contains(k0) {
                let kk = choose|kk: int| 0 <= kk < cur@.len() && cur@[kk] == k0;
                assert(start.adj(l as int, nb as int)[kk] < start.num_nodes());
                assert(start.has_edge(l as int, nb as int, k0 as int));
                assert(after.has_edge(l as int, nb as int, k0 as int));
                assert(self.has_edge(l as int, nb as int, k0 as int));
            } else if after.adj(l as int, nb as int).len() > 0 {
                let y = after.adj(l as int, nb as int)[0];
                assert(after.adj(l as int, nb as int).contains(y));
                assert(y < self.num_nodes());
                assert(self.has_edge(l as int, nb as int, y as int));
            } else {
                assert(k0 == q);
                assert(!after.has_edge(l as int, q as int, nb as int)) by {
                    if after.has_edge(l as int, q as int, nb as int) {
                        assert(after.has_edge(l as int, nb as int, q as int));
                        assert(after.adj(l as int, nb as int).contains(q as usize));
                    }
                }
                assert(self.has_edge(l as int, q as int, nb as int));
            }
        }
    }

    proof fn lemma_no_edge_empty(&self, l: int, u: int)
        requires
            self.wf_shape(),
            0 <= l < self.num_layers(),
            0 <= u < self.num_nodes(),
            !self.has_some_edge(l),
        ensures
            self.adj(l, u).len() == 0,
    {
        if self.adj(l, u).len() > 0 {
            let v = self.adj(l, u)[0];
            assert(v < self.num_nodes());
            assert(self.adj(l, u).contains(v));
            assert(self.has_edge(l, u, v as int));
        }
    }

    /// Two graphs with the same edges on layer `ll` agree on whether it has one.
    proof fn lemma_some_edge_frame(a: &Self, b: &Self, ll: int)
        requires
            a.num_nodes() == b.num_nodes(),
            forall|x: int, y: int| 0 <= x < a.num_nodes() && 0 <= y < a.num_nodes() ==> (#[trigger] b.has_edge(ll, x, y)
                == a.has_edge(ll, x, y)),
        ensures
            a.has_some_edge(ll) == b.has_some_edge(ll),
    {
        if a.has_some_edge(ll) {
            let (x, y) = choose|x: int, y: int| 0 <= x < a.num_nodes() && 0 <= y < a.num_nodes() && a.has_edge(ll, x, y);
            assert(b.has_edge(ll, x, y));
        }
        if b.has_some_edge(ll) {
            let (x, y) = choose|x: int, y: int| 0 <= x < b.num_nodes() && 0 <= y < b.num_nodes() && b.has_edge(ll, x, y);
            assert(a.has_edge(ll, x, y));
        }
    }

    /// Inserts node `q`: greedy descent down to its top layer, then on each of
    /// its layers a beam search, heuristic selection of `m` neighbors, and
    /// linking. `q` becomes the entry point when its top layer is the highest.
    fn insert(&mut self, q: usize)
        requires
            old(self).wf(),
            q < old(self).num_nodes(),
        ensures
            final(self).wf(),
            final(self).dim == old(self).dim,
            final(self).vectors@ == old(self).vectors@,
            final(self).levels@ == old(self).levels@,
            final(self).m == old(self).m,
            final(self).gamma == old(self).gamma,
            final(self).m_beta == old(self).m_beta,
            final(self).links@.len() == old(self).links@.len(),
            final(self).max_level == if old(self).levels@[q as int] > old(self).max_level {
                old(self).levels@[q as int]
            } else {
                old(self).max_level
            },
            final(self).entry_point == if old(self).levels@[q as int] > old(self).max_level {
                q
            } else {
                old(self).entry_point
            },
            old(self).has_some_edge(0) ==> final(self).has_some_edge(0),
            (forall|ll: int| 0 <= ll < old(self).num_layers() ==> !#[trigger] old(self).has_some_edge(ll)) && q
                != old(self).entry_point && old(self).levels@[old(self).entry_point as int] == old(self).max_level
                ==> final(self).has_some_edge(0),
    {
        let ghost fresh = (forall|ll: int| 0 <= ll < self.num_layers() ==> !#[trigger] self.has_some_edge(ll)) && q
            != self.entry_point && self.levels@[self.entry_point as int] == self.max_level;
        let ghost old_self = *self;
        let qv = copy_row(&self.vectors[q]);
        let lq = self.levels[q];
        let mut ep = self.entry_point;
        let mut l = self.max_level;
        while l > lq
            invariant
                self.wf_shape(),
                qv@.len() == self.dim,
                ep < self.num_nodes(),
                l <= self.max_level,
                *self == old_self,
                fresh ==> ep == self.entry_point,
                fresh ==> (forall|ll: int| 0 <= ll < old_self.num_layers() ==> !#[trigger] old_self.has_some_edge(ll)) && q
                    != old_self.entry_point && old_self.levels@[old_self.entry_point as int] == old_self.max_level,
            decreases l,
        {
            proof {
                if fresh {
                    self.lemma_no_edge_empty(l as int, ep as int);
                }
            }
            ep = self.greedy_closest(qv.as_slice(), ep, l);
            l = l - 1;
        }
        let ghost start = *self;
        let mut layer = l;
        loop
            invariant_except_break
                fresh ==> !self.has_some_edge(layer as int),
            invariant
                self.wf(),
                self.same_frame(&start),
                start == old_self,
                qv@.len() == self.dim,
                ep < self.num_nodes(),
                q < self.num_nodes(),
                layer < self.num_layers(),
                layer <= lq,
                layer <= self.max_level,
                lq == self.levels@[q as int],
                old_self.has_some_edge(0) ==> self.has_some_edge(0),
                fresh ==> ep == start.entry_point,
                fresh ==> forall|ll: int| 0 <= ll < layer ==> !#[trigger] self.has_some_edge(ll),
                fresh ==> (forall|ll: int| 0 <= ll < old_self.num_layers() ==> !#[trigger] old_self.has_some_edge(ll)) && q
                    != old_self.entry_point && old_self.levels@[old_self.entry_point as int] == old_self.max_level,
            ensures
                fresh ==> self.has_some_edge(0),
                old_self.has_some_edge(0) ==> self.has_some_edge(0),
            decreases layer,
        {
            proof {
                if fresh {
                    self.lemma_no_edge_empty(layer as int, ep as int);
                }
            }
            let w = self.beam_search(qv.as_slice(), ep, self.ef_construction, layer, None, 0);
            let sel = self.select_neighbors(&w, q, self.m, 0);
            let ghost mid = *self;
            proof {
                if fresh {
                    assert(w@.len() > 0);
                    assert(w@[0].1 == ep);
                    assert(sel@.len() > 0 && sel@[0] == ep);
                    self.lemma_no_edge_empty(layer as int, q as int);
                }
            }
            let mut i: usize = 0;
            while i < sel.len()
                invariant
                    self.wf(),
                    self.same_frame(&mid),
                    mid.same_frame(&start),
                    mid.wf(),
                    q < self.num_nodes(),
                    layer < self.num_layers(),
                    i <= sel@.len(),
                    forall|j: int| 0 <= j < sel@.len() ==> #[trigger] sel@[j] < self.num_nodes(),
                    i == 0 ==> *self == mid,
                    forall|ll: int, a: int, b: int|
                        0 <= ll < self.num_layers() && 0 <= a < self.num_nodes() && 0 <= b < self.num_nodes() && ll != layer
                            ==> (#[trigger] self.has_edge(ll, a, b) == mid.has_edge(ll, a, b)),
                    mid.has_some_edge(layer as int) ==> self.has_some_edge(layer as int),
                    fresh && i > 0 ==> self.has_some_edge(layer as int),
                    fresh ==> sel@.len() > 0 && sel@[0] == ep,
                    fresh ==> ep == start.entry_point && mid.adj(layer as int, q as int).len() == 0 && mid.adj(
                        layer as int,
                        ep as int,
                    ).len() == 0 && mid.levels@[q as int] >= layer && mid.levels@[ep as int] >= layer && q != ep,
                decreases sel@.len() - i,
            {
                let ghost pre = *self;
                self.link(layer, q, sel[i]);
                proof {
                    assert forall|ll: int, a: int, b: int|
                        0 <= ll < self.num_layers() && 0 <= a < self.num_nodes() && 0 <= b < self.num_nodes() && ll != layer
                            implies (#[trigger] self.has_edge(ll, a, b) == mid.has_edge(ll, a, b)) by {
                        assert(self.has_edge(ll, a, b) == pre.has_edge(ll, a, b));
                    }
                    if fresh && i == 0 {
                        assert(self.has_edge(layer as int, q as int, ep as int));
                    }
                }
                i = i + 1;
            }
            proof {
                if layer != 0 {
                    Self::lemma_some_edge_frame(&mid, self, 0);
                }
                assert forall|ll: int| 0 <= ll < layer implies !#[trigger] self.has_some_edge(ll) || !fresh by {
                    Self::lemma_some_edge_frame(&mid, self, ll);
                }
            }
            proof {
                if fresh {
                    assert(w@[0].1 == ep);
                }
            }
            if w.len() > 0 {
                ep = w[0].1;
            }
            if layer == 0 {
                break;
            }
            layer = layer - 1;
        }
        assert(self.levels@[q as int] == lq);
        let ghost after_loop = *self;
        if lq > self.max_level {
            let ghost before = *self;
            self.entry_point = q;
            self.max_level = lq;
            proof {
                Self::lemma_graph_frame(&before, self);
            }
        }
        proof {
            assert forall|x: int, y: int| 0 <= x < self.num_nodes() && 0 <= y < self.num_nodes() implies (#[trigger] self.has_edge(
                0,
                x,
                y,
            ) == after_loop.has_edge(0, x, y)) by {
                assert(self.adj(0, x) == after_loop.adj(0, x));
            }
            Self::lemma_some_edge_frame(&after_loop, self, 0);
        }
    }

    /// Every row has `dim` coordinates.
    pub open spec fn rows_fit(rows: Seq<Vec<i32>>, dim: usize) -> bool {
        forall|i: int| 0 <= i < rows.len() ==> (#[trigger] rows[i])@.len() == dim
    }

    /// Builds the index over `rows` (node `i` is `rows[i]`), inserting the
    /// nodes in order. Fails with `InvalidOptions` on options out of range, then
    /// `CapacityExceeded` past 2^32 - 1 vectors, then `ShapeMismatch` when the
    /// dimensionality exceeds 2^32 - 1 or a row has another length.
    pub fn new(rows: Vec<Vec<i32>>, dim: usize, options: &OakIndexOptions) -> (r: Result<Self, ConstructionError>)
        ensures
            !options.valid() <==> r == Err::<Self, ConstructionError>(ConstructionError::InvalidOptions),
            options.valid() && rows@.len() > u32::MAX <==> r == Err::<Self, ConstructionError>(
                ConstructionError::CapacityExceeded,
            ),
            options.valid() && rows@.len() <= u32::MAX && (dim > max_dim() || !Self::rows_fit(rows@, dim)) <==> r
                == Err::<Self, ConstructionError>(ConstructionError::ShapeMismatch),
            r matches Ok(idx) ==> {
                &&& idx.wf()
                &&& idx.dim == dim
                &&& idx.vectors@ == rows@
                &&& idx.m == options.m
                &&& idx.gamma == options.gamma
                &&& idx.m_beta == options.m_beta
                &&& idx.levels@ == seeded_levels(rows@.len(), options.m as usize, options.seed).0
                &&& forall|i: int| 0 <= i < idx.num_nodes() ==> #[trigger] idx.levels@[i] <= idx.max_level
                &&& idx.num_nodes() > 0 ==> idx.levels@[idx.entry_point as int] == idx.max_level
                &&& idx.num_layers() == idx.max_level + 1
                &&& idx.num_nodes() >= 2 ==> idx.has_some_edge(0)
            },
    {
        if !options.is_valid() {
            return Err(ConstructionError::InvalidOptions);
        }
        let n = rows.len();
        if n > 0xFFFF_FFFF {
            return Err(ConstructionError::CapacityExceeded);
        }
        if dim > 0xFFFF_FFFF {
            return Err(ConstructionError::ShapeMismatch);
        }
        let mut i: usize = 0;
        while i < n
            invariant
                n == rows@.len(),
                n <= u32::MAX,
                dim <= max_dim(),
                options.valid(),
                i <= n,
                forall|j: int| 0 <= j < i ==> (#[trigger] rows@[j])@.len() == dim,
            decreases n - i,
        {
            if rows[i].len() != dim {
                assert(!Self::rows_fit(rows@, dim)) by {
                    assert(rows@[i as int]@.len() != dim);
                }
                return Err(ConstructionError::ShapeMismatch);
            }
            i = i + 1;
        }
        let m = options.m as usize;
        let levels = draw_levels(n, m, options.seed);
        let mut top: usize = 0;
        let mut i: usize = 0;
        while i < n
            invariant
                n == levels@.len(),
                i <= n,
                top <= MAX_LEVEL,
                forall|j: int| 0 <= j < n ==> #[trigger] levels@[j] <= MAX_LEVEL,
                forall|j: int| 0 <= j < i ==> #[trigger] levels@[j] <= top,
                top == 0 || exists|j: int| 0 <= j < i && levels@[j] == top,
            decreases n - i,
        {
            if levels[i] > top {
                top = levels[i];
            }
            i = i + 1;
        }
        let num_layers = top + 1;
        let mut links: Vec<Vec<Vec<usize>>> = Vec::new();
        let mut l: usize = 0;
        while l < num_layers
            invariant
                l <= num_layers,
                links@.len() == l,
                forall|a: int| 0 <= a < l ==> (#[trigger] links@[a])@.len() == n,
                forall|a: int, u: int| 0 <= a < l && 0 <= u < n ==> (#[trigger] links@[a]@[u])@.len() == 0,
            decreases num_layers - l,
        {
            let mut layer: Vec<Vec<usize>> = Vec::new();
            let mut u: usize = 0;
            while u < n
                invariant
                    u <= n,
                    layer@.len() == u,
                    forall|b: int| 0 <= b < u ==> (#[trigger] layer@[b])@.len() == 0,
                decreases n - u,
            {
                layer.push(Vec::new());
                u = u + 1;
            }
            links.push(layer);
            l = l + 1;
        }
        let entry_level = if n > 0 { levels[0] } else { 0 };
        let mut idx = AcornHnswIndex {
            dim,
            vectors: rows,
            levels,
            links,
            entry_point: 0,
            max_level: entry_level,
            m,
            gamma: options.gamma as usize,
            m_beta: options.m_beta as usize,
            ef_construction: options.ef_construction as usize,
        };
        assert(idx.wf()) by {
            assert forall|a: int, u: int| 0 <= a < idx.num_layers() && 0 <= u < idx.num_nodes() implies (#[trigger] idx.adj(a, u)).len()
                == 0 by {
                assert(idx.links@[a]@[u]@.len() == 0);
            }
            assert forall|a: int, u: int, v: int|
                0 <= a < idx.num_layers() && 0 <= u < idx.num_nodes() && 0 <= v < idx.num_nodes()
                    && #[trigger] idx.has_edge(a, u, v) implies idx.has_edge(a, v, u) by {
                assert(idx.adj(a, u).len() == 0);
            }
        }
        assert forall|a: int| 0 <= a < idx.num_layers() implies !#[trigger] idx.has_some_edge(a) by {
            if idx.has_some_edge(a) {
                let (x, y) = choose|x: int, y: int| 0 <= x < idx.num_nodes() && 0 <= y < idx.num_nodes() && idx.has_edge(a, x, y);
                assert(idx.links@[a]@[x]@.len() == 0);
            }
        }
        let mut q: usize = 1;
        while q < n
            invariant
                idx.wf(),
                n == idx.num_nodes(),
                idx.dim == dim,
                idx.vectors@ == rows@,
                idx.m == options.m,
                idx.gamma == options.gamma,
                idx.m_beta == options.m_beta,
                idx.levels@ == levels@,
                1 <= q,
                n > 0 ==> q <= n,
                forall|j: int| 0 <= j < n ==> #[trigger] levels@[j] <= top,
                top == 0 || exists|j: int| 0 <= j < n && levels@[j] == top,
                idx.num_layers() == top + 1,
                forall|j: int| 0 <= j < q && j < n ==> #[trigger] idx.levels@[j] <= idx.max_level,
                n > 0 ==> idx.levels@[idx.entry_point as int] == idx.max_level,
                q == 1 ==> idx.entry_point == 0,
                q == 1 ==> forall|a: int| 0 <= a < idx.num_layers() ==> !#[trigger] idx.has_some_edge(a),
                q >= 2 ==> idx.has_some_edge(0),
            decreases n - q,
        {
            idx.insert(q);
            q = q + 1;
        }
        proof {
            if n > 0 {
                assert(idx.max_level <= top);
                if top != 0 {
                    let j = choose|j: int| 0 <= j < n && levels@[j] == top;
                    assert(idx.levels@[j] <= idx.max_level);
                }
            }
        }
        Ok(idx)
    }

    /// Beam search of width `ef` on layer `l` from `ep`. With a mask, only
    /// passing nodes enter the results and the beam; a neighbor that fails the
    /// mask is crossed to up to `hop` of its own passing neighbors.
    fn beam_search(
        &self,
        q: &[i32],
        ep: usize,
        ef: usize,
        l: usize,
        mask: Option<&Bitmask>,
        hop: usize,
    ) -> (r: Vec<Entry>)
        requires
            self.wf_shape(),
            q@.len() == self.dim,
            ep < self.num_nodes(),
            l < self.num_layers(),
            mask matches Some(mk) ==> mk.view().len() == self.num_nodes(),
        ensures
            r@.len() <= ef,
            sorted_entries(r@),
            forall|i: int| 0 <= i < r@.len() ==> self.entry_ok(q@, #[trigger] r@[i]),
            forall|i: int| 0 <= i < r@.len() ==> spec_passes(mask, (#[trigger] r@[i]).1 as int),
            ef > 0 && spec_passes(mask, ep as int) ==> r@.len() > 0,
            self.adj(l as int, ep as int).len() == 0 ==> forall|i: int| 0 <= i < r@.len() ==> (#[trigger] r@[i]).1 == ep,
    {
        let n = self.vectors.len();
        let mut visited = falses(n);
        proof {
            lemma_popcount_set(visited@, ep as int);
            lemma_popcount_upto_bound(visited@.update(ep as int, true), n as int);
        }
        visited.set(ep, true);
        let d_ep = self.dist_to(q, ep);
        let mut cands: Vec<Entry> = Vec::new();
        cands.push((d_ep, ep));
        let mut results: Vec<Entry> = Vec::new();
        if ef > 0 && passes(mask, ep) {
            results.push((d_ep, ep));
        }
        while cands.len() > 0
            invariant
                self.wf_shape(),
                n == self.num_nodes(),
                q@.len() == self.dim,
                l < self.num_layers(),
                mask matches Some(mk) ==> mk.view().len() == n,
                visited@.len() == n,
                popcount(visited@) <= n,
                sorted_entries(cands@),
                sorted_entries(results@),
                results@.len() <= ef,
                forall|i: int| 0 <= i < cands@.len() ==> self.entry_ok(q@, #[trigger] cands@[i]),
                forall|i: int| 0 <= i < results@.len() ==> self.entry_ok(q@, #[trigger] results@[i]),
                forall|i: int| 0 <= i < results@.len() ==> spec_passes(mask, (#[trigger] results@[i]).1 as int),
                ef > 0 && spec_passes(mask, ep as int) ==> results@.len() > 0,
                self.adj(l as int, ep as int).len() == 0 ==> (forall|i: int| 0 <= i < cands@.len() ==> (#[trigger] cands@[i]).1 == ep)
                    && (forall|i: int| 0 <= i < results@.len() ==> (#[trigger] results@[i]).1 == ep),
            decreases 2 * (n - popcount(visited@)) + cands@.len(),
        {
            let ghost c_before = cands@;
            let c = cands.remove(0);
            assert(c == c_before[0]);
            assert(self.entry_ok(q@, c_before[0]));
            assert forall|i: int, j: int| 0 <= i < j < cands@.len() implies entry_lt(#[trigger] cands@[i], #[trigger] cands@[j]) by {
                assert(cands@[i] == c_before[i + 1] && cands@[j] == c_before[j + 1]);
            }
            assert forall|i: int| 0 <= i < cands@.len() implies self.entry_ok(q@, #[trigger] cands@[i]) by {
                assert(cands@[i] == c_before[i + 1]);
            }
            let n_res = results.len();
            if n_res >= ef && n_res > 0 && c.0 > results[n_res - 1].0 {
                break;
            }
            let ghost bound = 2 * (n - popcount(visited@)) + cands@.len();
            let nbrs = &self.links[l][c.1];
            let mut j: usize = 0;
            while j < nbrs.len()
                invariant
                    self.wf_shape(),
                    n == self.num_nodes(),
                    q@.len() == self.dim,
                    l < self.num_layers(),
                    c.1 < n,
                    nbrs@ == self.adj(l as int, c.1 as int),
                    j <= nbrs@.len(),
                    mask matches Some(mk) ==> mk.view().len() == n,
                    visited@.len() == n,
                    popcount(visited@) <= n,
                    sorted_entries(cands@),
                    sorted_entries(results@),
                    results@.len() <= ef,
                    forall|i: int| 0 <= i < cands@.len() ==> self.entry_ok(q@, #[trigger] cands@[i]),
                    forall|i: int| 0 <= i < results@.len() ==> self.entry_ok(q@, #[trigger] results@[i]),
                    forall|i: int| 0 <= i < results@.len() ==> spec_passes(mask, (#[trigger] results@[i]).1 as int),
                    ef > 0 && spec_passes(mask, ep as int) ==> results@.len() > 0,
                    2 * (n - popcount(visited@)) + cands@.len() <= bound,
                    self.adj(l as int, ep as int).len() == 0 ==> c.1 == ep && nbrs@.len() == 0
                        && (forall|i: int| 0 <= i < cands@.len() ==> (#[trigger] cands@[i]).1 == ep)
                        && (forall|i: int| 0 <= i < results@.len() ==> (#[trigger] results@[i]).1 == ep),
                decreases nbrs@.len() - j,
            {
                let nb = nbrs[j];
                assert(self.adj(l as int, c.1 as int)[j as int] < n);
                if passes(mask, nb) {
                    self.consider(q, nb, ef, mask, &mut visited, &mut cands, &mut results);
                } else {
                    let second = &self.links[l][nb];
                    let mut t: usize = 0;
                    let mut taken: usize = 0;
                    while t < second.len() && taken < hop
                        invariant
                            self.wf_shape(),
                            n == self.num_nodes(),
                            q@.len() == self.dim,
                            l < self.num_layers(),
                            nb < n,
                            second@ == self.adj(l as int, nb as int),
                            t <= second@.len(),
                            mask matches Some(mk) ==> mk.view().len() == n,
                            visited@.len() == n,
                            popcount(visited@) <= n,
                            sorted_entries(cands@),
                            sorted_entries(results@),
                            results@.len() <= ef,
                            forall|i: int| 0 <= i < cands@.len() ==> self.entry_ok(q@, #[trigger] cands@[i]),
                            forall|i: int| 0 <= i < results@.len() ==> self.entry_ok(q@, #[trigger] results@[i]),
                            forall|i: int| 0 <= i < results@.len() ==> spec_passes(mask, (#[trigger] results@[i]).1 as int),
                            ef > 0 && spec_passes(mask, ep as int) ==> results@.len() > 0,
                            2 * (n - popcount(visited@)) + cands@.len() <= bound,
                        decreases second@.len() - t,
                    {
                        let x = second[t];
                        assert(self.adj(l as int, nb as int)[t as int] < n);
                        if passes(mask, x) {
                            taken = taken + 1;
                            self.consider(q, x, ef, mask, &mut visited, &mut cands, &mut results);
                        }
                        t = t + 1;
                    }
                }
                j = j + 1;
            }
        }
        results
    }

    /// Filtered k-nearest-neighbor search: descends the upper layers greedily
    /// without the filter, then runs the filtered beam of width
    /// `max(ef_search, k)` on the ground layer. Results are `(id, squared
    /// distance)` pairs, ascending by distance, ties by id.
    pub fn search(&self, query: &[i32], mask: &Bitmask, k: usize, ef_search: usize) -> (r: Result<
        Vec<(usize, u128)>,
        SearchableError,
    >)
        requires
            self.wf(),
        ensures
            (query@.len() != self.dim || mask.view().len() != self.num_nodes()) <==> r == Err::<
                Vec<(usize, u128)>,
                SearchableError,
            >(SearchableError::DimensionMismatch),
            query@.len() == self.dim && mask.view().len() == self.num_nodes() ==> r is Ok,
            r matches Ok(res) ==> self.search_post(query@, mask.view(), k, res@),
            r matches Ok(res) ==> (k > 0 && self.num_nodes() > 0 && (forall|i: int| 0 <= i < mask.view().len() ==> #[trigger] mask.view()[i])
                ==> res@.len() > 0),
    {
        if query.len() != self.dim || mask.capacity() != self.vectors.len() {
            return Err(SearchableError::DimensionMismatch);
        }
        let mut out: Vec<(usize, u128)> = Vec::new();
        if self.vectors.len() == 0 {
            return Ok(out);
        }
        let mut ep = self.entry_point;
        let mut l = self.max_level;
        while l > 0
            invariant
                self.wf_shape(),
                query@.len() == self.dim,
                ep < self.num_nodes(),
                l <= self.max_level,
            decreases l,
        {
            ep = self.greedy_closest(query, ep, l);
            l = l - 1;
        }
        let width = if ef_search > k { ef_search } else { k };
        let w = self.beam_search(query, ep, width, 0, Some(mask), self.m_beta);
        let take = if w.len() < k { w.len() } else { k };
        let mut i: usize = 0;
        while i < take
            invariant
                take <= w@.len(),
                take <= k,
                i <= take,
                out@.len() == i,
                forall|j: int| 0 <= j < i ==> (#[trigger] out@[j]) == (w@[j].1, w@[j].0),
            decreases take - i,
        {
            out.push((w[i].1, w[i].0));
            i = i + 1;
        }
        proof {
            assert forall|j: int| 0 <= j < out@.len() implies result_ok(self.rows_view(), query@, mask.view(), #[trigger] out@[j]) by {
                assert(self.entry_ok(query@, w@[j]));
                assert(spec_passes(Some(mask), w@[j].1 as int));
            }
            assert forall|a: int, b: int| 0 <= a < b < out@.len() implies result_lt(#[trigger] out@[a], #[trigger] out@[b]) by {
                assert(entry_lt(w@[a], w@[b]));
            }
        }
        Ok(out)
    }

    /// The vectors as mathematical sequences.
    pub open spec fn rows_view(&self) -> Seq<Seq<i32>> {
        Seq::new(self.vectors@.len(), |i: int| self.vectors@[i]@)
    }

    /// What every successful search returns (see `results_valid`).
    pub open spec fn search_post(&self, q: Seq<i32>, mask: Seq<bool>, k: usize, res: Seq<(usize, u128)>) -> bool {
        results_valid(self.rows_view(), q, mask, k, res)
    }
}

/// Symmetry: in a built index, every edge on a layer is also present reversed.
pub proof fn lemma_edges_symmetric(idx: &AcornHnswIndex, l: int, u: int, v: int)
    requires
        idx.wf(),
        0 <= l < idx.num_layers(),
        0 <= u < idx.num_nodes(),
        0 <= v < idx.num_nodes(),
        idx.has_edge(l, u, v),
    ensures
        idx.has_edge(l, v, u),
{
}

/// Degree caps: a ground-layer list holds at most `M·γ` neighbors, a list on a
/// higher layer at most `M`; lists hold no repeats and no self-loops.
pub proof fn lemma_degree_caps(idx: &AcornHnswIndex, l: int, u: int)
    requires
        idx.wf(),
        0 <= l < idx.num_layers(),
        0 <= u < idx.num_nodes(),
    ensures
        l == 0 ==> idx.adj(l, u).len() <= idx.m * idx.gamma,
        l > 0 ==> idx.adj(l, u).len() <= idx.m,
        idx.adj(l, u).no_duplicates(),
        !idx.adj(l, u).contains(u as usize),
{
    if idx.adj(l, u).contains(u as usize) {
        let j = choose|j: int| 0 <= j < idx.adj(l, u).len() && idx.adj(l, u)[j] == u as usize;
        assert(idx.adj(l, u)[j] != u);
    }
}

} // verus!
