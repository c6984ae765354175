use oak::acorn::AcornHnswIndex;
use oak::bitmask::Bitmask;
use oak::dataset::{ConstructionError, HybridSearchMetadata, OakIndexOptions, SearchableError};
use oak::distance::squared_distance;
use oak::fvecs::{FlattenedVecs, FvecsDataset, FvecsDatasetPartition};
use oak::levels::{draw_levels, MAX_LEVEL};
use oak::predicate::PredicateQuery;
use rand::rngs::StdRng;
use rand::{Rng, SeedableRng};

fn random_flat(n: usize, d: usize, seed: u64) -> FlattenedVecs {
    let mut rng = StdRng::seed_from_u64(seed);
    let data: Vec<i32> = (0..n * d).map(|_| rng.gen_range(-1000..1000)).collect();
    FlattenedVecs { dimensionality: d, count: n, data }
}

fn random_attrs(n: usize, lo: i32, hi: i32, seed: u64) -> Vec<i32> {
    let mut rng = StdRng::seed_from_u64(seed);
    (0..n).map(|_| rng.gen_range(lo..=hi)).collect()
}

fn brute_force(flat: &FlattenedVecs, q: &[i32], keep: &dyn Fn(usize) -> bool, k: usize) -> Vec<(usize, u128)> {
    let d = flat.dimensionality;
    let mut all: Vec<(usize, u128)> = (0..flat.count)
        .filter(|i| keep(*i))
        .map(|i| (i, squared_distance(q, &flat.data[i * d..i * d + d])))
        .collect();
    all.sort_by(|a, b| (a.1, a.0).cmp(&(b.1, b.0)));
    all.truncate(k);
    all
}

fn options(m: i32, gamma: i32, ef_construction: i32) -> OakIndexOptions {
    OakIndexOptions { m, gamma, m_beta: 64, ef_construction, seed: 42 }
}

fn indexed(flat: FlattenedVecs, attrs: Vec<i32>, opts: &OakIndexOptions) -> FvecsDataset {
    let mut ds = FvecsDataset::new(flat, HybridSearchMetadata::new(attrs));
    ds.initialize(opts).unwrap();
    ds
}

fn neighbours(idx: &AcornHnswIndex, l: usize, u: usize) -> &Vec<usize> {
    &idx.links[l][u]
}

#[test]
fn squared_distance_exact() {
    assert_eq!(squared_distance(&[1, 2, 3], &[4, 6, 3]), 25);
    assert_eq!(squared_distance(&[], &[]), 0);
    assert_eq!(squared_distance(&[i32::MIN], &[i32::MAX]), (u32::MAX as u128) * (u32::MAX as u128));
}

#[test]
fn flattened_rows_and_compaction() {
    let flat = FlattenedVecs { dimensionality: 2, count: 3, data: vec![1, 2, 3, 4, 5, 6] };
    assert_eq!(flat.len(), 3);
    assert_eq!(flat.row(1), vec![3, 4]);
    assert_eq!(flat.to_rows(), vec![vec![1, 2], vec![3, 4], vec![5, 6]]);
    let mask = Bitmask::from_map(vec![1, 0, 1]).unwrap();
    let sub = flat.clone_via_bitmask(&mask);
    assert_eq!(sub.dimensionality, 2);
    assert_eq!(sub.count, 2);
    assert_eq!(sub.data, vec![1, 2, 5, 6]);
    let parts = sub.to_vec();
    assert_eq!(parts.len(), 2);
    assert_eq!(parts[1].data, vec![5, 6]);
}

#[test]
fn levels_are_seeded_and_bounded() {
    let a = draw_levels(500, 4, 9);
    let b = draw_levels(500, 4, 9);
    assert_eq!(a, b);
    assert!(a.iter().all(|l| *l <= MAX_LEVEL));
    let zeros = a.iter().filter(|l| **l == 0).count();
    assert!(zeros > 300 && zeros < 450);
}

#[test]
fn build_graph_is_symmetric_and_capped() {
    let flat = random_flat(300, 4, 1);
    let opts = options(4, 2, 20);
    let idx = AcornHnswIndex::new(flat.to_rows(), 4, &opts).unwrap();
    for l in 0..idx.links.len() {
        let cap = if l == 0 { 8 } else { 4 };
        for u in 0..300 {
            let nb = neighbours(&idx, l, u);
            assert!(nb.len() <= cap);
            for &v in nb {
                assert_ne!(v, u);
                assert!(neighbours(&idx, l, v).contains(&u));
                assert_eq!(nb.iter().filter(|x| **x == v).count(), 1);
            }
        }
    }
    let edges: usize = (0..300).map(|u| neighbours(&idx, 0, u).len()).sum();
    assert!(edges > 300);
}

#[test]
fn build_rejects_bad_input() {
    let rows = vec![vec![1, 2], vec![3]];
    assert_eq!(AcornHnswIndex::new(rows, 2, &options(4, 1, 10)).err(), Some(ConstructionError::ShapeMismatch));
    let rows = vec![vec![1, 2]];
    assert_eq!(AcornHnswIndex::new(rows, 2, &options(1, 1, 10)).err(), Some(ConstructionError::InvalidOptions));
    let rows = vec![vec![1, 2]];
    assert_eq!(AcornHnswIndex::new(rows, 2, &options(4, 0, 10)).err(), Some(ConstructionError::InvalidOptions));
}

#[test]
fn exhaustive_small_masked_top5() {
    let flat = random_flat(100, 8, 2);
    let attrs = random_attrs(100, 0, 4, 3);
    let qflat = random_flat(1, 8, 4);
    let ds = indexed(random_flat(100, 8, 2), attrs.clone(), &options(16, 4, 100));
    let res = ds.search(&qflat, &Some(PredicateQuery::new(2)), 5, 100).unwrap();
    let expected = brute_force(&flat, &qflat.data, &|i| attrs[i] == 2, 5);
    assert_eq!(res.len(), 1);
    assert_eq!(res[0], expected);
}

#[test]
fn all_ones_mask_gives_exact_top_k() {
    let flat = random_flat(1000, 8, 5);
    let ds = indexed(random_flat(1000, 8, 5), vec![0; 1000], &options(16, 2, 100));
    let qflat = random_flat(3, 8, 6);
    let res = ds.search_with_bitmask(&qflat, &Bitmask::new_full(1000), 10, 200).unwrap();
    for (i, r) in res.iter().enumerate() {
        let expected = brute_force(&flat, &qflat.data[i * 8..i * 8 + 8], &|_| true, 10);
        assert_eq!(r, &expected);
    }
    let none = ds.search(&qflat, &None, 10, 200).unwrap();
    assert_eq!(none, res);
}

#[test]
fn all_zeros_mask_gives_empty() {
    let ds = indexed(random_flat(200, 4, 7), vec![1; 200], &options(8, 2, 40));
    let q = random_flat(1, 4, 8);
    let res = ds.search_with_bitmask(&q, &Bitmask::new_empty(200), 10, 50).unwrap();
    assert_eq!(res, vec![Vec::<(usize, u128)>::new()]);
}

#[test]
fn query_of_wrong_dimension_is_rejected() {
    let ds = indexed(random_flat(50, 8, 9), vec![0; 50], &options(8, 1, 20));
    let q = random_flat(1, 7, 10);
    assert_eq!(ds.search(&q, &None, 5, 10), Err(SearchableError::DimensionMismatch));
    let q8 = random_flat(1, 8, 10);
    assert_eq!(ds.search_with_bitmask(&q8, &Bitmask::new_full(49), 5, 10), Err(SearchableError::DimensionMismatch));
}

#[test]
fn search_before_initialize_fails() {
    let ds = FvecsDataset::new(random_flat(10, 2, 11), HybridSearchMetadata::new(vec![0; 10]));
    let q = random_flat(1, 2, 12);
    assert_eq!(ds.search(&q, &None, 3, 10), Err(SearchableError::DatasetIsNotIndexed));
}

#[test]
fn results_are_filtered_sorted_and_exact() {
    let flat = random_flat(400, 6, 13);
    let attrs = random_attrs(400, 0, 3, 14);
    let ds = indexed(random_flat(400, 6, 13), attrs.clone(), &options(8, 4, 40));
    let q = random_flat(4, 6, 15);
    let res = ds.search(&q, &Some(PredicateQuery::new(1)), 8, 30).unwrap();
    for (i, r) in res.iter().enumerate() {
        assert!(r.len() <= 8);
        for w in r.windows(2) {
            assert!((w[0].1, w[0].0) < (w[1].1, w[1].0));
        }
        for (id, d) in r {
            assert_eq!(attrs[*id], 1);
            assert_eq!(*d, squared_distance(&q.data[i * 6..i * 6 + 6], &flat.data[id * 6..id * 6 + 6]));
        }
    }
}

#[test]
fn recall_grows_with_ef_search_here() {
    let flat = random_flat(600, 8, 16);
    let ds = indexed(random_flat(600, 8, 16), vec![0; 600], &options(8, 2, 40));
    let q = random_flat(20, 8, 17);
    let gts: Vec<usize> = (0..20).map(|i| brute_force(&flat, &q.data[i * 8..i * 8 + 8], &|_| true, 1)[0].0).collect();
    let low = ds.search(&q, &None, 10, 10).unwrap();
    let high = ds.search(&q, &None, 10, 600).unwrap();
    let hits_low = oak::recall::count_recall_hits(&gts, &low, 10);
    let hits_high = oak::recall::count_recall_hits(&gts, &high, 10);
    assert!(hits_low <= hits_high);
    assert_eq!(hits_high, 20);
}

#[test]
fn partition_compacts_and_maps_back() {
    let flat = random_flat(300, 4, 18);
    let attrs = random_attrs(300, 0, 2, 19);
    let ds = FvecsDataset::new(random_flat(300, 4, 18), HybridSearchMetadata::new(attrs.clone()));
    let mut part = ds.view(&PredicateQuery::new(2));
    let selected: Vec<usize> = (0..300).filter(|i| attrs[*i] == 2).collect();
    assert_eq!(part.original_indices, selected);
    assert_eq!(part.len(), selected.len());
    assert_eq!(part.get_metadata().len(), selected.len());
    assert!(part.get_metadata().as_slice().iter().all(|a| *a == 2));
    assert_eq!(part.vectors[0], flat.row(selected[0]));
    part.initialize(&options(8, 2, 60)).unwrap();
    let q = random_flat(1, 4, 20);
    let res = part.search_with_bitmask(&q, &part.select_all_mask(), 5, 300).unwrap();
    let expected = brute_force(&flat, &q.data, &|i| attrs[i] == 2, 5);
    assert_eq!(res[0], expected);
    let other = FvecsDatasetPartition::new(&ds, Bitmask::new_empty(300));
    assert_eq!(other.len(), 0);
}

#[test]
fn edge_cases_k_zero_and_empty_index() {
    let ds = indexed(random_flat(30, 3, 21), vec![0; 30], &options(4, 2, 10));
    let q = random_flat(2, 3, 22);
    assert_eq!(ds.search(&q, &None, 0, 10).unwrap(), vec![Vec::new(), Vec::new()]);
    let small_ef = ds.search(&q, &None, 5, 1).unwrap();
    assert!(small_ef.iter().all(|r| r.len() == 5));

    let empty = AcornHnswIndex::new(Vec::new(), 3, &options(4, 2, 10)).unwrap();
    assert_eq!(empty.search(&[1, 2, 3], &Bitmask::new_full(0), 3, 10), Ok(Vec::new()));
    assert_eq!(empty.search(&[1, 2], &Bitmask::new_full(0), 3, 10), Err(SearchableError::DimensionMismatch));
}

#[test]
fn single_node_index_returns_it() {
    let idx = AcornHnswIndex::new(vec![vec![3, 4]], 2, &options(4, 1, 10)).unwrap();
    assert_eq!(idx.search(&[0, 0], &Bitmask::new_full(1), 3, 10), Ok(vec![(0, 25)]));
    assert_eq!(idx.search(&[0, 0], &Bitmask::new_empty(1), 3, 10), Ok(vec![]));
}

#[test]
fn partition_search_before_initialize_fails() {
    let ds = FvecsDataset::new(random_flat(20, 2, 23), HybridSearchMetadata::new(vec![1; 20]));
    let part = ds.view(&PredicateQuery::new(1));
    assert_eq!(part.len(), 20);
    let q = random_flat(1, 2, 24);
    assert_eq!(part.search_with_bitmask(&q, &part.select_all_mask(), 3, 10), Err(SearchableError::DatasetIsNotIndexed));
}

#[test]
fn same_seed_builds_same_graph() {
    let opts = options(6, 2, 30);
    let a = AcornHnswIndex::new(random_flat(250, 4, 25).to_rows(), 4, &opts).unwrap();
    let b = AcornHnswIndex::new(random_flat(250, 4, 25).to_rows(), 4, &opts).unwrap();
    assert_eq!(a.links, b.links);
    assert_eq!((a.entry_point, a.max_level), (b.entry_point, b.max_level));
    assert_eq!(a.levels, draw_levels(250, 6, 42));
    assert_eq!(a.levels[a.entry_point], a.max_level);
    assert_eq!(a.links.len(), a.max_level + 1);
    for l in 0..a.links.len() {
        for u in 0..250 {
            assert!(a.links[l][u].iter().all(|v| a.levels[*v] >= l));
        }
    }
    let q = [1, 2, 3, 4];
    let mask = Bitmask::new_full(250);
    assert_eq!(a.search(&q, &mask, 5, 20), b.search(&q, &mask, 5, 20));
}

#[test]
fn zero_dimension_vectors_are_searchable() {
    let flat = FlattenedVecs { dimensionality: 0, count: 3, data: vec![] };
    assert_eq!(flat.len(), 3);
    assert_eq!(flat.to_rows(), vec![Vec::<i32>::new(); 3]);
    let ds = indexed(flat, vec![0, 1, 0], &options(4, 1, 10));
    let q = FlattenedVecs { dimensionality: 0, count: 1, data: vec![] };
    let res = ds.search(&q, &Some(PredicateQuery::new(0)), 5, 10).unwrap();
    assert_eq!(res.len(), 1);
    assert!(res[0].iter().all(|(id, d)| *d == 0 && *id != 1));
}

#[test]
fn partition_predicate_search_uses_its_own_attributes() {
    let flat = random_flat(200, 3, 26);
    let attrs: Vec<i32> = (0..200).map(|i| if i % 4 == 0 { 5 } else { (i % 3) as i32 }).collect();
    let ds = FvecsDataset::new(random_flat(200, 3, 26), HybridSearchMetadata::new(attrs.clone()));
    let mut part = FvecsDatasetPartition::new(&ds, Bitmask::new_full(200));
    part.initialize(&options(8, 4, 80)).unwrap();
    let q = random_flat(1, 3, 27);
    let res = part.search(&q, &Some(PredicateQuery::new(5)), 4, 200).unwrap();
    let expected = brute_force(&flat, &q.data, &|i| attrs[i] == 5, 4);
    assert_eq!(res[0], expected);
    let all = part.search(&q, &None, 3, 200).unwrap();
    assert_eq!(all[0], brute_force(&flat, &q.data, &|_| true, 3));
}
