use oak::bitmask::Bitmask;
use oak::dataset::{HybridSearchMetadata, OakIndexOptions};
use oak::fvecs::{FlattenedVecs, FvecsDataset};
use oak::predicate::PredicateQuery;
use oak::router::{Router, DEFAULT_SCORE_THRESHOLD};
use rand::rngs::StdRng;
use rand::{Rng, SeedableRng};

const N: usize = 10_000;
const D: usize = 8;

fn random_flat(n: usize, d: usize, seed: u64) -> FlattenedVecs {
    let mut rng = StdRng::seed_from_u64(seed);
    let data: Vec<i32> = (0..n * d).map(|_| rng.gen_range(-1000..1000)).collect();
    FlattenedVecs { dimensionality: d, count: n, data }
}

fn setup(tau: u64) -> (Router, Vec<i32>) {
    let mut rng = StdRng::seed_from_u64(31);
    let attrs: Vec<i32> = (0..N).map(|_| rng.gen_range(1..=10)).collect();
    let opts = OakIndexOptions { m: 8, gamma: 1, m_beta: 16, ef_construction: 16, seed: 3 };
    let mut base = FvecsDataset::new(random_flat(N, D, 30), HybridSearchMetadata::new(attrs.clone()));
    base.initialize(&opts).unwrap();
    let mut part = base.view(&PredicateQuery::new(3));
    part.initialize(&opts).unwrap();
    let mu = Bitmask::new(&PredicateQuery::new(3), base.get_metadata());
    let router = Router::new(base, vec![(mu, part)]).with_threshold(tau);
    (router, attrs)
}

#[test]
fn router_prefers_partition() {
    let (router, attrs) = setup(5);
    let nu = Bitmask::new(&PredicateQuery::new(3), router.get_metadata());
    assert_eq!(router.route(&nu), Some(0));
    let q = random_flat(1, D, 32);
    let res = router.search_with_bitmask(&q, &nu, 10, 40).unwrap();
    assert_eq!(res[0].len(), 10);
    assert!(res[0].iter().all(|(id, _)| attrs[*id] == 3));
}

#[test]
fn router_falls_back_to_base() {
    let (router, _) = setup(5);
    let nu = Bitmask::new(&PredicateQuery::new(7), router.get_metadata());
    assert_eq!(router.route(&nu), None);
    let q = random_flat(2, D, 33);
    let routed = router.search_with_bitmask(&q, &nu, 10, 40).unwrap();
    let direct = router.base.search_with_bitmask(&q, &nu, 10, 40).unwrap();
    assert_eq!(routed, direct);
    let by_predicate = router.search(&q, &Some(PredicateQuery::new(7)), 10, 40).unwrap();
    assert_eq!(by_predicate, direct);
}

#[test]
fn router_default_threshold_is_ten() {
    assert_eq!(DEFAULT_SCORE_THRESHOLD, 10);
    let flat = FlattenedVecs { dimensionality: 1, count: 4, data: vec![0, 1, 2, 3] };
    let attrs = vec![1, 1, 2, 2];
    let base = FvecsDataset::new(flat, HybridSearchMetadata::new(attrs));
    let part = base.view(&PredicateQuery::new(1));
    let mu = Bitmask::new(&PredicateQuery::new(1), base.get_metadata());
    let router = Router::new(base, vec![(mu, part)]);
    let nu = Bitmask::new(&PredicateQuery::new(1), router.get_metadata());
    // gain 4/2 times jaccard 1 is 2, not above 10
    assert_eq!(router.route(&nu), None);
    assert_eq!(router.len(), 4);
    assert_eq!(router.get_dimensionality(), 1);
}

#[test]
fn router_without_partitions_is_the_base() {
    let attrs: Vec<i32> = (0..300).map(|i| (i % 5) as i32).collect();
    let mut base = FvecsDataset::new(random_flat(300, D, 40), HybridSearchMetadata::new(attrs));
    base.initialize(&OakIndexOptions { m: 8, gamma: 2, m_beta: 16, ef_construction: 32, seed: 1 }).unwrap();
    let router = Router::new(base, vec![]);
    let nu = Bitmask::new(&PredicateQuery::new(2), router.get_metadata());
    assert_eq!(router.route(&nu), None);
    let q = random_flat(3, D, 41);
    assert_eq!(router.search_with_bitmask(&q, &nu, 5, 50), router.base.search_with_bitmask(&q, &nu, 5, 50));
}
