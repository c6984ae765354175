use oak::bitmask::{Bitmask, Jaccard};
use oak::dataset::{HybridSearchMetadata, OakIndexOptions, SearchableError};
use oak::predicate::{PredicateOp, PredicateQuery, PredicateRhs};
use oak::recall::{calculate_recall_1_at_k, count_recall_hits};

fn mask_of(bits: &[i8]) -> Bitmask {
    Bitmask::from_map(bits.to_vec()).unwrap()
}

#[test]
fn predicate_new_is_equality() {
    let pq = PredicateQuery::new(10);
    assert_eq!(pq.op, PredicateOp::Equals);
    assert_eq!(pq.rhs, PredicateRhs::Number(10));
    assert!(pq.matches(10));
    assert!(!pq.matches(11));
    assert_eq!(PredicateRhs::Number(200).value(), 200);
}

#[test]
fn bitmask_from_predicate_marks_matching_attributes() {
    let meta = HybridSearchMetadata::new(vec![10, 3, 10, 7, 10]);
    let mask = Bitmask::new(&PredicateQuery::new(10), &meta);
    assert_eq!(mask.as_slice(), &[1, 0, 1, 0, 1]);
    assert_eq!(mask.capacity(), 5);
    assert_eq!(mask.bitcount(), 3);
    assert!(mask.as_slice().contains(&1));
    let compiled = PredicateQuery::new(7).compile(&meta);
    assert_eq!(compiled.as_slice(), &[0, 0, 0, 1, 0]);
}

#[test]
fn bitmask_popcount_matches_bits() {
    let mask = mask_of(&[1, 1, 0, 1, 0, 0, 1]);
    let sum: usize = mask.as_slice().iter().map(|b| *b as usize).sum();
    assert_eq!(mask.bitcount(), sum);
    assert_eq!(mask.bitcount(), 4);
}

#[test]
fn bitmask_set_keeps_count() {
    let mut mask = Bitmask::new_empty(4);
    assert_eq!(mask.bitcount(), 0);
    mask.set(2);
    mask.set(2);
    mask.set(0);
    assert_eq!(mask.bitcount(), 2);
    assert!(mask.get(0) && !mask.get(1) && mask.get(2) && !mask.get(3));
}

#[test]
fn bitmask_full_and_empty() {
    let full = Bitmask::new_full(6);
    assert_eq!(full.bitcount(), 6);
    assert_eq!(full.as_slice(), &[1; 6]);
    let empty = Bitmask::new_empty(6);
    assert_eq!(empty.bitcount(), 0);
    assert_eq!(empty.as_slice(), &[0; 6]);
}

#[test]
fn bitmask_from_map_rejects_other_bytes() {
    assert!(Bitmask::from_map(vec![0, 1, 2]).is_none());
    assert!(Bitmask::from_map(vec![-1]).is_none());
    assert!(Bitmask::from_map(vec![]).is_some());
}

#[test]
fn to_hashset_lists_distinct_bytes() {
    let set = mask_of(&[1, 1, 0, 1]).to_hashset();
    assert_eq!(set.len(), 2);
    assert!(set.contains(&0) && set.contains(&1));
    let ones = mask_of(&[1, 1]).to_hashset();
    assert_eq!(ones.len(), 1);
}

#[test]
fn jaccard_counts_intersection_and_union() {
    let a = mask_of(&[1, 1, 0, 0, 1]);
    let b = mask_of(&[0, 1, 1, 0, 1]);
    let j = a.jaccard_similarity(&b).unwrap();
    assert_eq!(j, Jaccard { intersection_count: 2, union_count: 4 });
}

#[test]
fn jaccard_of_mask_with_itself_is_one() {
    let a = mask_of(&[0, 1, 1, 0, 1]);
    let j = a.jaccard_similarity(&a).unwrap();
    assert_eq!(j.intersection_count, 3);
    assert_eq!(j.union_count, 3);
}

#[test]
fn jaccard_with_complement_is_zero() {
    let a = mask_of(&[0, 1, 1, 0, 1]);
    let not_a = mask_of(&[1, 0, 0, 1, 0]);
    let j = a.jaccard_similarity(&not_a).unwrap();
    assert_eq!(j.intersection_count, 0);
    assert_eq!(j.union_count, 5);
}

#[test]
fn jaccard_of_empty_masks_has_zero_union() {
    let a = Bitmask::new_empty(3);
    let j = a.jaccard_similarity(&Bitmask::new_empty(3)).unwrap();
    assert_eq!(j, Jaccard { intersection_count: 0, union_count: 0 });
}

#[test]
fn jaccard_length_mismatch() {
    let a = mask_of(&[1, 0]);
    let b = mask_of(&[1, 0, 1]);
    assert_eq!(a.jaccard_similarity(&b), Err(SearchableError::LengthMismatch));
}

#[test]
fn metadata_new_from_bitmask_keeps_selected() {
    let meta = HybridSearchMetadata::new(vec![5, 6, 7, 8]);
    let mask = mask_of(&[1, 0, 0, 1]);
    let sub = HybridSearchMetadata::new_from_bitmask(&meta, &mask);
    assert_eq!(sub.len(), 2);
    assert_eq!(sub.as_slice(), &[5, 8]);
    assert_eq!(sub.get(1), 8);
}

#[test]
fn default_options() {
    let o = OakIndexOptions::default();
    assert_eq!((o.m, o.gamma, o.m_beta, o.ef_construction, o.seed), (32, 1, 64, 40, 0));
    assert!(o.is_valid());
    assert!(!OakIndexOptions { m: 1, ..o }.is_valid());
    assert!(!OakIndexOptions { gamma: 0, ..o }.is_valid());
}

#[test]
fn recall_at_k_looks_at_first_k() {
    let res = vec![(4usize, 1u128), (9, 2), (2, 5)];
    assert!(calculate_recall_1_at_k(4, &res, 1));
    assert!(!calculate_recall_1_at_k(9, &res, 1));
    assert!(calculate_recall_1_at_k(9, &res, 2));
    assert!(!calculate_recall_1_at_k(7, &res, 3));
    assert!(!calculate_recall_1_at_k(4, &res, 0));
    let all = vec![res.clone(), vec![(1, 0)], vec![]];
    assert_eq!(count_recall_hits(&vec![2, 1, 0], &all, 2), 1);
    assert_eq!(count_recall_hits(&vec![2, 1, 0], &all, 3), 2);
}
