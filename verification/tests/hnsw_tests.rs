use hnsw_ann::hnsw::{HNSWIndex, HNSWParams};
use hnsw_ann::metrics::Metric;
use hnsw_ann::neighbor::Neighbor;
use hnsw_ann::AnnError;

fn small_params(has_deletion: bool) -> HNSWParams {
    HNSWParams {
        max_item: 100,
        n_neighbor: 4,
        n_neighbor0: 8,
        max_level: 4,
        has_deletion,
        ef_build: 16,
        ef_search: 10,
    }
}

#[test]
fn euclidean_scenario_finds_the_nearest_point() {
    let params = small_params(false);
    let mut index = HNSWIndex::new(2, &params, Metric::Euclidean);
    assert_eq!(index.insert(vec![0, 0]), Ok(0));
    assert_eq!(index.insert(vec![1, 0]), Ok(1));
    assert_eq!(index.insert(vec![0, 1]), Ok(2));
    assert_eq!(index.insert(vec![10, 10]), Ok(3));

    let res = index.search(&vec![0, 0], 1).unwrap();
    assert_eq!(res.len(), 1);
    assert_eq!(res[0].0, 0);
    assert_eq!(res[0].1, 0);

    let res = index.search(&vec![9, 9], 1).unwrap();
    assert_eq!(res.len(), 1);
    assert_eq!(res[0].0, 3);
}

#[test]
fn search_on_an_empty_index_returns_an_empty_result() {
    let params = small_params(false);
    let index = HNSWIndex::new(3, &params, Metric::Euclidean);
    let res = index.search(&vec![7, 7, 7], 5);
    assert_eq!(res, Ok(vec![]));
}

#[test]
fn marking_an_id_deleted_twice_fails_the_second_time() {
    let params = small_params(true);
    let mut index = HNSWIndex::new(2, &params, Metric::Euclidean);
    index.insert(vec![0, 0]).unwrap();
    index.insert(vec![5, 5]).unwrap();
    assert_eq!(index.mark_deleted(0), Ok(()));
    assert_eq!(index.mark_deleted(0), Err(AnnError::AlreadyDeleted));
}

#[test]
fn marking_an_unknown_id_fails() {
    let params = small_params(true);
    let mut index = HNSWIndex::new(2, &params, Metric::Euclidean);
    index.insert(vec![0, 0]).unwrap();
    assert_eq!(index.mark_deleted(42), Err(AnnError::InvalidId));
}

#[test]
fn wrong_dimension_is_rejected_and_the_count_is_unchanged() {
    let params = small_params(false);
    let mut index = HNSWIndex::new(2, &params, Metric::Euclidean);
    index.insert(vec![1, 1]).unwrap();
    assert_eq!(index.insert(vec![1, 2, 3]), Err(AnnError::DimensionMismatch));
    assert_eq!(index.node_count(), 1);
}

#[test]
fn out_of_range_components_are_rejected() {
    let params = small_params(false);
    let mut index = HNSWIndex::new(2, &params, Metric::Euclidean);
    assert_eq!(
        index.insert(vec![2_000_000, 0]),
        Err(AnnError::ComponentOutOfRange)
    );
    assert_eq!(index.node_count(), 0);
}

#[test]
fn a_full_index_rejects_further_insertions() {
    let params = HNSWParams { max_item: 2, ..small_params(false) };
    let mut index = HNSWIndex::new(1, &params, Metric::Manhattan);
    index.insert(vec![1]).unwrap();
    index.insert(vec![2]).unwrap();
    assert_eq!(index.insert(vec![3]), Err(AnnError::CapacityExceeded));
    assert_eq!(index.node_count(), 2);
}

#[test]
fn deletion_aware_search_never_returns_a_tombstoned_id() {
    let params = small_params(true);
    let mut index = HNSWIndex::new(2, &params, Metric::Euclidean);
    index.insert(vec![0, 0]).unwrap();
    index.insert(vec![1, 0]).unwrap();
    index.insert(vec![0, 1]).unwrap();
    index.insert(vec![8, 8]).unwrap();
    index.mark_deleted(0).unwrap();
    let res = index.search(&vec![0, 0], 4).unwrap();
    assert!(!res.is_empty());
    for (id, _) in res.iter() {
        assert_ne!(*id, 0);
    }
}

#[test]
fn heuristic_is_deterministic_on_identical_input() {
    let params = small_params(false);
    let mut index = HNSWIndex::new(2, &params, Metric::Euclidean);
    index.insert_with_level(vec![0, 0], 0).unwrap();
    index.insert_with_level(vec![2, 0], 0).unwrap();
    index.insert_with_level(vec![0, 3], 0).unwrap();
    index.insert_with_level(vec![4, 4], 0).unwrap();
    let candidates = vec![
        Neighbor::new(1, 4),
        Neighbor::new(2, 9),
        Neighbor::new(3, 32),
    ];
    let first = index.get_neighbors_by_heuristic2(&candidates, 2);
    let second = index.get_neighbors_by_heuristic2(&candidates, 2);
    assert_eq!(first, second);
    assert!(!first.is_empty());
    assert_eq!(first[0], Neighbor::new(1, 4));
}

#[test]
fn graph_structure_respects_caps_connectivity_and_no_self_loops() {
    let params = small_params(false);
    let mut index = HNSWIndex::new(2, &params, Metric::Euclidean);
    let points: [[i64; 2]; 6] = [[0, 0], [1, 0], [0, 1], [5, 5], [6, 5], [9, 1]];
    let levels: [usize; 6] = [0, 1, 0, 2, 0, 1];
    for (p, l) in points.iter().zip(levels.iter()) {
        index.insert_with_level(p.to_vec(), *l).unwrap();
    }
    for id in 0..index.node_count() {
        let top = index.get_level(id);
        for level in 0..=top {
            let list = index.get_neighbor(id, level);
            let cap = if level == 0 { 8 } else { 4 };
            assert!(list.len() <= cap);
            for nb in list.iter() {
                assert_ne!(*nb, id);
            }
        }
        assert!(!index.get_neighbor(id, 0).is_empty());
    }
}

#[test]
fn search_respects_k_and_orders_results_by_distance() {
    let params = small_params(false);
    let mut index = HNSWIndex::new(1, &params, Metric::Manhattan);
    for x in 0..10i64 {
        index.insert_with_level(vec![x * x], 0).unwrap();
    }
    let res = index.search(&vec![0], 3).unwrap();
    assert_eq!(res.len(), 3);
    let got: Vec<usize> = res.iter().map(|p| p.0).collect();
    assert_eq!(got, vec![0, 1, 2]);
    for w in res.windows(2) {
        assert!(w[0].1 <= w[1].1);
    }
}

#[test]
fn random_levels_stay_within_the_cap() {
    let params = small_params(false);
    let index = HNSWIndex::new(2, &params, Metric::Euclidean);
    for _ in 0..50 {
        assert!(index.get_random_level() <= 4);
    }
}

#[test]
fn dot_product_search_prefers_the_largest_dot() {
    let params = small_params(false);
    let mut index = HNSWIndex::new(2, &params, Metric::DotProduct);
    index.insert(vec![1, 0]).unwrap();
    index.insert(vec![10, 10]).unwrap();
    index.insert(vec![-5, -5]).unwrap();
    let res = index.search(&vec![1, 1], 1).unwrap();
    assert_eq!(res[0].0, 1);
    assert_eq!(res[0].1, -20);
}
