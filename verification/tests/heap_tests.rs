use hnsw_ann::heap::BinaryHeap;
use hnsw_ann::neighbor::Neighbor;

#[test]
fn peek_returns_maximum_after_pushes() {
    let mut h = BinaryHeap::new();
    assert!(h.peek().is_none());
    h.push(Neighbor::new(1, 30));
    assert_eq!(h.peek().unwrap()._distance, 30);
    h.push(Neighbor::new(2, 10));
    assert_eq!(h.peek().unwrap()._distance, 30);
    h.push(Neighbor::new(3, 40));
    assert_eq!(h.peek().unwrap()._distance, 40);
    h.push(Neighbor::new(4, 25));
    assert_eq!(h.peek().unwrap()._distance, 40);
}

#[test]
fn peek_returns_maximum_through_push_pop_sequences() {
    let mut h = BinaryHeap::new();
    h.push(Neighbor::new(0, 5));
    h.push(Neighbor::new(1, 9));
    h.push(Neighbor::new(2, 1));
    assert_eq!(h.pop().unwrap()._distance, 9);
    assert_eq!(h.peek().unwrap()._distance, 5);
    h.push(Neighbor::new(3, 7));
    h.push(Neighbor::new(4, -3));
    assert_eq!(h.peek().unwrap()._distance, 7);
    assert_eq!(h.pop().unwrap()._distance, 7);
    assert_eq!(h.pop().unwrap()._distance, 5);
    assert_eq!(h.pop().unwrap()._distance, 1);
    assert_eq!(h.pop().unwrap()._distance, -3);
    assert!(h.pop().is_none());
}

#[test]
fn into_sorted_vec_is_ascending_with_same_multiset() {
    let mut h = BinaryHeap::new();
    let distances: [i64; 7] = [4, -1, 9, 4, 0, 12, 3];
    for (i, d) in distances.iter().enumerate() {
        h.push(Neighbor::new(i, *d));
    }
    let sorted = h.into_sorted_vec();
    assert_eq!(sorted.len(), distances.len());
    for w in sorted.windows(2) {
        assert!(w[0]._distance <= w[1]._distance);
    }
    let mut expected: Vec<i64> = distances.to_vec();
    expected.sort();
    let got: Vec<i64> = sorted.iter().map(|n| n._distance).collect();
    assert_eq!(got, expected);
}

#[test]
fn bounded_push_retains_the_k_smallest_in_any_order() {
    let orders: [[i64; 6]; 3] = [
        [10, 20, 30, 40, 50, 60],
        [60, 50, 40, 30, 20, 10],
        [30, 60, 10, 50, 20, 40],
    ];
    for order in orders.iter() {
        let mut h = BinaryHeap::new();
        for (i, d) in order.iter().enumerate() {
            h.push_bounded(Neighbor::new(i, *d), 3);
        }
        let sorted = h.into_sorted_vec();
        let got: Vec<i64> = sorted.iter().map(|n| n._distance).collect();
        assert_eq!(got, vec![10, 20, 30]);
    }
}

#[test]
fn bounded_push_keeps_everything_under_capacity() {
    let mut h = BinaryHeap::new();
    h.push_bounded(Neighbor::new(0, 8), 5);
    h.push_bounded(Neighbor::new(1, 2), 5);
    h.push_bounded(Neighbor::new(2, 5), 5);
    assert_eq!(h.len(), 3);
    let got: Vec<i64> = h.into_sorted_vec().iter().map(|n| n._distance).collect();
    assert_eq!(got, vec![2, 5, 8]);
}

#[test]
fn k_smallest_of_a_list_in_any_order() {
    let records = vec![
        Neighbor::new(0, 70),
        Neighbor::new(1, 10),
        Neighbor::new(2, 50),
        Neighbor::new(3, 30),
        Neighbor::new(4, 90),
    ];
    let h = BinaryHeap::k_smallest_of(&records, 2);
    let got: Vec<i64> = h.into_sorted_vec().iter().map(|n| n._distance).collect();
    assert_eq!(got, vec![10, 30]);
}

#[test]
fn with_capacity_starts_empty() {
    let h = BinaryHeap::with_capacity(16);
    assert!(h.is_empty());
    assert_eq!(h.len(), 0);
}
