//! The ranking order: highest key first, ties in input order, every row
//! exactly once.

use scout::rank_order;

#[test]
fn rank_order_of_nothing_is_empty() {
    assert!(rank_order(&[]).is_empty());
}

#[test]
fn rank_order_sorts_by_key_descending() {
    assert_eq!(rank_order(&[10, 30, 20]), vec![1, 2, 0]);
}

#[test]
fn rank_order_keeps_ties_in_input_order() {
    assert_eq!(rank_order(&[5, 7, 5, 7, 5]), vec![1, 3, 0, 2, 4]);
}

#[test]
fn rank_order_is_a_permutation() {
    let keys = [3u64, 1, 4, 1, 5, 9, 2, 6, 5, 3, 5];
    let mut order = rank_order(&keys);
    for w in order.windows(2) {
        let (a, b) = (w[0], w[1]);
        assert!(keys[a] > keys[b] || (keys[a] == keys[b] && a < b));
    }
    order.sort();
    assert_eq!(order, (0..keys.len()).collect::<Vec<_>>());
}
