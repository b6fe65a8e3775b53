use heapsort::heap::{heapify, heapsort};

#[test]
fn sorts_integers_end_to_end() {
    // Integer mode: "5 3 8 1 9 2" comes out as [ 1 2 3 5 8 9 ].
    let mut values: Vec<i32> = "5 3 8 1 9 2"
        .split(' ')
        .map(|t| t.trim().parse::<i32>().unwrap())
        .collect();
    heapsort(&mut values);
    assert_eq!(values, vec![1, 2, 3, 5, 8, 9]);
}

#[test]
fn sorts_adjacent_pairs() {
    let mut values: Vec<i32> = vec![42, -7, 19, 0, -7, 100, 3];
    heapsort(&mut values);
    for i in 0..values.len() - 1 {
        assert!(values[i] <= values[i + 1]);
    }
}

#[test]
fn keeps_all_elements() {
    let mut values: Vec<i32> = vec![9, 1, 4, 1, 9, 9, 2];
    let mut expected = values.clone();
    heapsort(&mut values);
    expected.sort();
    assert_eq!(values, expected);
}

#[test]
fn sorts_duplicates() {
    let mut values: Vec<i32> = vec![3, 1, 3, 2, 3];
    heapsort(&mut values);
    assert_eq!(values, vec![1, 2, 3, 3, 3]);
}

#[test]
fn empty_stays_empty() {
    let mut values: Vec<i32> = Vec::new();
    heapsort(&mut values);
    assert_eq!(values, Vec::<i32>::new());
}

#[test]
fn singleton_stays_put() {
    let mut values: Vec<i32> = vec![7];
    heapsort(&mut values);
    assert_eq!(values, vec![7]);
}

#[test]
fn sorting_twice_changes_nothing() {
    let mut once: Vec<i32> = vec![5, -2, 5, 0, 13, -2];
    heapsort(&mut once);
    let mut twice = once.clone();
    heapsort(&mut twice);
    assert_eq!(once, twice);
}

#[test]
fn sorts_negative_integers() {
    let mut values: Vec<i32> = vec![-3, 5, -10, 0];
    heapsort(&mut values);
    assert_eq!(values, vec![-10, -3, 0, 5]);
}

#[test]
fn sorts_unsigned_values() {
    let mut values: Vec<u64> = vec![u64::MAX, 0, 77, 77, 1];
    heapsort(&mut values);
    assert_eq!(values, vec![0, 1, 77, 77, u64::MAX]);
}

#[test]
fn heapify_restores_root() {
    // Both children of the root head heaps; heapify lifts the maximum.
    let mut values: Vec<i32> = vec![1, 9, 8];
    heapify(&mut values, 0, 3);
    assert_eq!(values, vec![9, 1, 8]);
}

#[test]
fn heapify_respects_bound() {
    // The element at the bound is outside the heap and must not move.
    let mut values: Vec<i32> = vec![5, 7, 9, 2];
    heapify(&mut values, 0, 3);
    assert_eq!(values, vec![9, 7, 5, 2]);
}

#[test]
fn heapify_ties_keep_parent() {
    // A child only rises when strictly greater, so ties leave everything.
    let mut values: Vec<i32> = vec![4, 4, 4];
    heapify(&mut values, 0, 3);
    assert_eq!(values, vec![4, 4, 4]);
}

#[test]
fn sorts_floats_through_order_preserving_keys() {
    // Float mode: "2.5 1.1 3.3" comes out as [ 1.1 2.5 3.3 ]. Finite
    // doubles map to unsigned keys that preserve their order.
    let encode = |f: f64| -> u64 {
        let b = f.to_bits();
        if b & (1u64 << 63) != 0 { !b } else { b | (1u64 << 63) }
    };
    let decode = |k: u64| -> f64 {
        if k & (1u64 << 63) != 0 { f64::from_bits(k & !(1u64 << 63)) } else { f64::from_bits(!k) }
    };
    let mut keys: Vec<u64> = "2.5 1.1 3.3"
        .split(' ')
        .map(|t| encode(t.trim().parse::<f64>().unwrap()))
        .collect();
    heapsort(&mut keys);
    let sorted: Vec<f64> = keys.into_iter().map(decode).collect();
    assert_eq!(sorted, vec![1.1, 2.5, 3.3]);
}

#[test]
fn sorts_negative_floats_through_keys() {
    let encode = |f: f64| -> u64 {
        let b = f.to_bits();
        if b & (1u64 << 63) != 0 { !b } else { b | (1u64 << 63) }
    };
    let decode = |k: u64| -> f64 {
        if k & (1u64 << 63) != 0 { f64::from_bits(k & !(1u64 << 63)) } else { f64::from_bits(!k) }
    };
    let mut keys: Vec<u64> = vec![-1.5, 2.0, -0.0, 0.5, -3.25]
        .into_iter()
        .map(encode)
        .collect();
    heapsort(&mut keys);
    let sorted: Vec<f64> = keys.into_iter().map(decode).collect();
    assert_eq!(sorted, vec![-3.25, -1.5, -0.0, 0.5, 2.0]);
}
