use rust_recipes::heap::{MaxHeap, MinHeap};

#[test]
fn min_heap_pops_in_ascending_order() {
    let mut h = MinHeap::from_vec(vec![5, 3, 8, 1, 9, 2, 2]);
    assert_eq!(h.len(), 7);
    assert_eq!(h.peek(), Some(&1));
    h.push(-4);
    let mut out = Vec::new();
    while let Some(x) = h.pop() {
        out.push(x);
    }
    assert_eq!(out, vec![-4, 1, 2, 2, 3, 5, 8, 9]);
    assert!(h.is_empty());
    assert_eq!(h.pop(), None);
    assert_eq!(h.peek(), None);
}

#[test]
fn max_heap_pops_in_descending_order() {
    let mut h = MaxHeap::new();
    for v in [4, -1, 10, 7, 7, i64::MAX] {
        h.push(v);
    }
    assert_eq!(h.len(), 6);
    assert_eq!(h.peek(), Some(i64::MAX));
    let mut out = Vec::new();
    while let Some(x) = h.pop() {
        out.push(x);
    }
    assert_eq!(out, vec![i64::MAX, 10, 7, 7, 4, -1]);
    assert!(h.is_empty());
}

#[test]
fn max_heap_takes_every_i64() {
    let mut h = MaxHeap::new();
    h.push(i64::MIN);
    h.push(0);
    h.push(i64::MAX);
    assert_eq!(h.pop(), Some(i64::MAX));
    assert_eq!(h.pop(), Some(0));
    assert_eq!(h.peek(), Some(i64::MIN));
    assert_eq!(h.pop(), Some(i64::MIN));
    assert_eq!(h.pop(), None);
}

#[test]
fn min_heap_drains_sorted() {
    let data = vec![5, -3, 9, 0, -3, 7, 1];
    let mut h = MinHeap::from_vec(data.clone());
    let mut out = Vec::new();
    while let Some(x) = h.pop() {
        out.push(x);
    }
    let mut expected = data;
    expected.sort();
    assert_eq!(out, expected);
}
