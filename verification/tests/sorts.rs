use rand::seq::SliceRandom;
use rust_recipes::sorts::{
    bubble_sort, counting_sort, heap_sort, insertion_sort, merge_sort, quick_sort, radix_sort,
    selection_sort, tim_sort,
};

#[test]
fn test_bubble_sort() {
    let mut v = vec![5, 1, 4, 2, 8];
    bubble_sort(&mut v);
    assert_eq!(v, vec![1, 2, 4, 5, 8]);

    let mut v = vec![1, 2, 3, 4, 5];
    bubble_sort(&mut v);
    assert_eq!(v, vec![1, 2, 3, 4, 5]);

    let mut v = vec![5, 4, 3, 2, 1];
    bubble_sort(&mut v);
    assert_eq!(v, vec![1, 2, 3, 4, 5]);

    let mut v: Vec<i32> = vec![];
    bubble_sort(&mut v);
    assert_eq!(v, vec![]);
}

#[test]
fn test_selection_sort() {
    let mut v = vec![64, 25, 12, 22, 11];
    selection_sort(&mut v);
    assert_eq!(v, vec![11, 12, 22, 25, 64]);

    let mut v = vec![3, 1, 2, 1, 3];
    selection_sort(&mut v);
    assert_eq!(v, vec![1, 1, 2, 3, 3]);
}

#[test]
fn test_insertion_sort() {
    let mut v = vec![5, 2, 4, 6, 1, 3];
    insertion_sort(&mut v);
    assert_eq!(v, vec![1, 2, 3, 4, 5, 6]);

    let mut v = vec![2, 1];
    insertion_sort(&mut v);
    assert_eq!(v, vec![1, 2]);
}

#[test]
fn test_merge_sort() {
    let mut v = vec![38, 27, 43, 3, 9, 82, 10];
    merge_sort(&mut v);
    assert_eq!(v, vec![3, 9, 10, 27, 38, 43, 82]);

    let mut v: Vec<i32> = vec![];
    merge_sort(&mut v);
    assert_eq!(v, vec![]);
}

#[test]
fn test_quick_sort() {
    let mut v = vec![3, 1, 4, 1, 5, 9, 2, 6];
    quick_sort(&mut v);
    assert_eq!(v, vec![1, 1, 2, 3, 4, 5, 6, 9]);

    let mut v = vec![1, 2, 3, 4, 5];
    quick_sort(&mut v);
    assert_eq!(v, vec![1, 2, 3, 4, 5]);
}

#[test]
fn test_heap_sort() {
    let mut v = vec![12, 11, 13, 5, 6, 7];
    heap_sort(&mut v);
    assert_eq!(v, vec![5, 6, 7, 11, 12, 13]);

    let mut v = vec![5, 4, 3, 2, 1];
    heap_sort(&mut v);
    assert_eq!(v, vec![1, 2, 3, 4, 5]);
}

#[test]
fn all_sorts_agree_on_duplicates_and_negatives() {
    let input = vec![0, -3, 7, -3, 2, i32::MAX, i32::MIN, 2, 0];
    let mut expected = input.clone();
    expected.sort();
    let sorters: [fn(&mut Vec<i32>); 6] = [bubble_sort, selection_sort, insertion_sort, merge_sort, quick_sort, heap_sort];
    for sort in sorters {
        let mut v = input.clone();
        sort(&mut v);
        assert_eq!(v, expected);
    }
}

#[test]
fn test_counting_sort() {
    let v = vec![4, 2, 2, 8, 3, 3, 1];
    let sorted = counting_sort(&v);
    assert_eq!(sorted, vec![1, 2, 2, 3, 3, 4, 8]);
}

#[test]
fn test_radix_sort() {
    let mut v = vec![170, 45, 75, 90, 802, 24, 2, 66];
    radix_sort(&mut v);
    assert_eq!(v, vec![2, 24, 45, 66, 75, 90, 170, 802]);

    let mut v = vec![1000, 234, 56, 7890, 1];
    radix_sort(&mut v);
    assert_eq!(v, vec![1, 56, 234, 1000, 7890]);
}

#[test]
fn test_tim_sort() {
    let mut v = vec![5, 21, 7, 23, 19, 10, 12, 4, 8];
    tim_sort(&mut v);
    assert_eq!(v, vec![4, 5, 7, 8, 10, 12, 19, 21, 23]);

    let mut rng = rand::rng();
    let mut v: Vec<i32> = (0..100).collect();
    v.shuffle(&mut rng);
    let mut expected = v.clone();
    expected.sort();
    tim_sort(&mut v);
    assert_eq!(v, expected);
}

#[test]
fn counting_sort_edge_cases() {
    assert_eq!(counting_sort(&[]), Vec::<usize>::new());
    assert_eq!(counting_sort(&[7]), vec![7]);
    assert_eq!(counting_sort(&[usize::MAX, usize::MAX - 1]), vec![usize::MAX - 1, usize::MAX]);
}

#[test]
fn radix_sort_single_and_repeated_digits() {
    let mut v: Vec<u32> = vec![];
    radix_sort(&mut v);
    assert!(v.is_empty());
    let mut v = vec![999_999_999, 0, 5, 5, 100_000_000];
    radix_sort(&mut v);
    assert_eq!(v, vec![0, 5, 5, 100_000_000, 999_999_999]);
}

#[test]
fn tim_sort_longer_than_one_run() {
    let mut v: Vec<i32> = (0..200).map(|i| (i * 7919) % 211 - 100).collect();
    let mut expected = v.clone();
    expected.sort();
    tim_sort(&mut v);
    assert_eq!(v, expected);
}
