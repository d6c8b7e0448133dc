use rust_recipes::double_linked_list::LinkedList;

#[test]
fn push_pop_front() {
    let mut l = LinkedList::new();
    l.push_front(3);
    l.push_front(2);
    l.push_front(1);
    assert_eq!(l.len(), 3);
    assert_eq!(l.pop_front(), Some(1));
    assert_eq!(l.pop_front(), Some(2));
    assert_eq!(l.pop_front(), Some(3));
    assert_eq!(l.pop_front(), None);
    assert_eq!(l.len(), 0);
}

#[test]
fn push_pop_back() {
    let mut l = LinkedList::new();
    l.push_back(1);
    l.push_back(2);
    l.push_back(3);
    assert_eq!(l.pop_back(), Some(3));
    assert_eq!(l.pop_back(), Some(2));
    assert_eq!(l.pop_back(), Some(1));
    assert_eq!(l.pop_back(), None);
}

#[test]
fn mixed_push_pop() {
    let mut l = LinkedList::new();
    l.push_back(2);
    l.push_front(1);
    l.push_back(3);
    assert_eq!(l.pop_front(), Some(1));
    assert_eq!(l.pop_back(), Some(3));
    assert_eq!(l.pop_front(), Some(2));
    assert!(l.is_empty());
}

#[test]
fn double_linked_list_peek() {
    let mut l = LinkedList::new();
    assert!(l.peek_front().is_none());
    l.push_back(10);
    l.push_back(20);
    assert_eq!(*l.peek_front().unwrap(), 10);
    assert_eq!(*l.peek_back().unwrap(), 20);
}

#[test]
fn iter_forward() {
    let mut l = LinkedList::new();
    for i in 1..=4 {
        l.push_back(i);
    }
    let mut v = Vec::new();
    let mut it = l.iter();
    while let Some(x) = it.next() {
        v.push(*x);
    }
    assert_eq!(v, vec![1, 2, 3, 4]);
}

#[test]
fn iter_backward() {
    let mut l = LinkedList::new();
    for i in 1..=4 {
        l.push_back(i);
    }
    let mut v = Vec::new();
    let mut it = l.iter();
    while let Some(x) = it.next_back() {
        v.push(*x);
    }
    assert_eq!(v, vec![4, 3, 2, 1]);
}

#[test]
fn double_linked_list_into_iter() {
    let mut l = LinkedList::new();
    for i in 1..=3 {
        l.push_back(i);
    }
    let mut v = Vec::new();
    let mut it = l.into_iter();
    while let Some(x) = it.next() {
        v.push(x);
    }
    assert_eq!(v, vec![1, 2, 3]);
}

#[test]
fn into_iter_rev() {
    let mut l = LinkedList::new();
    for i in 1..=3 {
        l.push_back(i);
    }
    let mut v = Vec::new();
    let mut it = l.into_iter();
    while let Some(x) = it.next_back() {
        v.push(x);
    }
    assert_eq!(v, vec![3, 2, 1]);
}

#[test]
fn exact_size() {
    let mut l = LinkedList::new();
    l.push_back(1);
    l.push_back(2);
    assert_eq!(l.iter().len(), 2);
}

#[test]
fn drop_no_leak() {
    let mut l = LinkedList::new();
    for i in 0..10_000 {
        l.push_back(i);
    }
    drop(l);
}

#[test]
fn double_linked_list_iter_from_both_ends_meets_in_the_middle() {
    let mut l: LinkedList<i32> = LinkedList::default();
    for i in 1..=3 {
        l.push_back(i);
    }
    let mut it = l.iter();
    assert_eq!(it.next(), Some(&1));
    assert_eq!(it.next_back(), Some(&3));
    assert_eq!(it.len(), 1);
    assert_eq!(it.next(), Some(&2));
    assert_eq!(it.next_back(), None);
    assert_eq!(it.next(), None);
}

#[test]
fn double_linked_list_reuses_freed_nodes() {
    let mut l = LinkedList::new();
    for round in 0..5 {
        l.push_back(round);
        l.push_front(round + 100);
        assert_eq!(l.pop_back(), Some(round));
    }
    let mut it = l.into_iter();
    let mut v = Vec::new();
    while let Some(x) = it.next() {
        v.push(x);
    }
    assert_eq!(v, vec![104, 103, 102, 101, 100]);
}
