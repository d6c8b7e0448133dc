use rust_recipes::data_structures::single_linked_list_raw::LinkedList;

#[test]
fn single_linked_list_raw_push_pop() {
    let mut list: LinkedList<i32> = LinkedList::new();
    assert_eq!(list.pop(), None);
    list.push(1);
    list.push(2);
    list.push(3);
    assert_eq!(list.size(), 3);
    assert_eq!(list.pop(), Some(3));
    assert_eq!(list.pop(), Some(2));
    assert_eq!(list.pop(), Some(1));
    assert_eq!(list.pop(), None);
}

#[test]
fn single_linked_list_raw_peek() {
    let mut list: LinkedList<i32> = LinkedList::new();
    assert_eq!(list.peek(), None);
    list.push(10);
    assert_eq!(list.peek(), Some(&10));
    *list.peek_mut().unwrap() = 99;
    assert_eq!(list.peek(), Some(&99));
}

#[test]
fn single_linked_list_raw_into_iter() {
    let mut list = LinkedList::new();
    list.push(1);
    list.push(2);
    list.push(3);
    let vals: Vec<_> = list.into_iter();
    assert_eq!(vals, vec![3, 2, 1]);
}

#[test]
fn single_linked_list_raw_iter() {
    let mut list = LinkedList::new();
    list.push(1);
    list.push(2);
    list.push(3);
    let vals: Vec<i32> = list.iter().into_iter().copied().collect();
    assert_eq!(vals, vec![3, 2, 1]);
}

#[test]
fn iter_mut() {
    let mut list = LinkedList::new();
    list.push(1);
    list.push(2);
    list.push(3);
    for v in list.iter_mut() {
        *v *= 10;
    }
    let vals: Vec<i32> = list.iter().into_iter().copied().collect();
    assert_eq!(vals, vec![30, 20, 10]);
}

#[test]
fn drop_doesnt_leak() {
    let mut list = LinkedList::new();
    for i in 0..1000 {
        list.push(i);
    }
    assert_eq!(list.size(), 1000);
}

#[test]
fn single_linked_list_raw_pop_after_peek_mut_keeps_rest() {
    let mut list = LinkedList::new();
    list.push(1);
    list.push(2);
    if let Some(x) = list.peek_mut() {
        *x = 7;
    }
    assert_eq!(list.pop(), Some(7));
    assert_eq!(list.pop(), Some(1));
    assert_eq!(list.size(), 0);
}
