use rust_recipes::data_structures::single_linked_list::LinkedList;

#[test]
fn test() {}

#[test]
fn single_linked_list_front_operations() {
    let mut list = LinkedList::new();
    assert_eq!(list.peek(), None);
    assert_eq!(list.pop_front(), None);
    list.push_front(1);
    list.push_front(2);
    assert_eq!(list.peek(), Some(&2));
    *list.peek_mut().unwrap() = 20;
    assert_eq!(list.size(), 2);
    assert_eq!(list.pop_front(), Some(20));
    assert_eq!(list.pop_front(), Some(1));
    assert_eq!(list.pop_front(), None);
    assert_eq!(list.size(), 0);
}

#[test]
fn single_linked_list_push_back_counts_but_stays_off_the_head_chain() {
    let mut list = LinkedList::new();
    list.push_back(1);
    list.push_back(2);
    list.push_front(3);
    assert_eq!(list.size(), 3);
    assert_eq!(list.pop_front(), Some(3));
    assert_eq!(list.pop_front(), None);
    assert_eq!(list.size(), 2);
}

#[test]
fn single_linked_list_iterators() {
    let mut list = LinkedList::new();
    list.push_front(1);
    list.push_front(2);
    list.push_front(3);
    for v in list.iter_mut() {
        *v += 1;
    }
    let seen: Vec<i32> = list.iter().into_iter().copied().collect();
    assert_eq!(seen, vec![4, 3, 2]);
    assert_eq!(list.into_iter(), vec![4, 3, 2]);
}
