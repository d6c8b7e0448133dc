use rust_recipes::double_linked_list_raw::LinkedList;

#[test]
fn double_linked_list_raw_push_pop() {
    let mut list = LinkedList::new();
    list.push_back(1);
    list.push_back(2);
    list.push_back(3);
    assert_eq!(list.pop_front(), Some(1));
    assert_eq!(list.pop_front(), Some(2));
    assert_eq!(list.pop_back(), Some(3));
    assert_eq!(list.pop_front(), None);
}

#[test]
fn double_linked_list_raw_peek() {
    let mut list = LinkedList::new();
    list.push_back(10);
    list.push_back(20);
    assert_eq!(list.peek_front(), Some(&10));
    assert_eq!(list.peek_back(), Some(&20));
    *list.peek_front_mut().unwrap() = 99;
    assert_eq!(list.peek_front(), Some(&99));
}

#[test]
fn double_linked_list_raw_iter() {
    let mut list = LinkedList::new();
    list.push_back(1);
    list.push_back(2);
    list.push_back(3);
    let mut v = Vec::new();
    let mut it = list.iter();
    while let Some(x) = it.next() {
        v.push(x);
    }
    assert_eq!(v, [&1, &2, &3]);
}

#[test]
fn double_linked_list_raw_into_iter() {
    let mut list = LinkedList::new();
    list.push_back('a');
    list.push_back('b');
    list.push_back('c');
    let mut v = Vec::new();
    let mut it = list.into_iter();
    while let Some(x) = it.next() {
        v.push(x);
    }
    assert_eq!(v, ['a', 'b', 'c']);
}

#[test]
fn double_linked_list_raw_iter_mut_and_back_mut() {
    let mut list = LinkedList::new();
    for i in 1..=3 {
        list.push_back(i);
    }
    {
        let mut it = list.iter_mut();
        while let Some(x) = it.next() {
            *x *= 10;
        }
    }
    *list.peek_back_mut().unwrap() += 1;
    assert_eq!(list.len(), 3);
    assert_eq!(list.pop_back(), Some(31));
    assert_eq!(list.pop_back(), Some(20));
    assert_eq!(list.pop_back(), Some(10));
    assert!(list.is_empty());
}
