use rust_recipes::my_container::MyContainer;
use rust_recipes::my_container2::MyContainer as MyContainer2;

#[test]
fn my_container_test_demo() {
    let mut c = MyContainer::new();
    c.slots.push(10);
    c.slots.push(20);
    c.slots.push(30);

    let mut seen = Vec::new();
    let mut it = c.iter();
    while let Some(&val) = it.next() {
        seen.push(val);
    }
    assert_eq!(seen, vec![10, 20, 30]);

    let mut it = c.iter_mut();
    while let Some(val) = it.next() {
        *val *= 2;
    }
    assert_eq!(c.slots, vec![20, 40, 60]);

    let mut sum = 0;
    let mut it = c.into_iter();
    while let Some(val) = it.next() {
        sum += val;
    }
    assert_eq!(sum, 120);
}

#[test]
fn my_container2_test_demo() {
    let mut c = MyContainer2::new();
    c.slots.push(100);
    c.slots.push(200);
    c.slots.push(300);

    let mut seen = Vec::new();
    let mut it = c.iter();
    while let Some(val) = it.next() {
        seen.push(*val);
    }
    assert_eq!(seen, vec![100, 200, 300]);

    let mut it = c.iter_mut();
    while let Some(val) = it.next() {
        *val += 5;
    }
    assert_eq!(c.slots, vec![105, 205, 305]);

    let mut sum: i32 = 0;
    let mut it = c.into_iter();
    while let Some(val) = it.next() {
        sum += val;
    }
    assert_eq!(sum, 615);
}

#[test]
fn into_iter_hands_out_in_order() {
    let mut c = MyContainer::new();
    c.slots.push('a');
    c.slots.push('b');
    c.slots.push('c');
    let mut it = c.into_iter();
    assert_eq!(it.size_hint(), (3, Some(3)));
    assert_eq!(it.next(), Some('a'));
    assert_eq!(it.size_hint(), (2, Some(2)));
    assert_eq!(it.next(), Some('b'));
    assert_eq!(it.next(), Some('c'));
    assert_eq!(it.next(), None);
    assert_eq!(it.size_hint(), (0, Some(0)));
}

#[test]
fn into_iter_of_second_container_in_order() {
    let mut c = MyContainer2::new();
    c.slots.push(1u8);
    c.slots.push(2u8);
    let mut it = c.into_iter();
    assert_eq!(it.size_hint(), (2, Some(2)));
    assert_eq!(it.next(), Some(1));
    assert_eq!(it.next(), Some(2));
    assert_eq!(it.next(), None);
}

#[test]
fn borrowed_iterators_count_down() {
    let mut c = MyContainer::new();
    c.slots.push(5u32);
    c.slots.push(6u32);
    let mut it = c.iter();
    assert_eq!(it.size_hint(), (2, Some(2)));
    it.next();
    assert_eq!(it.size_hint(), (1, Some(1)));
    let mut it = c.iter_mut();
    assert_eq!(it.size_hint(), (2, Some(2)));
    it.next();
    assert_eq!(it.size_hint(), (1, Some(1)));
    it.next();
    assert!(it.next().is_none());
    let empty: MyContainer<u32> = MyContainer::new();
    assert!(empty.iter().next().is_none());
}
