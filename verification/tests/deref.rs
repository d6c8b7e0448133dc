use rust_recipes::deref::{Email, MyBox, Stack};

#[test]
fn box_derefs_to_its_value() {
    let b = MyBox::new(100_i32);
    assert_eq!(*b, 100);
    let s = MyBox::new(String::from("hi"));
    assert_eq!(s.len(), 2);
}

#[test]
fn email_needs_an_at_sign() {
    let email = Email::new("user@example.com").ok().unwrap();
    assert_eq!(email.split('@').nth(1), Some("example.com"));
    assert_eq!(email.to_uppercase(), "USER@EXAMPLE.COM");
    assert_eq!(Email::new("nobody").err(), Some("not a valid email"));
    assert!(Email::new("@").is_ok());
}

#[test]
fn stack_reads_as_a_slice() {
    let mut stack: Stack<i32> = Stack::new();
    stack.push(1);
    stack.push(2);
    stack.push(3);
    assert_eq!(stack.len(), 3);
    assert!(stack.contains(&2));
    assert_eq!(stack.first(), Some(&1));
    assert_eq!(stack.last(), Some(&3));
    assert_eq!(stack.pop(), Some(3));
    assert_eq!(stack.iter().sum::<i32>(), 3);
}
