use rust_recipes::basic::error_bitmask::{Checker, ErrorCode, EXCEEDS_LIMIT, INVALID_PRICE, OK};
use rust_recipes::helpers::double;
use rust_recipes::stack::MyStack;

#[test]
fn error_code_union_and_queries() {
    let e = ErrorCode(INVALID_PRICE).or(ErrorCode(EXCEEDS_LIMIT));
    assert_eq!(e.0, 48);
    assert!(!e.is_ok());
    assert!(e.has_error(ErrorCode(INVALID_PRICE)));
    assert!(!e.has_error(ErrorCode(1)));
    assert!(ErrorCode(OK).is_ok());
}

#[test]
fn checker_keeps_its_code() {
    let mut c = Checker::new();
    c.check(true, ErrorCode(INVALID_PRICE));
    c.check(false, ErrorCode(EXCEEDS_LIMIT));
    assert!(c.is_ok());
    assert_eq!(c.finish().0, 0);
}

#[test]
fn stack_push_pop_peek() {
    let mut s = MyStack::new();
    assert_eq!(s.pop(), None);
    s.push(1);
    s.push(2);
    assert_eq!(s.peek(), Some(&2));
    assert_eq!(s.len(), 2);
    assert_eq!(s.pop(), Some(2));
    assert_eq!(s.pop(), Some(1));
    assert_eq!(s.pop(), None);
    assert_eq!(s.len(), 0);
}

#[test]
fn double_doubles() {
    assert_eq!(double(21), 42);
    assert_eq!(double(-5), -10);
}
