use std::collections::HashMap;
use rust_recipes::fib::{fib_iterative, fib_memo, fib_recursive};

#[test]
fn test_fib() {
    let n = 20;
    let iter_result = fib_iterative(n);
    let rec_result = fib_recursive(n);
    let mut memo = HashMap::new();
    let mem_result = fib_memo(n, &mut memo);
    assert_eq!(iter_result, 6765);
    assert_eq!(rec_result, 6765);
    assert_eq!(mem_result, 6765);
}

#[test]
fn fib_small_values_and_limit() {
    assert_eq!(fib_iterative(0), 0);
    assert_eq!(fib_iterative(1), 1);
    assert_eq!(fib_iterative(2), 1);
    assert_eq!(fib_recursive(10), 55);
    // fib(93) is the largest Fibonacci number that fits in a u64
    assert_eq!(fib_iterative(93), 12200160415121876738);
    let mut memo = HashMap::new();
    assert_eq!(fib_memo(93, &mut memo), 12200160415121876738);
    assert_eq!(memo.get(&50), Some(&12586269025));
}
