use rust_recipes::basic::basic::{
    apply_twice, larger, largest, littlest, longest, parse_positive, read_number_from_string, value_in_cents, AppError,
    Bag, Coin, Config, Container, Fibonacci, RequestBuilder, Stack, User,
};

#[test]
fn longest_by_bytes() {
    assert_eq!(longest("hello", "hi"), "hello");
    assert_eq!(longest("ab", "cd"), "cd");
    assert_eq!(longest("é", "ab"), "ab");
}

#[test]
fn user_lifecycle() {
    let mut u = User::new("alice", "alice@example.com");
    assert!(u.active);
    assert_eq!(u.sign_in_count, 0);
    assert_eq!(u.greet(), "Hello, alice!");
    u.deactivate();
    assert!(!u.active);
    assert_eq!(u.email, "alice@example.com");
}

#[test]
fn coins() {
    assert_eq!(value_in_cents(&Coin::Penny), 1);
    assert_eq!(value_in_cents(&Coin::Nickel), 5);
    assert_eq!(value_in_cents(&Coin::Dime), 10);
    assert_eq!(value_in_cents(&Coin::Quarter("Alaska".to_string())), 25);
}

#[test]
fn reading_counts() {
    assert_eq!(parse_positive("42").ok(), Some(42));
    assert_eq!(parse_positive(" +7 ").ok(), Some(7));
    let neg = parse_positive("-5").unwrap_err();
    assert!(matches!(neg, AppError::NegativeNumber(-5)));
    assert_eq!(neg.to_string(), "negative number: -5");
    let bad = parse_positive("abc").unwrap_err();
    assert_eq!(bad.to_string(), "parse error: invalid digit found in string");
    assert!(bad.source().is_some());
    assert!(neg.source().is_none());
    assert_eq!(read_number_from_string("  99  ").ok(), Some(99));
    assert!(matches!(read_number_from_string("oops"), Err(AppError::Parse(_))));
    assert!(matches!(read_number_from_string("99999999999999999999"), Err(AppError::Parse(_))));
    assert_eq!(AppError::Custom("boom".to_string()).to_string(), "boom");
}

#[test]
fn stack_of_items() {
    let mut s = Stack::new();
    assert!(s.is_empty());
    s.push(1);
    s.push(2);
    assert_eq!(s.peek(), Some(&2));
    assert_eq!(s.len(), 2);
    assert_eq!(s.pop(), Some(2));
    assert_eq!(s.pop(), Some(1));
    assert_eq!(s.pop(), None);
}

#[test]
fn extremes() {
    let nums = [34, 50, 25, 100, 65];
    assert_eq!(*largest(&nums), 100);
    assert_eq!(*littlest(&nums), 25);
    let chars = ['y', 'm', 'a', 'q'];
    assert_eq!(*largest(&chars), 'y');
    assert_eq!(*littlest(&chars), 'a');
    assert_eq!(*larger(&3, &9), 9);
    assert_eq!(*larger(&"b", &"a"), "b");
    let floats = [1.5, 0.5, 2.5];
    assert_eq!(*largest(&floats), 2.5);
}

#[test]
fn bag_container() {
    let bag = Bag(vec![10, 20, 30]);
    assert_eq!(bag.first(), Some(&10));
    assert_eq!(bag.last(), Some(&30));
    assert_eq!(bag.count(), 3);
    let empty: Bag<u8> = Bag(vec![]);
    assert_eq!(empty.first(), None);
}

#[test]
fn closures_applied_twice() {
    assert_eq!(apply_twice(|x| x + 3, 10), 16);
    assert_eq!(apply_twice(|x| x * x, 3), 81);
}

#[test]
fn config_defaults() {
    let c = Config::default();
    assert_eq!((c.width, c.height, c.title.as_str(), c.visible), (800, 600, "App", true));
}

#[test]
fn request_builder() {
    let req = RequestBuilder::new("https://api.example.com/data")
        .method("POST")
        .header("Content-Type", "application/json")
        .header("Authorization", "Bearer token123")
        .header("Content-Type", "text/plain")
        .body("{\"key\":\"value\"}")
        .timeout(60)
        .build();
    assert_eq!(req.url, "https://api.example.com/data");
    assert_eq!(req.method, "POST");
    assert_eq!(req.headers.len(), 2);
    assert!(req.headers.contains(&("Content-Type".to_string(), "text/plain".to_string())));
    assert_eq!(req.body.as_deref(), Some("{\"key\":\"value\"}"));
    assert_eq!(req.timeout, 60);
    let plain = RequestBuilder::new("u").build();
    assert_eq!(plain.method, "GET");
    assert_eq!(plain.timeout, 30);
    assert!(plain.headers.is_empty() && plain.body.is_none());
}

#[test]
fn fibonacci_steps() {
    let mut f = Fibonacci::new();
    let mut got = Vec::new();
    for _ in 0..10 {
        got.push(f.next().unwrap());
    }
    assert_eq!(got, vec![0, 1, 1, 2, 3, 5, 8, 13, 21, 34]);
}
