//! Everyday building blocks: a user record, coins, numbers read from text with their
//! errors, a stack, the largest and smallest of a list, a bag, a configuration with
//! defaults, a request builder and the Fibonacci numbers.
use vstd::prelude::*;

use crate::error_framework::{decimal_text, joined, parse_int_error_text, signed_decimal, signed_text};
use crate::text::{parse_i64, signed_text_value, trim_text, trimmed};
use vstd::std_specs::cmp::PartialOrdSpec;

verus! {

/// The longer of two texts by their length in bytes; on a tie, the second.
pub fn longest<'a>(x: &'a str, y: &'a str) -> (r: &'a str)
    ensures
        r == if x.len() > y.len() {
            x
        } else {
            y
        },
{
    if x.len() > y.len() {
        x
    } else {
        y
    }
}

/// An account of a user.
#[derive(Debug, Clone)]
pub struct User {
    pub username: String,
    pub email: String,
    pub sign_in_count: u64,
    pub active: bool,
}

impl User {
    /// A new, active account that has never signed in.
    pub fn new(username: &str, email: &str) -> (r: Self)
        ensures
            r.username@ == username@,
            r.email@ == email@,
            r.sign_in_count == 0,
            r.active,
    {
        User {
            username: String::from_str(username),
            email: String::from_str(email),
            sign_in_count: 0,
            active: true,
        }
    }

    /// `Hello, <username>!`.
    pub fn greet(&self) -> (r: String)
        ensures
            r@ == "Hello, "@ + self.username@ + "!"@,
    {
        let mut r = joined("Hello, ", self.username.as_str());
        r.append("!");
        r
    }

    /// Marks the account inactive; nothing else changes.
    pub fn deactivate(&mut self)
        ensures
            !final(self).active,
            final(self).username == old(self).username,
            final(self).email == old(self).email,
            final(self).sign_in_count == old(self).sign_in_count,
    {
        self.active = false;
    }
}

/// A coin; a quarter names the state on its back.
#[derive(Debug)]
pub enum Coin {
    Penny,
    Nickel,
    Dime,
    Quarter(String),
}

/// The value of a coin in cents.
pub fn value_in_cents(coin: &Coin) -> (r: u32)
    ensures
        r == match coin {
            Coin::Penny => 1u32,
            Coin::Nickel => 5,
            Coin::Dime => 10,
            Coin::Quarter(_) => 25,
        },
{
    match coin {
        Coin::Penny => 1,
        Coin::Nickel => 5,
        Coin::Dime => 10,
        Coin::Quarter(_) => 25,
    }
}

/// Why a number could not be read.
#[derive(Debug)]
pub enum AppError {
    Parse(std::num::ParseIntError),
    NegativeNumber(i64),
    Custom(String),
}

impl AppError {
    /// The message of the error.
    pub fn to_string(&self) -> (r: String)
        ensures
            self is Parse ==> "parse error: "@.is_prefix_of(r@),
            self matches AppError::NegativeNumber(n) ==> r@ == "negative number: "@ + signed_decimal(
                n as int,
            ),
            self matches AppError::Custom(m) ==> r@ == m@,
    {
        match self {
            AppError::Parse(e) => {
                let text = parse_int_error_text(e);
                joined("parse error: ", text.as_str())
            },
            AppError::NegativeNumber(n) => joined("negative number: ", signed_text(*n).as_str()),
            AppError::Custom(m) => m.clone(),
        }
    }

    /// The parse error behind a `Parse` error.
    pub fn source(&self) -> (r: Option<&std::num::ParseIntError>)
        ensures
            self matches AppError::Parse(e) ==> r == Some(e),
            !(self is Parse) ==> r is None,
    {
        match self {
            AppError::Parse(e) => Some(e),
            _ => None,
        }
    }
}

/// What reading a count from `s` gives: the number that `s` without its surrounding white
/// space writes, when it fits in an `i64` and is not negative.
pub open spec fn count_read(s: Seq<char>, r: Result<u64, AppError>) -> bool {
    match signed_text_value(trimmed(s)) {
        Some(n) => if n < i64::MIN || n > i64::MAX {
            r matches Err(AppError::Parse(_))
        } else if n < 0 {
            r matches Err(AppError::NegativeNumber(m)) && m == n
        } else {
            r == Ok::<u64, AppError>(n as u64)
        },
        None => r matches Err(AppError::Parse(_)),
    }
}

/// Reads a number that may not be negative.
pub fn parse_positive(s: &str) -> (r: Result<u64, AppError>)
    ensures
        count_read(s@, r),
{
    match parse_i64(trim_text(s)) {
        Err(e) => Err(AppError::Parse(e)),
        Ok(n) => if n < 0 {
            Err(AppError::NegativeNumber(n))
        } else {
            Ok(n as u64)
        },
    }
}

/// Reads a number that may not be negative, the same way as [`parse_positive`].
pub fn read_number_from_string(s: &str) -> (r: Result<u64, AppError>)
    ensures
        count_read(s@, r),
{
    let trimmed_text = trim_text(s);
    let n = match parse_i64(trimmed_text) {
        Ok(n) => n,
        Err(e) => {
            return Err(AppError::Parse(e));
        },
    };
    if n < 0 {
        return Err(AppError::NegativeNumber(n));
    }
    Ok(n as u64)
}

/// A stack kept in a vector; its top is the last element.
#[derive(Debug)]
pub struct Stack<T> {
    items: Vec<T>,
}

impl<T> Stack<T> {
    /// The elements, bottom first.
    pub closed spec fn view(&self) -> Seq<T> {
        self.items@
    }

    /// An empty stack.
    pub fn new() -> (r: Self)
        ensures
            r@ == Seq::<T>::empty(),
    {
        Stack { items: Vec::new() }
    }

    /// Puts `item` on top.
    pub fn push(&mut self, item: T)
        ensures
            final(self)@ == old(self)@.push(item),
    {
        self.items.push(item);
    }

    /// Takes the top element off, if any.
    pub fn pop(&mut self) -> (r: Option<T>)
        ensures
            old(self)@.len() == 0 ==> r is None && final(self)@ == old(self)@,
            old(self)@.len() > 0 ==> r == Some(old(self)@.last()) && final(self)@ == old(self)@.drop_last(),
    {
        self.items.pop()
    }

    /// The top element, if any.
    pub fn peek(&self) -> (r: Option<&T>)
        ensures
            self@.len() == 0 ==> r is None,
            self@.len() > 0 ==> r == Some(&self@.last()),
    {
        self.items.last()
    }

    /// Whether the stack holds no element.
    pub fn is_empty(&self) -> (r: bool)
        ensures
            r == (self@.len() == 0),
    {
        self.items.len() == 0
    }

    /// The number of elements.
    pub fn len(&self) -> (r: usize)
        ensures
            r == self@.len(),
    {
        self.items.len()
    }
}

/// Whether Verus knows how `T` orders its values, so that `<` and `>` on them follow
/// `above` and `below`.
pub open spec fn order_is_known<T: PartialOrd>() -> bool {
    T::obeys_partial_cmp_spec()
}

/// Whether `a` orders strictly above `b`.
pub open spec fn above<T: PartialOrd>(a: T, b: T) -> bool {
    a.partial_cmp_spec(&b) == Some(core::cmp::Ordering::Greater)
}

/// Whether `a` orders strictly below `b`.
pub open spec fn below<T: PartialOrd>(a: T, b: T) -> bool {
    a.partial_cmp_spec(&b) == Some(core::cmp::Ordering::Less)
}

/// The element kept by a walk over the first `n` elements of `s` that starts from the
/// first one and takes each element that orders above the one it holds.
pub open spec fn running_largest<T: PartialOrd>(s: Seq<T>, n: int) -> T
    decreases n,
{
    if n <= 1 {
        s[0]
    } else {
        let held = running_largest(s, n - 1);
        if above(s[n - 1], held) {
            s[n - 1]
        } else {
            held
        }
    }
}

/// The element kept by a walk over the first `n` elements of `s` that starts from the
/// first one and takes each element that orders below the one it holds.
pub open spec fn running_littlest<T: PartialOrd>(s: Seq<T>, n: int) -> T
    decreases n,
{
    if n <= 1 {
        s[0]
    } else {
        let held = running_littlest(s, n - 1);
        if below(s[n - 1], held) {
            s[n - 1]
        } else {
            held
        }
    }
}

/// The largest element: the first one that no later element orders above, walking from
/// the front. Where the element type's order is one Verus knows, the result is stated.
pub fn largest<T: PartialOrd>(list: &[T]) -> (r: &T)
    requires
        list@.len() > 0,
    ensures
        exists|i: int| 0 <= i < list@.len() && *r == list@[i],
        order_is_known::<T>() ==> *r == running_largest(list@, list@.len() as int),
{
    let mut held = &list[0];
    let mut i: usize = 0;
    while i < list.len()
        invariant
            0 <= i <= list@.len(),
            exists|k: int| 0 <= k < list@.len() && *held == list@[k],
            order_is_known::<T>() ==> *held == running_largest(list@, if i == 0 {
                1
            } else {
                i as int
            }),
        decreases list@.len() - i,
    {
        let item = &list[i];
        if item > held {
            held = item;
        }
        i = i + 1;
    }
    held
}

/// The smallest element: the first one that no later element orders below, walking from
/// the front. Where the element type's order is one Verus knows, the result is stated.
pub fn littlest<T: PartialOrd>(list: &[T]) -> (r: &T)
    requires
        list@.len() > 0,
    ensures
        exists|i: int| 0 <= i < list@.len() && *r == list@[i],
        order_is_known::<T>() ==> *r == running_littlest(list@, list@.len() as int),
{
    let mut held = &list[0];
    let mut i: usize = 0;
    while i < list.len()
        invariant
            0 <= i <= list@.len(),
            exists|k: int| 0 <= k < list@.len() && *held == list@[k],
            order_is_known::<T>() ==> *held == running_littlest(list@, if i == 0 {
                1
            } else {
                i as int
            }),
        decreases list@.len() - i,
    {
        let item = &list[i];
        if item < held {
            held = item;
        }
        i = i + 1;
    }
    held
}

/// `a` when it orders above `b`, else `b`.
pub fn larger<'a, T: PartialOrd>(a: &'a T, b: &'a T) -> (r: &'a T)
    ensures
        r == a || r == b,
        order_is_known::<T>() ==> r == if above(*a, *b) {
            a
        } else {
            b
        },
{
    if a > b {
        a
    } else {
        b
    }
}

/// A collection that can name its first and last item and count its items.
pub trait Container {
    type Item;

    fn first(&self) -> Option<&Self::Item>;

    fn last(&self) -> Option<&Self::Item>;

    fn count(&self) -> usize;
}

/// A bag of items kept in order.
pub struct Bag<T>(pub Vec<T>);

impl<T> Container for Bag<T> {
    type Item = T;

    /// The first item, if any.
    fn first(&self) -> (r: Option<&T>)
        ensures
            self.0@.len() == 0 ==> r is None,
            self.0@.len() > 0 ==> r == Some(&self.0@[0]),
    {
        self.0.first()
    }

    /// The last item, if any.
    fn last(&self) -> (r: Option<&T>)
        ensures
            self.0@.len() == 0 ==> r is None,
            self.0@.len() > 0 ==> r == Some(&self.0@.last()),
    {
        self.0.last()
    }

    /// The number of items.
    fn count(&self) -> (r: usize)
        ensures
            r == self.0@.len(),
    {
        self.0.len()
    }
}

/// `f` applied to `x`, and then to its own result.
pub fn apply_twice<F: Fn(i32) -> i32>(f: F, x: i32) -> (r: i32)
    requires
        f.requires((x,)),
        forall|y: i32| f.ensures((x,), y) ==> f.requires((y,)),
    ensures
        exists|y: i32| f.ensures((x,), y) && f.ensures((y,), r),
{
    let y = f(x);
    f(y)
}

/// The settings of a window.
#[derive(Debug, Clone)]
pub struct Config {
    pub width: u32,
    pub height: u32,
    pub title: String,
    pub visible: bool,
}

impl Default for Config {
    /// An 800 by 600 visible window titled `App`.
    fn default() -> (r: Self)
        ensures
            r.width == 800,
            r.height == 600,
            r.title@ == "App"@,
            r.visible,
    {
        Config { width: 800, height: 600, title: String::from_str("App"), visible: true }
    }
}

/// A request as sent: its headers are name and value pairs, each name once.
#[derive(Debug)]
pub struct Request {
    pub url: String,
    pub method: String,
    pub headers: Vec<(String, String)>,
    pub body: Option<String>,
    pub timeout: u32,
}

/// The headers given as name and value pairs, as a map from name to value.
pub open spec fn header_map(h: Seq<(String, String)>) -> Map<Seq<char>, Seq<char>>
    decreases h.len(),
{
    if h.len() == 0 {
        Map::empty()
    } else {
        header_map(h.drop_last()).insert(h.last().0@, h.last().1@)
    }
}

/// No two headers share a name.
pub open spec fn names_unique(h: Seq<(String, String)>) -> bool {
    forall|i: int, j: int| 0 <= i < j < h.len() ==> h[i].0@ != h[j].0@
}

/// Builds a request step by step: a GET with a 30 second timeout, no header and no body
/// unless set.
pub struct RequestBuilder {
    url: String,
    method: String,
    headers: Vec<(String, String)>,
    body: Option<String>,
    timeout: u32,
}

impl RequestBuilder {
    pub closed spec fn url(&self) -> Seq<char> {
        self.url@
    }

    pub closed spec fn method_name(&self) -> Seq<char> {
        self.method@
    }

    pub closed spec fn header_values(&self) -> Map<Seq<char>, Seq<char>> {
        header_map(self.headers@)
    }

    pub closed spec fn body_text(&self) -> Option<Seq<char>> {
        match self.body {
            Some(b) => Some(b@),
            None => None,
        }
    }

    pub closed spec fn timeout_secs(&self) -> u32 {
        self.timeout
    }

    pub closed spec fn wf(&self) -> bool {
        names_unique(self.headers@)
    }

    /// A GET request to `url` with a 30 second timeout.
    pub fn new(url: &str) -> (r: Self)
        ensures
            r.wf(),
            r.url() == url@,
            r.method_name() == "GET"@,
            r.header_values() == Map::<Seq<char>, Seq<char>>::empty(),
            r.body_text() is None,
            r.timeout_secs() == 30,
    {
        RequestBuilder {
            url: String::from_str(url),
            method: String::from_str("GET"),
            headers: Vec::new(),
            body: None,
            timeout: 30,
        }
    }

    /// Sets the method.
    pub fn method(self, m: &str) -> (r: Self)
        requires
            self.wf(),
        ensures
            r.wf(),
            r.method_name() == m@,
            r.url() == self.url(),
            r.header_values() == self.header_values(),
            r.body_text() == self.body_text(),
            r.timeout_secs() == self.timeout_secs(),
    {
        let mut b = self;
        b.method = String::from_str(m);
        b
    }

    /// Sets the header `k` to `v`, replacing its earlier value.
    pub fn header(self, k: &str, v: &str) -> (r: Self)
        requires
            self.wf(),
        ensures
            r.wf(),
            r.header_values() == self.header_values().insert(k@, v@),
            r.url() == self.url(),
            r.method_name() == self.method_name(),
            r.body_text() == self.body_text(),
            r.timeout_secs() == self.timeout_secs(),
    {
        let mut b = self;
        let key = String::from_str(k);
        let mut i: usize = 0;
        let mut found = false;
        while i < b.headers.len() && !found
            invariant
                i <= b.headers@.len(),
                b.headers@ == self.headers@,
                key@ == k@,
                found ==> i < b.headers@.len() && b.headers@[i as int].0@ == k@,
                !found ==> forall|j: int| 0 <= j < i ==> b.headers@[j].0@ != k@,
            decreases b.headers@.len() - i + if found { 0int } else { 1int },
        {
            if b.headers[i].0 == key {
                found = true;
            } else {
                i = i + 1;
            }
        }
        if found {
            let ghost before = b.headers@;
            let name = b.headers[i].0.clone();
            let pair = (name, String::from_str(v));
            proof {
                lemma_header_map_update(before, i as int, pair);
            }
            b.headers.set(i, pair);
        } else {
            let ghost before = b.headers@;
            b.headers.push((key, String::from_str(v)));
            proof {
                assert(b.headers@.drop_last() =~= before);
            }
        }
        b
    }

    /// Sets the body.
    pub fn body(self, text: &str) -> (r: Self)
        requires
            self.wf(),
        ensures
            r.wf(),
            r.body_text() == Some(text@),
            r.url() == self.url(),
            r.method_name() == self.method_name(),
            r.header_values() == self.header_values(),
            r.timeout_secs() == self.timeout_secs(),
    {
        let mut b = self;
        b.body = Some(String::from_str(text));
        b
    }

    /// Sets the timeout in seconds.
    pub fn timeout(self, secs: u32) -> (r: Self)
        requires
            self.wf(),
        ensures
            r.wf(),
            r.timeout_secs() == secs,
            r.url() == self.url(),
            r.method_name() == self.method_name(),
            r.header_values() == self.header_values(),
            r.body_text() == self.body_text(),
    {
        let mut b = self;
        b.timeout = secs;
        b
    }

    /// The request with everything set so far.
    pub fn build(self) -> (r: Request)
        requires
            self.wf(),
        ensures
            r.url@ == self.url(),
            r.method@ == self.method_name(),
            names_unique(r.headers@),
            header_map(r.headers@) == self.header_values(),
            r.body matches Some(b) ==> self.body_text() == Some(b@),
            r.body is None ==> self.body_text() is None,
            r.timeout == self.timeout_secs(),
    {
        Request { url: self.url, method: self.method, headers: self.headers, body: self.body, timeout: self.timeout }
    }
}

/// Replacing the header at `i` by one of the same name changes the map at that name only.
proof fn lemma_header_map_update(h: Seq<(String, String)>, i: int, pair: (String, String))
    requires
        0 <= i < h.len(),
        names_unique(h),
        pair.0@ == h[i].0@,
    ensures
        header_map(h.update(i, pair)) == header_map(h).insert(pair.0@, pair.1@),
    decreases h.len(),
{
    let u = h.update(i, pair);
    if i == h.len() - 1 {
        assert(u.drop_last() =~= h.drop_last());
    } else {
        lemma_header_map_update(h.drop_last(), i, pair);
        assert(u.drop_last() =~= h.drop_last().update(i, pair));
        assert(h[i].0@ != h.last().0@);
    }
    assert(header_map(u) =~= header_map(h).insert(pair.0@, pair.1@));
}

/// The Fibonacci numbers, one step at a time: the pair of the number to hand out next and
/// the one after it.
pub struct Fibonacci {
    pub a: u64,
    pub b: u64,
}

impl Fibonacci {
    /// Starts at 0, 1.
    pub fn new() -> (r: Self)
        ensures
            r.a == 0,
            r.b == 1,
    {
        Fibonacci { a: 0, b: 1 }
    }

    /// Hands out the current number and moves one step on. The sequence never ends, so
    /// the result is always a number; the step must not overflow.
    pub fn next(&mut self) -> (r: Option<u64>)
        requires
            old(self).a + old(self).b <= u64::MAX,
        ensures
            r == Some(old(self).a),
            final(self).a == old(self).b,
            final(self).b == old(self).a + old(self).b,
    {
        let next = self.a;
        self.a = self.b;
        self.b = next + self.b;
        Some(next)
    }
}

/// The state of a [`Fibonacci`] after `k` steps from its start.
pub open spec fn fibonacci_state(k: nat) -> (nat, nat)
    decreases k,
{
    if k == 0 {
        (0, 1)
    } else {
        let p = fibonacci_state((k - 1) as nat);
        (p.1, p.0 + p.1)
    }
}

/// After `k` steps from its start, a [`Fibonacci`] holds the `k`-th and the next Fibonacci
/// numbers, so its `k`-th step hands out the `k`-th Fibonacci number.
pub proof fn law_fibonacci_steps(k: nat)
    ensures
        fibonacci_state(k) == (crate::fib::fib(k), crate::fib::fib(k + 1)),
    decreases k,
{
    if k > 0 {
        law_fibonacci_steps((k - 1) as nat);
    }
}

/// Taking the top off a stack right after putting `value` on it gives `value` back and
/// leaves the stack as it was.
pub proof fn law_pop_undoes_push<T>(before: Seq<T>, value: T)
    ensures
        before.push(value).len() > 0,
        before.push(value).last() == value,
        before.push(value).drop_last() == before,
{
    assert(before.push(value).drop_last() =~= before);
}

} // verus!
