use std::collections::HashMap;
use vstd::prelude::*;

verus! {

/// The Fibonacci numbers: fib(0) = 0, fib(1) = 1, fib(n) = fib(n - 1) + fib(n - 2).
pub open spec fn fib(n: nat) -> nat
    decreases n,
{
    if n == 0 {
        0
    } else if n == 1 {
        1
    } else {
        fib((n - 2) as nat) + fib((n - 1) as nat)
    }
}

/// `fib` never decreases.
pub proof fn lemma_fib_monotonic(i: nat, j: nat)
    requires
        i <= j,
    ensures
        fib(i) <= fib(j),
    decreases j - i,
{
    if j < 2 || i == j {
    } else if i == j - 1 {
    } else {
        lemma_fib_monotonic(i, (j - 1) as nat);
        lemma_fib_monotonic(i, (j - 2) as nat);
    }
}

/// Iterative Fibonacci.
pub fn fib_iterative(n: u32) -> (r: u64)
    requires
        fib(n as nat) <= u64::MAX,
    ensures
        r == fib(n as nat),
{
    if n == 0 {
        return 0;
    }
    let mut prev: u64 = 0;
    let mut curr: u64 = 1;
    let mut i: u32 = 1;
    while i < n
        invariant
            1 <= i <= n,
            fib(n as nat) <= u64::MAX,
            curr == fib(i as nat),
            prev == fib((i - 1) as nat),
        decreases n - i,
    {
        i = i + 1;
        proof {
            lemma_fib_monotonic(i as nat, n as nat);
        }
        let next = prev + curr;
        prev = curr;
        curr = next;
    }
    curr
}


/// Naive doubly recursive Fibonacci.
pub fn fib_recursive(n: u32) -> (r: u64)
    requires
        fib(n as nat) <= u64::MAX,
    ensures
        r == fib(n as nat),
    decreases n,
{
    match n {
        0 => 0,
        1 => 1,
        _ => {
            proof {
                lemma_fib_monotonic((n - 1) as nat, n as nat);
                lemma_fib_monotonic((n - 2) as nat, n as nat);
            }
            fib_recursive(n - 1) + fib_recursive(n - 2)
        },
    }
}

/// Every entry of the memo table holds the Fibonacci number of its key.
pub open spec fn memo_correct(memo: Map<u32, u64>) -> bool {
    forall|k: u32| #[trigger] memo.contains_key(k) ==> memo[k] == fib(k as nat)
}

/// Memoised Fibonacci: looks the answer up in `memo`, computing and recording it when
/// missing. The table only ever grows and stays correct.
pub fn fib_memo(n: u32, memo: &mut HashMap<u32, u64>) -> (r: u64)
    requires
        fib(n as nat) <= u64::MAX,
        memo_correct(old(memo)@),
    ensures
        r == fib(n as nat),
        memo_correct(final(memo)@),
        final(memo)@.contains_key(n),
        forall|k: u32| old(memo)@.contains_key(k) ==> #[trigger] final(memo)@.contains_key(k),
    decreases n,
{
    broadcast use vstd::std_specs::hash::group_hash_axioms;
    match memo.get(&n) {
        Some(result) => {
            return *result;
        },
        None => {},
    }
    let result: u64 = match n {
        0 => 0,
        1 => 1,
        _ => {
            proof {
                lemma_fib_monotonic((n - 1) as nat, n as nat);
                lemma_fib_monotonic((n - 2) as nat, n as nat);
            }
            let a = fib_memo(n - 1, memo);
            let b = fib_memo(n - 2, memo);
            a + b
        },
    };
    memo.insert(n, result);
    result
}

} // verus!

