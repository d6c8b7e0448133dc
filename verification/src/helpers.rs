//! Small helpers shared across the crate.
use vstd::prelude::*;

verus! {

/// Collects characters into a `String` (`Iterator::collect` on the characters).
#[verifier::external_body]
pub(crate) fn string_from_chars(chars: &Vec<char>) -> (s: String)
    ensures
        s@ == chars@,
{
    chars.iter().collect()
}

/// Twice `x`; what the `call_double!` macro expands to.
pub fn double(x: i32) -> (r: i32)
    requires
        i32::MIN <= 2 * x <= i32::MAX,
    ensures
        r == 2 * x,
{
    x * 2
}

} // verus!
