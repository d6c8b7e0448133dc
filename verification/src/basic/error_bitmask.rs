//! Error handling by bit mask, for ultra low latency paths: every error kind is one
//! bit of a `u128`, and a set of errors is their union.
use vstd::prelude::*;

verus! {

/// The bits of the error kinds; `ErrorCode(PARSE_ERROR)` is a parse error.
pub const OK: u128 = 0;
pub const PARSE_ERROR: u128 = 1;
pub const INVALID_PARA: u128 = 2;
pub const RATE_LIMIT: u128 = 4;
pub const INSUFFICIENT_FUND: u128 = 8;
pub const INVALID_PRICE: u128 = 16;
pub const EXCEEDS_LIMIT: u128 = 32;

pub struct ErrorCode(pub u128);

impl ErrorCode {

    /// The union of both error sets.
    pub fn or(&self, other: ErrorCode) -> (r: ErrorCode)
        ensures
            r.0 == self.0 | other.0,
    {
        ErrorCode(self.0 | other.0)
    }

    /// No error bit is set.
    pub fn is_ok(&self) -> (r: bool)
        ensures
            r == (self.0 == 0),
    {
        self.0 == 0
    }

    /// The two error sets share a bit.
    pub fn has_error(&self, other: ErrorCode) -> (r: bool)
        ensures
            r == (self.0 & other.0 != 0),
    {
        (self.0 & other.0) != 0
    }
}

/// Accumulates checks into an error code.
pub struct Checker {
    err: ErrorCode,
}

impl Checker {
    /// The error code collected so far.
    pub closed spec fn code(&self) -> u128 {
        self.err.0
    }

    pub fn new() -> (c: Self)
        ensures
            c.code() == 0,
    {
        Checker { err: ErrorCode(OK) }
    }

    /// Evaluates a failed-check flag. The union `or` computes is discarded, so the
    /// collected code stays as it was.
    pub fn check(&mut self, condition: bool, flag: ErrorCode)
        ensures
            final(self).code() == old(self).code(),
    {
        if condition {
            let _ = self.err.or(flag);
        }
    }

    pub fn is_ok(&self) -> (r: bool)
        ensures
            r == (self.code() == 0),
    {
        self.err.is_ok()
    }

    pub fn finish(self) -> (r: ErrorCode)
        ensures
            r.0 == self.code(),
    {
        self.err
    }
}

/// A union of error sets contains each of them, and is ok only when both are.
pub proof fn law_or_keeps_every_error(a: u128, b: u128)
    ensures
        (a | b) & a == a,
        (a | b) & b == b,
        ((a | b) == 0) == (a == 0 && b == 0),
{
    assert((a | b) & a == a) by (bit_vector);
    assert((a | b) & b == b) by (bit_vector);
    assert(((a | b) == 0) == (a == 0 && b == 0)) by (bit_vector);
}

} // verus!
