//! What the standard library's text functions that the parsers call do, stated over
//! the characters of the text.
use vstd::prelude::*;

verus! {

/// Whether `c` has the Unicode `White_Space` property, which is what `char::is_whitespace`
/// and `str::trim` go by.
pub open spec fn is_white_space(c: char) -> bool {
    let n = c as u32;
    ||| 0x9 <= n <= 0xd
    ||| n == 0x20
    ||| n == 0x85
    ||| n == 0xa0
    ||| n == 0x1680
    ||| 0x2000 <= n <= 0x200a
    ||| n == 0x2028
    ||| n == 0x2029
    ||| n == 0x202f
    ||| n == 0x205f
    ||| n == 0x3000
}

/// `s` without its leading white space.
pub open spec fn trim_start(s: Seq<char>) -> Seq<char>
    decreases s.len(),
{
    if s.len() > 0 && is_white_space(s[0]) {
        trim_start(s.drop_first())
    } else {
        s
    }
}

/// `s` without its trailing white space.
pub open spec fn trim_end(s: Seq<char>) -> Seq<char>
    decreases s.len(),
{
    if s.len() > 0 && is_white_space(s.last()) {
        trim_end(s.drop_last())
    } else {
        s
    }
}

/// `s` without its leading and trailing white space.
pub open spec fn trimmed(s: Seq<char>) -> Seq<char> {
    trim_end(trim_start(s))
}

/// The number that the decimal digits `s` write (0 for no digit).
pub open spec fn digits_value(s: Seq<char>) -> nat
    decreases s.len(),
{
    if s.len() == 0 {
        0
    } else {
        10 * digits_value(s.drop_last()) + (s.last() as nat - '0' as nat) as nat
    }
}

/// The number that `s` writes as an optional `+` followed by one or more decimal digits,
/// or `None` when `s` has another form.
pub open spec fn unsigned_text_value(s: Seq<char>) -> Option<nat> {
    let digits = if s.len() > 0 && s[0] == '+' {
        s.drop_first()
    } else {
        s
    };
    if digits.len() > 0 && forall|i: int| 0 <= i < digits.len() ==> '0' <= #[trigger] digits[i] <= '9' {
        Some(digits_value(digits))
    } else {
        None
    }
}

/// `str::trim`: `s` without its leading and trailing white space.
#[verifier::external_body]
pub(crate) fn trim_text(s: &str) -> (r: &str)
    ensures
        r@ == trimmed(s@),
{
    s.trim()
}

/// `str::parse::<u16>`: succeeds exactly when `s` is an optional `+` followed by decimal
/// digits whose number fits in a `u16`, and gives that number.
#[verifier::external_body]
pub(crate) fn parse_u16(s: &str) -> (r: Result<u16, std::num::ParseIntError>)
    ensures
        r is Ok <==> (unsigned_text_value(s@) matches Some(n) && n <= u16::MAX),
        r matches Ok(n) ==> unsigned_text_value(s@) == Some(n as nat),
{
    s.parse::<u16>()
}

/// `str::parse::<u32>`: succeeds exactly when `s` is an optional `+` followed by decimal
/// digits whose number fits in a `u32`, and gives that number.
#[verifier::external_body]
pub(crate) fn parse_u32(s: &str) -> (r: Result<u32, std::num::ParseIntError>)
    ensures
        r is Ok <==> (unsigned_text_value(s@) matches Some(n) && n <= u32::MAX),
        r matches Ok(n) ==> unsigned_text_value(s@) == Some(n as nat),
{
    s.parse::<u32>()
}

/// The characters of `s`, in order.
pub(crate) fn chars_of(s: &str) -> (r: Vec<char>)
    ensures
        r@ == s@,
{
    broadcast use vstd::string::axiom_spec_iter;
    let mut r: Vec<char> = Vec::new();
    for c in it: s.chars()
        invariant
            it.seq() == s@,
            r@ == s@.take(it.index() as int),
    {
        r.push(c);
    }
    proof {
        assert(r@ =~= s@);
    }
    r
}

/// The number that `s` writes as an optional `+` or `-` followed by one or more decimal
/// digits, or `None` when `s` has another form.
pub open spec fn signed_text_value(s: Seq<char>) -> Option<int> {
    if s.len() > 0 && s[0] == '-' {
        let digits = s.drop_first();
        if digits.len() > 0 && forall|i: int| 0 <= i < digits.len() ==> '0' <= #[trigger] digits[i] <= '9' {
            Some(-(digits_value(digits) as int))
        } else {
            None
        }
    } else {
        match unsigned_text_value(s) {
            Some(n) => Some(n as int),
            None => None,
        }
    }
}

/// `str::parse::<i64>`: succeeds exactly when `s` is an optional `+` or `-` followed by
/// decimal digits whose number fits in an `i64`, and gives that number.
#[verifier::external_body]
pub(crate) fn parse_i64(s: &str) -> (r: Result<i64, std::num::ParseIntError>)
    ensures
        r is Ok <==> (signed_text_value(s@) matches Some(n) && i64::MIN <= n <= i64::MAX),
        r matches Ok(n) ==> signed_text_value(s@) == Some(n as int),
{
    s.parse::<i64>()
}

/// `str::parse::<u8>`: succeeds exactly when `s` is an optional `+` followed by decimal
/// digits whose number fits in a `u8`, and gives that number.
#[verifier::external_body]
pub(crate) fn parse_u8(s: &str) -> (r: Result<u8, std::num::ParseIntError>)
    ensures
        r is Ok <==> (unsigned_text_value(s@) matches Some(n) && n <= u8::MAX),
        r matches Ok(n) ==> unsigned_text_value(s@) == Some(n as nat),
{
    s.parse::<u8>()
}

} // verus!
