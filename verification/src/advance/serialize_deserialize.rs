//! A calendar date that is written as `MM/DD/YYYY`: its validation, its text form and the
//! parser that reads it back.
use vstd::prelude::*;

use crate::error_framework::{decimal, decimal_text, joined, parse_int_error_text};
use crate::error_raw::{find_from, lemma_find_from, segment};
use crate::helpers::string_from_chars;
use crate::text::{chars_of, digits_value, parse_u16, parse_u8, unsigned_text_value};

verus! {

/// A date: year, month and day.
pub struct UsDate {
    pub year: u16,
    pub month: u8,
    pub day: u8,
}

/// Whether a month and a day are accepted: months 1 to 12 and days 1 to 31.
pub open spec fn plausible(month: int, day: int) -> bool {
    1 <= month <= 12 && 1 <= day <= 31
}

/// `n` in decimal with at least two digits.
pub open spec fn two_digits(n: nat) -> Seq<char> {
    if n < 10 {
        "0"@ + decimal(n)
    } else {
        decimal(n)
    }
}

/// The number that `t` writes, when it has the form `str::parse` reads and fits below
/// `limit`.
pub open spec fn number_below(t: Seq<char>, limit: nat) -> Option<nat> {
    match unsigned_text_value(t) {
        Some(n) => if n < limit {
            Some(n)
        } else {
            None
        },
        None => None,
    }
}

impl UsDate {
    /// The date, when the month is 1 to 12 and the day 1 to 31; else `Invalid date`.
    pub fn new(year: u16, month: u8, day: u8) -> (r: Result<Self, String>)
        ensures
            plausible(month as int, day as int) ==> (r matches Ok(d) && d.year == year && d.month == month
                && d.day == day),
            !plausible(month as int, day as int) ==> (r matches Err(m) && m@ == "Invalid date"@),
    {
        if month == 0 || month > 12 || day == 0 || day > 31 {
            return Err(String::from_str("Invalid date"));
        }
        Ok(UsDate { year, month, day })
    }

    /// The date written as `MM/DD/YYYY`: month and day with at least two digits, the year
    /// as it is.
    pub fn to_us_string(&self) -> (r: String)
        ensures
            r@ == two_digits(self.month as nat) + "/"@ + two_digits(self.day as nat) + "/"@ + decimal(
                self.year as nat,
            ),
    {
        let mut r = padded(self.month);
        r.append("/");
        r.append(padded(self.day).as_str());
        r.append("/");
        r.append(decimal_text(self.year as u64).as_str());
        r
    }
}

/// `n` in decimal with at least two digits.
fn padded(n: u8) -> (r: String)
    ensures
        r@ == two_digits(n as nat),
{
    if n < 10 {
        joined("0", decimal_text(n as u64).as_str())
    } else {
        decimal_text(n as u64)
    }
}

/// What reading `s` as `MM/DD/YYYY` gives. The text must hold exactly two slashes; the
/// month and the day must be numbers that fit in a `u8`, the year one that fits in a
/// `u16`, and month and day must be plausible.
pub open spec fn date_read(s: Seq<char>, r: Result<UsDate, String>) -> bool {
    let i = find_from(s, '/', 0);
    let j = find_from(s, '/', i + 1);
    if !(i < s.len() && j < s.len() && find_from(s, '/', j + 1) == s.len()) {
        r matches Err(m) && m@ == "expected MM/DD/YYYY, got "@ + s
    } else {
        let month = number_below(s.subrange(0, i), 256);
        let day = number_below(s.subrange(i + 1, j), 256);
        let year = number_below(s.subrange(j + 1, s.len() as int), 65536);
        if month is None {
            r matches Err(m) && "invalid month: "@.is_prefix_of(m@)
        } else if day is None {
            r matches Err(m) && "invalid day: "@.is_prefix_of(m@)
        } else if year is None {
            r matches Err(m) && "invalid year: "@.is_prefix_of(m@)
        } else if !plausible(month->0 as int, day->0 as int) {
            r matches Err(m) && m@ == "Invalid date"@
        } else {
            r matches Ok(d) && d.month == month->0 && d.day == day->0 && d.year == year->0
        }
    }
}

/// The index of the first `c` in `chars` at or after `from`, or the length.
fn find_char(chars: &Vec<char>, c: char, from: usize) -> (r: usize)
    requires
        from <= chars@.len(),
    ensures
        r == find_from(chars@, c, from as int),
{
    let mut k = from;
    while k < chars.len() && chars[k] != c
        invariant
            from <= k <= chars@.len(),
            find_from(chars@, c, from as int) == find_from(chars@, c, k as int),
        decreases chars@.len() - k,
    {
        k = k + 1;
    }
    k
}

/// Reads a date written as `MM/DD/YYYY`, with the message of what is wrong when it fails.
pub fn parse_us_date(value: &str) -> (r: Result<UsDate, String>)
    ensures
        date_read(value@, r),
{
    let chars = chars_of(value);
    let len = chars.len();
    let i = find_char(&chars, '/', 0);
    proof {
        lemma_find_from(chars@, '/', 0);
    }
    let j = if i < len {
        find_char(&chars, '/', i + 1)
    } else {
        len
    };
    proof {
        if i < len {
            lemma_find_from(chars@, '/', i + 1);
        }
    }
    let k = if j < len {
        find_char(&chars, '/', j + 1)
    } else {
        len
    };
    if !(i < len && j < len && k == len) {
        let mut m = String::from_str("expected MM/DD/YYYY, got ");
        m.append(value);
        return Err(m);
    }
    let month_text = string_from_chars(&segment(&chars, 0, i));
    let day_text = string_from_chars(&segment(&chars, i + 1, j));
    let year_text = string_from_chars(&segment(&chars, j + 1, len));
    let month = match parse_u8(month_text.as_str()) {
        Ok(n) => n,
        Err(e) => {
            return Err(joined("invalid month: ", parse_int_error_text(&e).as_str()));
        },
    };
    let day = match parse_u8(day_text.as_str()) {
        Ok(n) => n,
        Err(e) => {
            return Err(joined("invalid day: ", parse_int_error_text(&e).as_str()));
        },
    };
    let year = match parse_u16(year_text.as_str()) {
        Ok(n) => n,
        Err(e) => {
            return Err(joined("invalid year: ", parse_int_error_text(&e).as_str()));
        },
    };
    UsDate::new(year, month, day)
}

/// The decimal digits of `n` are digits, at least one, and write `n`.
proof fn lemma_decimal_reads_back(n: nat)
    ensures
        decimal(n).len() >= 1,
        forall|i: int| 0 <= i < decimal(n).len() ==> '0' <= #[trigger] decimal(n)[i] <= '9',
        digits_value(decimal(n)) == n,
    decreases n,
{
    let d = n % 10;
    assert(((48 + d) as char) as nat == 48 + d);
    assert('0' as nat == 48);
    if n >= 10 {
        lemma_decimal_reads_back(n / 10);
        let s = decimal(n);
        assert(s.drop_last() =~= decimal(n / 10));
        assert(s.last() == (48 + d) as char);
        assert(n == 10 * (n / 10) + d);
    } else {
        assert(decimal(n).drop_last() =~= Seq::<char>::empty());
        assert(decimal(n).last() == (48 + n) as char);
    }
}

/// A leading zero does not change the number that digits write.
proof fn lemma_leading_zero(s: Seq<char>)
    ensures
        digits_value(seq!['0'] + s) == digits_value(s),
    decreases s.len(),
{
    assert('0' as nat == 48);
    if s.len() > 0 {
        lemma_leading_zero(s.drop_last());
        assert((seq!['0'] + s).drop_last() =~= seq!['0'] + s.drop_last());
        assert((seq!['0'] + s).last() == s.last());
    } else {
        assert((seq!['0'] + s).drop_last() =~= Seq::<char>::empty());
        assert((seq!['0'] + s).last() == '0');
        assert(digits_value(Seq::<char>::empty()) == 0);
    }
}

/// The two-digit form of `n` is digits only, and reads back as `n`.
proof fn lemma_two_digits_read_back(n: nat)
    ensures
        forall|i: int| 0 <= i < two_digits(n).len() ==> '0' <= #[trigger] two_digits(n)[i] <= '9',
        unsigned_text_value(two_digits(n)) == Some(n),
{
    reveal_strlit("0");
    lemma_decimal_reads_back(n);
    if n < 10 {
        lemma_leading_zero(decimal(n));
        assert(two_digits(n) =~= seq!['0'] + decimal(n));
        let t = two_digits(n);
        assert forall|i: int| 0 <= i < t.len() implies '0' <= #[trigger] t[i] <= '9' by {
            if i > 0 {
                assert(t[i] == decimal(n)[i - 1]);
            }
        }
    }
}

/// Past a stretch without `c` the search for `c` goes on to where the stretch ends.
proof fn lemma_find_past(s: Seq<char>, c: char, i: int, k: int)
    requires
        0 <= i <= k <= s.len(),
        forall|j: int| i <= j < k ==> s[j] != c,
    ensures
        find_from(s, c, i) == find_from(s, c, k),
    decreases k - i,
{
    if i < k {
        lemma_find_past(s, c, i + 1, k);
    }
}

/// Writing a plausible date and reading the text back gives the same date.
pub proof fn law_read_undoes_write(d: UsDate, r: Result<UsDate, String>)
    requires
        plausible(d.month as int, d.day as int),
        date_read(
            two_digits(d.month as nat) + "/"@ + two_digits(d.day as nat) + "/"@ + decimal(d.year as nat),
            r,
        ),
    ensures
        r matches Ok(e) && e.year == d.year && e.month == d.month && e.day == d.day,
{
    reveal_strlit("/");
    let m = two_digits(d.month as nat);
    let dd = two_digits(d.day as nat);
    let y = decimal(d.year as nat);
    lemma_two_digits_read_back(d.month as nat);
    lemma_two_digits_read_back(d.day as nat);
    lemma_decimal_reads_back(d.year as nat);
    let s = m + "/"@ + dd + "/"@ + y;
    assert(s =~= m + seq!['/'] + dd + seq!['/'] + y);
    let i = m.len() as int;
    let j = i + 1 + dd.len();
    assert(s[i] == '/');
    assert(s[j] == '/');
    assert forall|k: int| 0 <= k < i implies s[k] != '/' by {
        assert(s[k] == m[k]);
    }
    assert forall|k: int| i + 1 <= k < j implies s[k] != '/' by {
        assert(s[k] == dd[k - i - 1]);
    }
    assert forall|k: int| j + 1 <= k < s.len() implies s[k] != '/' by {
        assert(s[k] == y[k - j - 1]);
    }
    lemma_find_past(s, '/', 0, i);
    lemma_find_past(s, '/', i + 1, j);
    lemma_find_past(s, '/', j + 1, s.len() as int);
    assert(find_from(s, '/', 0) == i);
    assert(find_from(s, '/', i + 1) == j);
    assert(find_from(s, '/', j + 1) == s.len());
    assert(s.subrange(0, i) =~= m);
    assert(s.subrange(i + 1, j) =~= dd);
    assert(s.subrange(j + 1, s.len() as int) =~= y);
    assert(unsigned_text_value(y) == Some(d.year as nat)) by {
        assert(y[0] != '+');
    }
    assert(m[0] != '+');
    assert(dd[0] != '+');
}

} // verus!
