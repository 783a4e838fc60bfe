//! Calendar dates in the strict `YYYY-MM-DD` string form.
//!
//! An entry's primary key is its date string; the store rejects a string that
//! is not a real calendar date, so validity is pinned down here once, as a
//! spec-level definition with a verified executable check.

use vstd::prelude::*;

verus! {

/// `c` is an ASCII decimal digit.
pub open spec fn is_digit(c: char) -> bool {
    48 <= c as u32 <= 57
}

/// Numeric value of an ASCII decimal digit.
pub open spec fn digit_val(c: char) -> int {
    c as u32 - 48
}

/// Year encoded by the first four characters of a `YYYY-MM-DD` string.
pub open spec fn year_of(s: Seq<char>) -> int
    recommends
        s.len() == 10,
{
    1000 * digit_val(s[0]) + 100 * digit_val(s[1]) + 10 * digit_val(s[2]) + digit_val(s[3])
}

/// Month encoded by characters five and six of a `YYYY-MM-DD` string.
pub open spec fn month_of(s: Seq<char>) -> int
    recommends
        s.len() == 10,
{
    10 * digit_val(s[5]) + digit_val(s[6])
}

/// Day encoded by the last two characters of a `YYYY-MM-DD` string.
pub open spec fn day_of(s: Seq<char>) -> int
    recommends
        s.len() == 10,
{
    10 * digit_val(s[8]) + digit_val(s[9])
}

/// Gregorian leap-year rule.
pub open spec fn is_leap_year(y: int) -> bool {
    y % 4 == 0 && (y % 100 != 0 || y % 400 == 0)
}

/// Number of days in month `m` of year `y`.
pub open spec fn days_in_month(y: int, m: int) -> int {
    if m == 2 {
        if is_leap_year(y) {
            29
        } else {
            28
        }
    } else if m == 4 || m == 6 || m == 9 || m == 11 {
        30
    } else {
        31
    }
}

/// The string is exactly ten characters, shaped `YYYY-MM-DD` with decimal
/// digits, and names a real Gregorian calendar date.
pub open spec fn valid_date(s: Seq<char>) -> bool {
    &&& s.len() == 10
    &&& is_digit(s[0])
    &&& is_digit(s[1])
    &&& is_digit(s[2])
    &&& is_digit(s[3])
    &&& s[4] == '-'
    &&& is_digit(s[5])
    &&& is_digit(s[6])
    &&& s[7] == '-'
    &&& is_digit(s[8])
    &&& is_digit(s[9])
    &&& 1 <= month_of(s) <= 12
    &&& 1 <= day_of(s) <= days_in_month(year_of(s), month_of(s))
}

/// Executable check that returns the digit value of `c`, or `None` when `c`
/// is not an ASCII digit.
fn digit_of(c: char) -> (r: Option<u32>)
    ensures
        r is Some <==> is_digit(c),
        r is Some ==> r->0 == digit_val(c),
{
    let v = c as u32;
    if 48 <= v && v <= 57 {
        Some(v - 48)
    } else {
        None
    }
}

/// Verified check that `s` is a valid `YYYY-MM-DD` calendar date.
pub fn is_valid_date(s: &str) -> (r: bool)
    ensures
        r == valid_date(s@),
{
    if s.unicode_len() != 10 {
        return false;
    }
    if s.get_char(4) != '-' || s.get_char(7) != '-' {
        return false;
    }
    let d0 = digit_of(s.get_char(0));
    let d1 = digit_of(s.get_char(1));
    let d2 = digit_of(s.get_char(2));
    let d3 = digit_of(s.get_char(3));
    let m0 = digit_of(s.get_char(5));
    let m1 = digit_of(s.get_char(6));
    let a0 = digit_of(s.get_char(8));
    let a1 = digit_of(s.get_char(9));
    match (d0, d1, d2, d3, m0, m1, a0, a1) {
        (Some(d0), Some(d1), Some(d2), Some(d3), Some(m0), Some(m1), Some(a0), Some(a1)) => {
            let year = 1000 * d0 + 100 * d1 + 10 * d2 + d3;
            let month = 10 * m0 + m1;
            let day = 10 * a0 + a1;
            if month < 1 || month > 12 {
                return false;
            }
            let max_day: u32 = if month == 2 {
                if year % 4 == 0 && (year % 100 != 0 || year % 400 == 0) {
                    29
                } else {
                    28
                }
            } else if month == 4 || month == 6 || month == 9 || month == 11 {
                30
            } else {
                31
            };
            1 <= day && day <= max_day
        },
        _ => false,
    }
}

} // verus!
