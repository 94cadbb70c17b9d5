//! The date of Easter Sunday in the Gregorian calendar.

use crate::date::{days_before_year, is_leap_year, serial_of, CalendarDate, MAX_YEAR};
use vstd::prelude::*;

verus! {

/// The position of Easter Sunday of `year`, by the anonymous Gregorian
/// algorithm: 31 times the month plus the day of the month less one.
#[verifier::opaque]
pub open spec fn easter_number(year: int) -> int {
    let a: int = year % 19;
    let b: int = year / 100;
    let c: int = year % 100;
    let d: int = b / 4;
    let e: int = b % 4;
    let f: int = (b + 8) / 25;
    let g: int = (b - f + 1) / 3;
    let h: int = (19 * a + b - d - g + 15) % 30;
    let i: int = c / 4;
    let k: int = c % 4;
    let l: int = (32 + 2 * e + 2 * i - h - k) % 7;
    let m: int = (a + 11 * h + 22 * l) / 451;
    h + l - 7 * m + 114
}

/// Easter Sunday of `year`.
pub open spec fn easter_sunday_of(year: int) -> CalendarDate {
    CalendarDate {
        year: year as i32,
        month: (easter_number(year) / 31) as u32,
        day: (easter_number(year) % 31 + 1) as u32,
    }
}

/// Easter Sunday lies between the 22nd of March and the 25th of April.
pub proof fn lemma_easter_number_range(year: int)
    requires
        0 <= year,
    ensures
        114 <= easter_number(year) <= 148,
{
    reveal(easter_number);
}

/// The serial number of a day between the 22nd of March and the 25th of
/// April, given by its position as `easter_number` counts it.
proof fn lemma_spring_serial(year: int, n: int)
    requires
        114 <= n <= 148,
    ensures
        serial_of(year, n / 31, n % 31 + 1) == 365 * (year - 1) + year / 4 - year / 100 + year
            / 400 + n - 33,
        1 <= n % 31 + 1 <= 31,
        n / 31 == 4 ==> n % 31 + 1 <= 25,
        3 <= n / 31 <= 4,
        serial_of(year, n / 31, n % 31 + 1) == serial_of(year, 3, 22) + (n - 114),
{
    reveal(days_before_year);
    let leap: int = if is_leap_year(year) { 1 } else { 0 };
    assert(days_before_year(year) + leap == 365 * (year - 1) + year / 4 - year / 100 + year / 400);
}

/// How the quotients of a year by 4 and by 400 split over its century and
/// its year within the century.
proof fn lemma_year_split(year: int)
    ensures
        year / 4 == 25 * (year / 100) + (year % 100) / 4,
        year / 400 == (year / 100) / 4,
        year == 100 * (year / 100) + year % 100,
{
}

/// The linear step: with the weekday correction `l` chosen as the algorithm
/// chooses it, the serial number less one leaves the remainder 6.
proof fn lemma_sunday_sum(
    s: int,
    year: int,
    b: int,
    c: int,
    d: int,
    e: int,
    i: int,
    k: int,
    h: int,
    l: int,
    q: int,
    m: int,
    n: int,
)
    requires
        s == 365 * (year - 1) + (25 * b + i) - b + d + n - 33,
        year == 100 * b + c,
        b == 4 * d + e,
        c == 4 * i + k,
        32 + 2 * e + 2 * i - h - k == 7 * q + l,
        n == h + l - 7 * m + 114,
    ensures
        s - 1 == 7 * (20871 * d + 5218 * e + 209 * i + 52 * k - q - m - 37) + 6,
        (s - 1) % 7 == 6,
{
}

/// Easter Sunday is a date of the calendar, and it is a Sunday.
pub proof fn lemma_easter_is_sunday(year: int)
    requires
        0 <= year <= MAX_YEAR,
    ensures
        easter_sunday_of(year).wf(),
        easter_sunday_of(year).year == year,
        easter_sunday_of(year).weekday_index() == 6,
        easter_sunday_of(year).serial() == serial_of(year, 3, 22) + (easter_number(year) - 114),
        114 <= easter_number(year) <= 148,
{
    reveal(easter_number);
    lemma_easter_number_range(year);
    let n: int = easter_number(year);
    lemma_spring_serial(year, n);
    lemma_year_split(year);
    let a: int = year % 19;
    let b: int = year / 100;
    let c: int = year % 100;
    let d: int = b / 4;
    let e: int = b % 4;
    let f: int = (b + 8) / 25;
    let g: int = (b - f + 1) / 3;
    let h: int = (19 * a + b - d - g + 15) % 30;
    let i: int = c / 4;
    let k: int = c % 4;
    let big: int = 32 + 2 * e + 2 * i - h - k;
    let l: int = big % 7;
    let q: int = big / 7;
    let m: int = (a + 11 * h + 22 * l) / 451;
    let s: int = serial_of(year, n / 31, n % 31 + 1);
    lemma_sunday_sum(s, year, b, c, d, e, i, k, h, l, q, m, n);
}

/// Easter Sunday of `year`.
pub fn easter_sunday(year: i32) -> (r: CalendarDate)
    requires
        0 <= year <= MAX_YEAR,
    ensures
        r == easter_sunday_of(year as int),
        r.wf(),
        r.weekday_index() == 6,
{
    let a: i32 = year % 19;
    let b: i32 = year / 100;
    let c: i32 = year % 100;
    let d: i32 = b / 4;
    let e: i32 = b % 4;
    let f: i32 = (b + 8) / 25;
    let g: i32 = (b - f + 1) / 3;
    let h: i32 = (19 * a + b - d - g + 15) % 30;
    let i: i32 = c / 4;
    let k: i32 = c % 4;
    let l: i32 = (32 + 2 * e + 2 * i - h - k) % 7;
    let m: i32 = (a + 11 * h + 22 * l) / 451;
    let n: i32 = h + l - 7 * m + 114;
    proof {
        reveal(easter_number);
        lemma_easter_is_sunday(year as int);
    }
    CalendarDate { year, month: (n / 31) as u32, day: (n % 31 + 1) as u32 }
}

} // verus!
