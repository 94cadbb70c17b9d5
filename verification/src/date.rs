//! Calendar dates of the proleptic Gregorian calendar, their serial day
//! numbers and weekdays, and the date arithmetic the rest of the crate uses.

use chrono::{Datelike, Months, NaiveDate, TimeDelta};
use vstd::prelude::*;

verus! {

/// The earliest year a date can have.
pub const MIN_YEAR: i32 = -262143;

/// The latest year a date can have.
pub const MAX_YEAR: i32 = 262142;

/// Whether `year` is a leap year of the Gregorian calendar.
pub open spec fn is_leap_year(year: int) -> bool {
    year % 4 == 0 && (year % 100 != 0 || year % 400 == 0)
}

/// The number of days of `year`.
pub open spec fn year_length(year: int) -> int {
    if is_leap_year(year) { 366 } else { 365 }
}

/// The number of days of month `month` (1 to 12) of `year`.
pub open spec fn days_in_month(year: int, month: int) -> int {
    if month == 2 {
        if is_leap_year(year) { 29 } else { 28 }
    } else if month == 4 || month == 6 || month == 9 || month == 11 {
        30
    } else {
        31
    }
}

/// The number of days of `year` that lie before the first of `month`.
pub open spec fn days_before_month(year: int, month: int) -> int {
    let leap: int = if is_leap_year(year) { 1 } else { 0 };
    if month <= 1 {
        0
    } else if month == 2 {
        31
    } else if month == 3 {
        59 + leap
    } else if month == 4 {
        90 + leap
    } else if month == 5 {
        120 + leap
    } else if month == 6 {
        151 + leap
    } else if month == 7 {
        181 + leap
    } else if month == 8 {
        212 + leap
    } else if month == 9 {
        243 + leap
    } else if month == 10 {
        273 + leap
    } else if month == 11 {
        304 + leap
    } else {
        334 + leap
    }
}

/// The number of days between the first of January of year 1 and the first
/// of January of `year`, negative before year 1.
#[verifier::opaque]
pub open spec fn days_before_year(year: int) -> int {
    let p: int = year - 1;
    365 * p + p / 4 - p / 100 + p / 400
}

/// Whether (`year`, `month`, `day`) names a day of the calendar within the
/// supported years.
pub open spec fn valid_ymd(year: int, month: int, day: int) -> bool {
    &&& MIN_YEAR <= year <= MAX_YEAR
    &&& 1 <= month <= 12
    &&& 1 <= day <= days_in_month(year, month)
}

/// The serial day number of a date: 1 for the first of January of year 1,
/// and one more for each following day.
pub open spec fn serial_of(year: int, month: int, day: int) -> int {
    days_before_year(year) + days_before_month(year, month) + day
}

/// The serial number of the earliest supported date.
pub open spec fn min_serial() -> int {
    -95746129
}

/// The serial number of the latest supported date.
pub open spec fn max_serial() -> int {
    95745399
}

/// The weekday of the day with serial number `serial`, counted from Monday
/// as 0 to Sunday as 6.
pub open spec fn weekday_index(serial: int) -> int {
    (serial - 1) % 7
}

/// A day of the week.
#[derive(Clone, Copy, Debug, PartialEq, Eq, Structural)]
pub enum Weekday {
    Mon,
    Tue,
    Wed,
    Thu,
    Fri,
    Sat,
    Sun,
}

impl Weekday {
    /// The number of days from Monday to this weekday.
    pub open spec fn index(self) -> int {
        match self {
            Weekday::Mon => 0,
            Weekday::Tue => 1,
            Weekday::Wed => 2,
            Weekday::Thu => 3,
            Weekday::Fri => 4,
            Weekday::Sat => 5,
            Weekday::Sun => 6,
        }
    }

    /// The number of days from Monday to this weekday.
    pub fn num_days_from_monday(self) -> (r: i64)
        ensures
            r == self.index(),
    {
        match self {
            Weekday::Mon => 0,
            Weekday::Tue => 1,
            Weekday::Wed => 2,
            Weekday::Thu => 3,
            Weekday::Fri => 4,
            Weekday::Sat => 5,
            Weekday::Sun => 6,
        }
    }
}

/// A month of the year.
#[derive(Clone, Copy, Debug, PartialEq, Eq, Structural)]
pub enum Month {
    January,
    February,
    March,
    April,
    May,
    June,
    July,
    August,
    September,
    October,
    November,
    December,
}

impl Month {
    /// The month's number, 1 for January to 12 for December.
    pub open spec fn number(self) -> int {
        match self {
            Month::January => 1,
            Month::February => 2,
            Month::March => 3,
            Month::April => 4,
            Month::May => 5,
            Month::June => 6,
            Month::July => 7,
            Month::August => 8,
            Month::September => 9,
            Month::October => 10,
            Month::November => 11,
            Month::December => 12,
        }
    }

    /// The month's number, 1 for January to 12 for December.
    pub fn number_from_month(self) -> (r: u32)
        ensures
            r == self.number(),
    {
        match self {
            Month::January => 1,
            Month::February => 2,
            Month::March => 3,
            Month::April => 4,
            Month::May => 5,
            Month::June => 6,
            Month::July => 7,
            Month::August => 8,
            Month::September => 9,
            Month::October => 10,
            Month::November => 11,
            Month::December => 12,
        }
    }
}

/// A calendar date: a year, a month and a day of the month.
#[derive(Clone, Copy, Debug, PartialEq, Eq, Structural, PartialOrd, Ord, Hash)]
pub struct CalendarDate {
    pub year: i32,
    pub month: u32,
    pub day: u32,
}

impl CalendarDate {
    /// Whether the date exists in the calendar, within the supported years.
    pub open spec fn wf(self) -> bool {
        valid_ymd(self.year as int, self.month as int, self.day as int)
    }

    /// The date's serial day number.
    pub open spec fn serial(self) -> int {
        serial_of(self.year as int, self.month as int, self.day as int)
    }

    /// The date's weekday, from Monday as 0 to Sunday as 6.
    pub open spec fn weekday_index(self) -> int {
        weekday_index(self.serial())
    }

    /// Whether the date comes before `other` in the calendar.
    pub open spec fn before(self, other: CalendarDate) -> bool {
        self.year < other.year || (self.year == other.year && (self.month < other.month || (
        self.month == other.month && self.day < other.day)))
    }

    /// Whether the date lies in the same month of the same year as `other`.
    pub open spec fn same_month(self, other: CalendarDate) -> bool {
        self.year == other.year && self.month == other.month
    }

    /// Whether the month after the date's month lies within the supported
    /// years.
    pub open spec fn has_following_month(self) -> bool {
        self.year < MAX_YEAR || self.month < 12
    }

    /// The last day of the date's month.
    pub open spec fn end_of_month(self) -> CalendarDate {
        CalendarDate {
            year: self.year,
            month: self.month,
            day: days_in_month(self.year as int, self.month as int) as u32,
        }
    }

    /// Whether the date is the last day of its month.
    pub open spec fn is_end_of_month(self) -> bool {
        self.day as int == days_in_month(self.year as int, self.month as int)
    }

    /// The date `months` months later, with the day of the month clamped to
    /// the length of the month reached.
    pub open spec fn months_added(self, months: int) -> CalendarDate {
        let total: int = self.year * 12 + (self.month - 1) + months;
        let year: int = total / 12;
        let month: int = total % 12 + 1;
        let longest: int = days_in_month(year, month);
        CalendarDate {
            year: year as i32,
            month: month as u32,
            day: (if self.day <= longest { self.day as int } else { longest }) as u32,
        }
    }
}

/// The date with the serial number `serial`, where it is a supported one.
pub open spec fn date_at(serial: int) -> CalendarDate {
    choose|d: CalendarDate| d.wf() && d.serial() == serial
}

/// The days of one year occupy the serial numbers after those of all earlier
/// years.
pub proof fn lemma_years_ascend(y1: int, y2: int)
    requires
        y1 < y2,
    ensures
        days_before_year(y1) + year_length(y1) <= days_before_year(y2),
        days_before_year(y1 + 1) == days_before_year(y1) + year_length(y1),
        days_before_year(MIN_YEAR as int) + 1 == min_serial(),
        days_before_year(MAX_YEAR as int + 1) == max_serial(),
{
    reveal(days_before_year);
}

/// A valid day of a year has a serial number among those of its year.
pub proof fn lemma_serial_within_year(d: CalendarDate)
    requires
        d.wf(),
    ensures
        days_before_year(d.year as int) < d.serial() <= days_before_year(d.year as int)
            + year_length(d.year as int),
        min_serial() <= d.serial() <= max_serial(),
{
    lemma_years_ascend(d.year as int, MAX_YEAR as int + 1);
    if MIN_YEAR < d.year {
        lemma_years_ascend(MIN_YEAR as int, d.year as int);
    }
}

/// Of two valid dates, the earlier in the calendar has the smaller serial
/// number.
pub proof fn lemma_serial_ascends(a: CalendarDate, b: CalendarDate)
    requires
        a.wf(),
        b.wf(),
        a.before(b),
    ensures
        a.serial() < b.serial(),
{
    lemma_serial_within_year(a);
    lemma_serial_within_year(b);
    if a.year < b.year {
        lemma_years_ascend(a.year as int, b.year as int);
    }
}

/// Valid dates are ordered as their serial numbers are, and two with the
/// same serial number are the same date.
pub proof fn lemma_serial_order(a: CalendarDate, b: CalendarDate)
    requires
        a.wf(),
        b.wf(),
    ensures
        a.serial() < b.serial() <==> a.before(b),
        a.serial() == b.serial() <==> a == b,
        a.serial() <= b.serial() ==> a.year <= b.year,
{
    if a.before(b) {
        lemma_serial_ascends(a, b);
    } else if b.before(a) {
        lemma_serial_ascends(b, a);
    }
}


/// `chrono::NaiveDate::from_ymd_opt`, on plain values: the date is made
/// exactly when year, month and day name a day of the calendar within the
/// supported years, and it then has that year, month and day.
#[verifier::external_body]
fn chrono_from_ymd(year: i32, month: u32, day: u32) -> (r: Option<CalendarDate>)
    ensures
        r == if valid_ymd(year as int, month as int, day as int) {
            Some(CalendarDate { year, month, day })
        } else {
            None
        },
{
    match NaiveDate::from_ymd_opt(year, month, day) {
        Some(d) => Some(CalendarDate { year: d.year(), month: d.month(), day: d.day() }),
        None => None,
    }
}

/// `chrono::Datelike::weekday` of `chrono::NaiveDate`: the weekday of a
/// date is the remainder of its day number, Monday being the weekday of the
/// first of January of year 1.
#[verifier::external_body]
fn chrono_weekday(date: CalendarDate) -> (r: Weekday)
    requires
        date.wf(),
    ensures
        r.index() == date.weekday_index(),
{
    match NaiveDate::from_ymd_opt(date.year, date.month, date.day).unwrap().weekday() {
        chrono::Weekday::Mon => Weekday::Mon,
        chrono::Weekday::Tue => Weekday::Tue,
        chrono::Weekday::Wed => Weekday::Wed,
        chrono::Weekday::Thu => Weekday::Thu,
        chrono::Weekday::Fri => Weekday::Fri,
        chrono::Weekday::Sat => Weekday::Sat,
        chrono::Weekday::Sun => Weekday::Sun,
    }
}

/// `chrono::Datelike::num_days_from_ce` of `chrono::NaiveDate`: the count
/// of days in the proleptic Gregorian calendar, the first of January of
/// year 1 being day 1.
#[verifier::external_body]
fn chrono_num_days_from_ce(date: CalendarDate) -> (r: i32)
    requires
        date.wf(),
    ensures
        r == date.serial(),
{
    NaiveDate::from_ymd_opt(date.year, date.month, date.day).unwrap().num_days_from_ce()
}

/// `chrono::NaiveDate` plus `chrono::TimeDelta::days(days)`: the date
/// `days` days later, or earlier for a negative count. The sum panics where
/// the result would leave the supported years, so the contract asks that it
/// does not.
#[verifier::external_body]
fn chrono_add_days(date: CalendarDate, days: i64) -> (r: CalendarDate)
    requires
        date.wf(),
        min_serial() <= date.serial() + days <= max_serial(),
    ensures
        r.wf(),
        r.serial() == date.serial() + days,
{
    let d: NaiveDate = NaiveDate::from_ymd_opt(date.year, date.month, date.day).unwrap()
        + TimeDelta::days(days);
    CalendarDate { year: d.year(), month: d.month(), day: d.day() }
}

/// `chrono::NaiveDate` plus `chrono::Months::new(months)`: the same day of
/// the month that many months later, or the last day of that month where
/// it is shorter. The sum panics where the result would leave the
/// supported years, so the contract asks that it does not.
#[verifier::external_body]
fn chrono_add_months(date: CalendarDate, months: u32) -> (r: CalendarDate)
    requires
        date.wf(),
        date.year * 12 + (date.month - 1) + months <= MAX_YEAR * 12 + 11,
    ensures
        r == date.months_added(months as int),
{
    let d: NaiveDate = NaiveDate::from_ymd_opt(date.year, date.month, date.day).unwrap()
        + Months::new(months);
    CalendarDate { year: d.year(), month: d.month(), day: d.day() }
}

/// Adding months to a valid date gives a valid date, as long as the year
/// reached is supported.
pub proof fn lemma_months_added_valid(date: CalendarDate, months: int)
    requires
        date.wf(),
        0 <= months,
        date.year * 12 + (date.month - 1) + months <= MAX_YEAR * 12 + 11,
    ensures
        date.months_added(months).wf(),
        date.months_added(months).year * 12 + (date.months_added(months).month - 1)
            == date.year * 12 + (date.month - 1) + months,
        date.months_added(months).day == if date.day <= days_in_month(
            date.months_added(months).year as int,
            date.months_added(months).month as int,
        ) {
            date.day as int
        } else {
            days_in_month(
                date.months_added(months).year as int,
                date.months_added(months).month as int,
            )
        },
{
}

impl CalendarDate {
    /// The date with the given year, month and day, if there is one.
    pub fn from_ymd_opt(year: i32, month: u32, day: u32) -> (r: Option<CalendarDate>)
        ensures
            r.is_some() == valid_ymd(year as int, month as int, day as int),
            r.is_some() ==> r.unwrap() == (CalendarDate { year, month, day }),
    {
        chrono_from_ymd(year, month, day)
    }

    /// The day of the week.
    pub fn weekday(self) -> (r: Weekday)
        requires
            self.wf(),
        ensures
            r.index() == self.weekday_index(),
    {
        chrono_weekday(self)
    }

    /// The serial day number.
    pub fn num_days_from_ce(self) -> (r: i32)
        requires
            self.wf(),
        ensures
            r == self.serial(),
    {
        chrono_num_days_from_ce(self)
    }

    /// The date `days` days later (earlier, if `days` is negative).
    pub fn add_days(self, days: i64) -> (r: CalendarDate)
        requires
            self.wf(),
            min_serial() <= self.serial() + days <= max_serial(),
        ensures
            r.wf(),
            r.serial() == self.serial() + days,
    {
        chrono_add_days(self, days)
    }

    /// The date `months` months later, the day of the month clamped to the
    /// length of the month reached.
    pub fn add_months(self, months: u32) -> (r: CalendarDate)
        requires
            self.wf(),
            self.year * 12 + (self.month - 1) + months <= MAX_YEAR * 12 + 11,
        ensures
            r.wf(),
            r == self.months_added(months as int),
    {
        proof {
            lemma_months_added_valid(self, months as int);
        }
        chrono_add_months(self, months)
    }

    /// Whether the date's year is a leap year.
    pub fn leap_year(self) -> (r: bool)
        ensures
            r == is_leap_year(self.year as int),
    {
        leap_year(self.year)
    }

    /// Whether the date comes before `other` in the calendar.
    pub fn is_before(self, other: CalendarDate) -> (r: bool)
        ensures
            r == self.before(other),
    {
        self.year < other.year || (self.year == other.year && (self.month < other.month || (
        self.month == other.month && self.day < other.day)))
    }
}

/// A year and its negation have the same divisors.
proof fn lemma_negated_year(year: int)
    ensures
        is_leap_year(-year) == is_leap_year(year),
{
    assert(((-year) % 4 == 0) == (year % 4 == 0)) by {
        assert(year == 4 * (year / 4) + year % 4);
        assert(-year == 4 * ((-year) / 4) + (-year) % 4);
    }
    assert(((-year) % 100 == 0) == (year % 100 == 0)) by {
        assert(year == 100 * (year / 100) + year % 100);
        assert(-year == 100 * ((-year) / 100) + (-year) % 100);
    }
    assert(((-year) % 400 == 0) == (year % 400 == 0)) by {
        assert(year == 400 * (year / 400) + year % 400);
        assert(-year == 400 * ((-year) / 400) + (-year) % 400);
    }
}

/// Whether `year` is a leap year.
pub fn leap_year(year: i32) -> (r: bool)
    ensures
        r == is_leap_year(year as int),
{
    let size: i64 = if year >= 0 { year as i64 } else { -(year as i64) };
    proof {
        lemma_negated_year(year as int);
    }
    size % 4 == 0 && (size % 100 != 0 || size % 400 == 0)
}

/// A valid date is the date at its serial number.
pub proof fn lemma_date_at(d: CalendarDate)
    requires
        d.wf(),
    ensures
        date_at(d.serial()) == d,
{
    lemma_serial_order(date_at(d.serial()), d);
}

/// The first day of a month directly follows the last day of the month
/// before it.
pub proof fn lemma_month_end_precedes_next(year: int, month: int)
    requires
        1 <= month <= 12,
    ensures
        month < 12 ==> serial_of(year, month + 1, 1) == serial_of(
            year,
            month,
            days_in_month(year, month),
        ) + 1,
        month == 12 ==> serial_of(year + 1, 1, 1) == serial_of(year, 12, 31) + 1,
{
    lemma_years_ascend(year, year + 1);
}

/// The day after `d`.
pub open spec fn successor(d: CalendarDate) -> CalendarDate {
    if d.day < days_in_month(d.year as int, d.month as int) {
        CalendarDate { year: d.year, month: d.month, day: (d.day + 1) as u32 }
    } else if d.month < 12 {
        CalendarDate { year: d.year, month: (d.month + 1) as u32, day: 1 }
    } else {
        CalendarDate { year: (d.year + 1) as i32, month: 1, day: 1 }
    }
}

/// The day after a valid date, but the last, is a valid date with the next
/// serial number.
pub proof fn lemma_successor(d: CalendarDate)
    requires
        d.wf(),
        d.serial() < max_serial(),
    ensures
        successor(d).wf(),
        successor(d).serial() == d.serial() + 1,
{
    lemma_month_end_precedes_next(d.year as int, d.month as int);
    lemma_years_ascend(d.year as int, d.year as int + 1);
}

/// Every serial number between the earliest and the latest is that of a
/// valid date.
pub proof fn lemma_date_at_exists(serial: int)
    requires
        min_serial() <= serial <= max_serial(),
    ensures
        date_at(serial).wf(),
        date_at(serial).serial() == serial,
    decreases serial - min_serial(),
{
    if serial == min_serial() {
        let first: CalendarDate = CalendarDate { year: MIN_YEAR, month: 1, day: 1 };
        lemma_years_ascend(MIN_YEAR as int, MIN_YEAR as int + 1);
        assert(first.wf() && first.serial() == serial);
    } else {
        lemma_date_at_exists(serial - 1);
        let next: CalendarDate = successor(date_at(serial - 1));
        lemma_successor(date_at(serial - 1));
        assert(next.wf() && next.serial() == serial);
    }
}

} // verus!
