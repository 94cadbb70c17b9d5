//! Year fractions: the whole-number parts from which the fraction of a
//! year between two dates is put together.

use crate::date::{lemma_serial_within_year, year_length, CalendarDate};
use crate::day_counting::ActualCounter;
use vstd::prelude::*;

verus! {

/// The parts of a year fraction under the actual/actual ISDA convention.
/// The fraction is `start_days / start_year_days + end_days /
/// end_year_days + full_years`.
#[derive(Clone, Copy, Debug, PartialEq, Eq, Structural)]
pub struct YearFractionParts {
    /// The days counted in the year of the start date.
    pub start_days: i32,
    /// The length of the year of the start date, 365 or 366.
    pub start_year_days: i32,
    /// The days counted in the year of the end date.
    pub end_days: i32,
    /// The length of the year of the end date, 365 or 366.
    pub end_year_days: i32,
    /// The calendar years that lie wholly between the two dates.
    pub full_years: i32,
}

/// The actual/actual ISDA convention: each part of the interval is set
/// against the length of the year that it lies in.
pub struct ActualActualISDA {
    day_counter: ActualCounter,
}

impl ActualActualISDA {
    /// The convention.
    pub fn new() -> (r: Self) {
        ActualActualISDA { day_counter: ActualCounter {  } }
    }

    /// The parts of the year fraction from `start_date` to `end_date`.
    /// Within one year: the days between the two, over that year's
    /// length. Else: the days from the start to the 31st of December of
    /// its year, the days from the 1st of January of the end's year to the
    /// end, each over its own year's length, and one for every year
    /// strictly between the two.
    pub open spec fn parts(start_date: CalendarDate, end_date: CalendarDate) -> YearFractionParts {
        if start_date.year == end_date.year {
            YearFractionParts {
                start_days: ActualCounter::count(start_date, end_date) as i32,
                start_year_days: year_length(start_date.year as int) as i32,
                end_days: 0,
                end_year_days: year_length(end_date.year as int) as i32,
                full_years: 0,
            }
        } else {
            YearFractionParts {
                start_days: ActualCounter::count(
                    start_date,
                    CalendarDate { year: start_date.year, month: 12, day: 31 },
                ) as i32,
                start_year_days: year_length(start_date.year as int) as i32,
                end_days: ActualCounter::count(
                    CalendarDate { year: end_date.year, month: 1, day: 1 },
                    end_date,
                ) as i32,
                end_year_days: year_length(end_date.year as int) as i32,
                full_years: (if end_date.year > start_date.year {
                    end_date.year - start_date.year - 1
                } else {
                    0
                }) as i32,
            }
        }
    }

    /// The parts of the year fraction from `start_date` to `end_date`.
    pub fn year_fraction_parts(&self, start_date: CalendarDate, end_date: CalendarDate) -> (r:
        YearFractionParts)
        requires
            start_date.wf(),
            end_date.wf(),
        ensures
            r == Self::parts(start_date, end_date),
            r.start_year_days == 365 || r.start_year_days == 366,
            r.end_year_days == 365 || r.end_year_days == 366,
            r.full_years >= 0,
            start_date.year != end_date.year ==> 0 <= r.start_days < r.start_year_days && 0
                <= r.end_days < r.end_year_days,
    {
        let start_year: i32 = start_date.year;
        let end_year: i32 = end_date.year;
        let start_year_days: i32 = if start_date.leap_year() { 366 } else { 365 };
        let end_year_days: i32 = if end_date.leap_year() { 366 } else { 365 };
        proof {
            lemma_serial_within_year(start_date);
            lemma_serial_within_year(end_date);
        }
        if start_year == end_year {
            return YearFractionParts {
                start_days: self.day_counter.day_count(start_date, end_date),
                start_year_days,
                end_days: 0,
                end_year_days,
                full_years: 0,
            };
        }
        let end_of_start_year: CalendarDate = CalendarDate { year: start_year, month: 12, day: 31 };
        let start_of_end_year: CalendarDate = CalendarDate { year: end_year, month: 1, day: 1 };
        proof {
            lemma_serial_within_year(end_of_start_year);
            lemma_serial_within_year(start_of_end_year);
        }
        let start_days: i32 = self.day_counter.day_count(start_date, end_of_start_year);
        let end_days: i32 = self.day_counter.day_count(start_of_end_year, end_date);
        let full_years: i32 = if end_year > start_year { end_year - start_year - 1 } else { 0 };
        YearFractionParts { start_days, start_year_days, end_days, end_year_days, full_years }
    }
}

} // verus!
