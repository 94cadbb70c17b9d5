//! Month lengths and month ends.

use crate::date::{
    days_in_month, lemma_month_end_precedes_next, lemma_months_added_valid, lemma_serial_order, lemma_serial_within_year,
    serial_of, CalendarDate, MAX_YEAR, MIN_YEAR,
};
use vstd::prelude::*;

verus! {

/// The number of days of the month that `t` lies in.
pub fn get_days_in_month(t: CalendarDate) -> (r: u32)
    requires
        t.wf(),
        t.has_following_month(),
    ensures
        r == days_in_month(t.year as int, t.month as int),
{
    let next: CalendarDate = match CalendarDate::from_ymd_opt(t.year, t.month + 1, 1) {
        Some(d) => d,
        None => CalendarDate { year: t.year + 1, month: 1, day: 1 },
    };
    proof {
        lemma_month_end_precedes_next(t.year as int, t.month as int);
        lemma_serial_within_year(t.end_of_month());
    }
    let last: CalendarDate = next.add_days(-1);
    proof {
        lemma_serial_order(last, t.end_of_month());
    }
    last.day
}

/// The last day of the month that `t` lies in.
pub fn get_eom(t: CalendarDate) -> (r: CalendarDate)
    requires
        t.wf(),
        t.has_following_month(),
    ensures
        r == t.end_of_month(),
        r.wf(),
{
    let first: CalendarDate = CalendarDate { year: t.year, month: t.month, day: 1 };
    let next: CalendarDate = first.add_months(1);
    proof {
        lemma_months_added_valid(first, 1);
        lemma_month_end_precedes_next(t.year as int, t.month as int);
        lemma_serial_within_year(t.end_of_month());
    }
    let last: CalendarDate = next.add_days(-1);
    proof {
        lemma_serial_order(last, t.end_of_month());
    }
    last
}

/// The last day of February in the year of `t`.
pub fn get_current_year_end_of_february(t: CalendarDate) -> (r: CalendarDate)
    requires
        MIN_YEAR <= t.year <= MAX_YEAR,
    ensures
        r == (CalendarDate { year: t.year, month: 2, day: 28 }).end_of_month(),
        r.wf(),
{
    let day: u32 = if t.leap_year() { 29 } else { 28 };
    match CalendarDate::from_ymd_opt(t.year, 2, day) {
        Some(d) => d,
        None => t,
    }
}

} // verus!
