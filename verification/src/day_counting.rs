//! Day-count conventions: the number of days between two dates as a
//! convention counts them.

use crate::aux_funcs::{get_current_year_end_of_february, get_days_in_month};
use crate::date::{lemma_serial_within_year, max_serial, min_serial, CalendarDate};
use vstd::prelude::*;

verus! {

/// Whether `date` is the last day of February.
pub open spec fn is_end_of_february(date: CalendarDate) -> bool {
    date.month == 2 && date.is_end_of_month()
}

/// The smaller of `day` and 30.
pub open spec fn at_most_30(day: int) -> int {
    if day > 30 {
        30
    } else {
        day
    }
}

/// The number of days between two dates of the calendar.
pub struct ActualCounter;

impl ActualCounter {
    /// The days from `start_date` to `end_date`, negative where the end
    /// comes first.
    pub open spec fn count(start_date: CalendarDate, end_date: CalendarDate) -> int {
        end_date.serial() - start_date.serial()
    }

    /// The days from `start_date` to `end_date`.
    pub fn day_count(&self, start_date: CalendarDate, end_date: CalendarDate) -> (r: i32)
        requires
            start_date.wf(),
            end_date.wf(),
        ensures
            r == Self::count(start_date, end_date),
    {
        proof {
            lemma_serial_within_year(start_date);
            lemma_serial_within_year(end_date);
        }
        end_date.num_days_from_ce() - start_date.num_days_from_ce()
    }

    /// The days from `start_date` to each of `end_dates`.
    pub fn day_count_vector(&self, start_date: CalendarDate, end_dates: &Vec<CalendarDate>) -> (r:
        Vec<i32>)
        requires
            start_date.wf(),
            forall|i: int| 0 <= i < end_dates@.len() ==> (#[trigger] end_dates@[i]).wf(),
        ensures
            r@.len() == end_dates@.len(),
            forall|i: int|
                0 <= i < r@.len() ==> #[trigger] r@[i] == Self::count(start_date, end_dates@[i]),
    {
        let sdi: i32 = start_date.num_days_from_ce();
        let mut counts: Vec<i32> = Vec::new();
        let mut i: usize = 0;
        proof {
            lemma_serial_within_year(start_date);
        }
        while i < end_dates.len()
            invariant
                0 <= i <= end_dates.len(),
                counts@.len() == i,
                sdi == start_date.serial(),
                min_serial() <= sdi <= max_serial(),
                forall|k: int| 0 <= k < end_dates@.len() ==> (#[trigger] end_dates@[k]).wf(),
                forall|k: int|
                    0 <= k < i ==> #[trigger] counts@[k] == Self::count(start_date, end_dates@[k]),
            decreases end_dates.len() - i,
        {
            proof {
                lemma_serial_within_year(end_dates@[i as int]);
            }
            counts.push(end_dates[i].num_days_from_ce() - sdi);
            i += 1;
        }
        counts
    }
}

/// The 30/360 bond rule for the days of the month.
pub struct Days30BondCounter;

impl Days30BondCounter {
    /// The start day, 30 at most.
    pub open spec fn d1(start_date: CalendarDate) -> int {
        at_most_30(start_date.day as int)
    }

    /// The end day, 30 at most where the start day counts as 30.
    pub open spec fn d2(start_date: CalendarDate, end_date: CalendarDate) -> int {
        if Self::d1(start_date) > 29 {
            at_most_30(end_date.day as int)
        } else {
            end_date.day as int
        }
    }

    pub fn get_d1(&self, start_date: CalendarDate, _end_date: CalendarDate) -> (r: i32)
        requires
            start_date.wf(),
        ensures
            r == Self::d1(start_date),
    {
        let d1: i32 = start_date.day as i32;
        if d1 > 30 {
            30
        } else {
            d1
        }
    }

    pub fn get_d2(&self, start_date: CalendarDate, end_date: CalendarDate) -> (r: i32)
        requires
            start_date.wf(),
            end_date.wf(),
        ensures
            r == Self::d2(start_date, end_date),
    {
        let d1: i32 = self.get_d1(start_date, end_date);
        let mut d2: i32 = end_date.day as i32;
        if d1 > 29 && d2 > 30 {
            d2 = 30;
        }
        d2
    }
}

/// The 30E/360 rule for the days of the month. It counts as the bond rule
/// does: the end day is held to 30 only where the start day counts as 30,
/// not in every case as the stricter reading of 30E/360 has it.
pub struct Days30ECounter;

impl Days30ECounter {
    /// The start day, 30 at most.
    pub open spec fn d1(start_date: CalendarDate) -> int {
        at_most_30(start_date.day as int)
    }

    /// The end day, 30 at most where the start day counts as 30.
    pub open spec fn d2(start_date: CalendarDate, end_date: CalendarDate) -> int {
        if Self::d1(start_date) > 29 {
            at_most_30(end_date.day as int)
        } else {
            end_date.day as int
        }
    }

    pub fn get_d1(&self, start_date: CalendarDate, _end_date: CalendarDate) -> (r: i32)
        requires
            start_date.wf(),
        ensures
            r == Self::d1(start_date),
    {
        let d1: i32 = start_date.day as i32;
        if d1 > 30 {
            30
        } else {
            d1
        }
    }

    pub fn get_d2(&self, start_date: CalendarDate, end_date: CalendarDate) -> (r: i32)
        requires
            start_date.wf(),
            end_date.wf(),
        ensures
            r == Self::d2(start_date, end_date),
    {
        let d1: i32 = self.get_d1(start_date, end_date);
        let mut d2: i32 = end_date.day as i32;
        if d1 > 29 && d2 > 30 {
            d2 = 30;
        }
        d2
    }
}

/// The 30/360 rule that counts the last day of February as the 30th.
pub struct Days30UCounter;

impl Days30UCounter {
    /// 30 where the start is the last day of February, else the start
    /// day, 30 at most.
    pub open spec fn d1(start_date: CalendarDate) -> int {
        if is_end_of_february(start_date) {
            30
        } else {
            at_most_30(start_date.day as int)
        }
    }

    /// 30 where both dates are the last day of February, or where the end
    /// day is 31 and the start day counts as 30 or is 31; else the end
    /// day.
    pub open spec fn d2(start_date: CalendarDate, end_date: CalendarDate) -> int {
        let first: int = if is_end_of_february(start_date) {
            30
        } else {
            start_date.day as int
        };
        if is_end_of_february(start_date) && is_end_of_february(end_date) {
            30
        } else if end_date.day == 31 && (first == 30 || first == 31) {
            30
        } else {
            end_date.day as int
        }
    }

    pub fn get_d1(&self, start_date: CalendarDate, _end_date: CalendarDate) -> (r: i32)
        requires
            start_date.wf(),
        ensures
            r == Self::d1(start_date),
    {
        let start_last_day_feb: CalendarDate = get_current_year_end_of_february(start_date);
        let d1: i32 = start_date.day as i32;
        if start_date == start_last_day_feb {
            30
        } else if d1 > 30 {
            30
        } else {
            d1
        }
    }

    pub fn get_d2(&self, start_date: CalendarDate, end_date: CalendarDate) -> (r: i32)
        requires
            start_date.wf(),
            end_date.wf(),
        ensures
            r == Self::d2(start_date, end_date),
    {
        let start_last_day_feb: CalendarDate = get_current_year_end_of_february(start_date);
        let end_last_day_feb: CalendarDate = get_current_year_end_of_february(end_date);
        let mut d1: i32 = start_date.day as i32;
        let mut d2: i32 = end_date.day as i32;
        if start_date == start_last_day_feb && end_date == end_last_day_feb {
            d2 = 30;
        }
        if start_date == start_last_day_feb {
            d1 = 30;
        }
        if d2 == 31 && (d1 == 30 || d1 == 31) {
            d2 = 30;
        }
        d2
    }
}

/// The 30E/360 ISDA rule: the last day of any month counts as the 30th.
pub struct Days30EISDACounter;

impl Days30EISDACounter {
    /// 30 where the start is the last day of its month, else its day.
    pub open spec fn d1(start_date: CalendarDate) -> int {
        if start_date.is_end_of_month() {
            30
        } else {
            start_date.day as int
        }
    }

    /// 30 where the end is the last day of its month, else its day.
    pub open spec fn d2(end_date: CalendarDate) -> int {
        if end_date.is_end_of_month() {
            30
        } else {
            end_date.day as int
        }
    }

    pub fn get_d1(&self, start_date: CalendarDate, _end_date: CalendarDate) -> (r: i32)
        requires
            start_date.wf(),
            start_date.has_following_month(),
        ensures
            r == Self::d1(start_date),
    {
        let s_eom: u32 = get_days_in_month(start_date);
        let mut d1: u32 = start_date.day;
        if d1 == s_eom {
            d1 = 30;
        }
        d1 as i32
    }

    pub fn get_d2(&self, _start_date: CalendarDate, end_date: CalendarDate) -> (r: i32)
        requires
            end_date.wf(),
            end_date.has_following_month(),
        ensures
            r == Self::d2(end_date),
    {
        let e_eom: u32 = get_days_in_month(end_date);
        let mut d2: u32 = end_date.day;
        if d2 == e_eom {
            d2 = 30;
        }
        d2 as i32
    }
}

/// The rule by which a 30/360 count takes the days of the month.
pub enum Days30Backend {
    Bond(Days30BondCounter),
    E(Days30ECounter),
    U(Days30UCounter),
    EISDA(Days30EISDACounter),
}

impl Days30Backend {
    /// The day of the month that the start date counts as.
    pub open spec fn d1(&self, start_date: CalendarDate, end_date: CalendarDate) -> int {
        match self {
            Days30Backend::Bond(_) => Days30BondCounter::d1(start_date),
            Days30Backend::E(_) => Days30ECounter::d1(start_date),
            Days30Backend::U(_) => Days30UCounter::d1(start_date),
            Days30Backend::EISDA(_) => Days30EISDACounter::d1(start_date),
        }
    }

    /// The day of the month that the end date counts as.
    pub open spec fn d2(&self, start_date: CalendarDate, end_date: CalendarDate) -> int {
        match self {
            Days30Backend::Bond(_) => Days30BondCounter::d2(start_date, end_date),
            Days30Backend::E(_) => Days30ECounter::d2(start_date, end_date),
            Days30Backend::U(_) => Days30UCounter::d2(start_date, end_date),
            Days30Backend::EISDA(_) => Days30EISDACounter::d2(end_date),
        }
    }

    /// Whether the rule can look at both dates: the ISDA rule looks at
    /// the month after each.
    pub open spec fn covers(&self, start_date: CalendarDate, end_date: CalendarDate) -> bool {
        &&& start_date.wf()
        &&& end_date.wf()
        &&& self is EISDA ==> start_date.has_following_month() && end_date.has_following_month()
    }

    pub fn get_d1(&self, start_date: CalendarDate, end_date: CalendarDate) -> (r: i32)
        requires
            self.covers(start_date, end_date),
        ensures
            r == self.d1(start_date, end_date),
            1 <= r <= 31,
    {
        match self {
            Days30Backend::Bond(b) => b.get_d1(start_date, end_date),
            Days30Backend::E(b) => b.get_d1(start_date, end_date),
            Days30Backend::U(b) => b.get_d1(start_date, end_date),
            Days30Backend::EISDA(b) => b.get_d1(start_date, end_date),
        }
    }

    pub fn get_d2(&self, start_date: CalendarDate, end_date: CalendarDate) -> (r: i32)
        requires
            self.covers(start_date, end_date),
        ensures
            r == self.d2(start_date, end_date),
            1 <= r <= 31,
    {
        match self {
            Days30Backend::Bond(b) => b.get_d2(start_date, end_date),
            Days30Backend::E(b) => b.get_d2(start_date, end_date),
            Days30Backend::U(b) => b.get_d2(start_date, end_date),
            Days30Backend::EISDA(b) => b.get_d2(start_date, end_date),
        }
    }
}

/// A count of days in which every month has 30 days and the year 360.
pub struct Days30Counter {
    pub backend: Days30Backend,
}

impl Days30Counter {
    /// 360 for each year and 30 for each month between the two dates,
    /// and the difference of the days as the rule counts them.
    pub open spec fn count(&self, start_date: CalendarDate, end_date: CalendarDate) -> int {
        360 * (end_date.year - start_date.year) + 30 * (end_date.month - start_date.month)
            + self.backend.d2(start_date, end_date) - self.backend.d1(start_date, end_date)
    }

    /// The days from `start_date` to `end_date`.
    pub fn day_count(&self, start_date: CalendarDate, end_date: CalendarDate) -> (r: i32)
        requires
            self.backend.covers(start_date, end_date),
        ensures
            r == self.count(start_date, end_date),
    {
        let d1: i32 = self.backend.get_d1(start_date, end_date);
        let d2: i32 = self.backend.get_d2(start_date, end_date);
        360 * (end_date.year - start_date.year) + 30 * (end_date.month as i32
            - start_date.month as i32) + d2 - d1
    }

    /// The days from `start_date` to each of `end_dates`.
    pub fn day_count_vector(&self, start_date: CalendarDate, end_dates: &Vec<CalendarDate>) -> (r:
        Vec<i32>)
        requires
            forall|i: int|
                0 <= i < end_dates@.len() ==> self.backend.covers(
                    start_date,
                    #[trigger] end_dates@[i],
                ),
        ensures
            r@.len() == end_dates@.len(),
            forall|i: int|
                0 <= i < r@.len() ==> #[trigger] r@[i] == self.count(start_date, end_dates@[i]),
    {
        let mut counts: Vec<i32> = Vec::new();
        let mut i: usize = 0;
        while i < end_dates.len()
            invariant
                0 <= i <= end_dates.len(),
                counts@.len() == i,
                forall|k: int|
                    0 <= k < end_dates@.len() ==> self.backend.covers(
                        start_date,
                        #[trigger] end_dates@[k],
                    ),
                forall|k: int|
                    0 <= k < i ==> #[trigger] counts@[k] == self.count(start_date, end_dates@[k]),
            decreases end_dates.len() - i,
        {
            counts.push(self.day_count(start_date, end_dates[i]));
            i += 1;
        }
        counts
    }
}

/// A day-count convention.
pub enum DayCounter {
    Actual(ActualCounter),
    Days30(Days30Counter),
}

impl DayCounter {
    /// The days from `start_date` to `end_date` as the convention counts
    /// them.
    pub open spec fn count(&self, start_date: CalendarDate, end_date: CalendarDate) -> int {
        match self {
            DayCounter::Actual(_) => ActualCounter::count(start_date, end_date),
            DayCounter::Days30(c) => c.count(start_date, end_date),
        }
    }

    /// Whether the convention can look at both dates.
    pub open spec fn covers(&self, start_date: CalendarDate, end_date: CalendarDate) -> bool {
        match self {
            DayCounter::Actual(_) => start_date.wf() && end_date.wf(),
            DayCounter::Days30(c) => c.backend.covers(start_date, end_date),
        }
    }

    /// The days from `start_date` to `end_date`.
    pub fn day_count(&self, start_date: CalendarDate, end_date: CalendarDate) -> (r: i32)
        requires
            self.covers(start_date, end_date),
        ensures
            r == self.count(start_date, end_date),
    {
        match self {
            DayCounter::Actual(c) => c.day_count(start_date, end_date),
            DayCounter::Days30(c) => c.day_count(start_date, end_date),
        }
    }

    /// The days from `start_date` to each of `end_dates`.
    pub fn day_count_vector(&self, start_date: CalendarDate, end_dates: &Vec<CalendarDate>) -> (r:
        Vec<i32>)
        requires
            forall|i: int|
                0 <= i < end_dates@.len() ==> self.covers(start_date, #[trigger] end_dates@[i]),
        ensures
            r@.len() == end_dates@.len(),
            forall|i: int|
                0 <= i < r@.len() ==> #[trigger] r@[i] == self.count(start_date, end_dates@[i]),
    {
        let mut counts: Vec<i32> = Vec::new();
        let mut i: usize = 0;
        while i < end_dates.len()
            invariant
                0 <= i <= end_dates.len(),
                counts@.len() == i,
                forall|k: int|
                    0 <= k < end_dates@.len() ==> self.covers(start_date, #[trigger] end_dates@[k]),
                forall|k: int|
                    0 <= k < i ==> #[trigger] counts@[k] == self.count(start_date, end_dates@[k]),
            decreases end_dates.len() - i,
        {
            counts.push(self.day_count(start_date, end_dates[i]));
            i += 1;
        }
        counts
    }
}

/// The count of calendar days from a date to itself is 0, and the count
/// from one date to another is the negative of the count back.
pub proof fn lemma_actual_count_antisymmetric(a: CalendarDate, b: CalendarDate)
    ensures
        ActualCounter::count(a, a) == 0,
        ActualCounter::count(a, b) == -ActualCounter::count(b, a),
{
}

} // verus!
