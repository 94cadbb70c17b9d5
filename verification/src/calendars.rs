//! Holiday rules and holiday calendars.

use crate::aux_funcs::get_eom;
use crate::date::{
    days_before_year, days_in_month, lemma_serial_order, lemma_serial_within_year,
    lemma_years_ascend, max_serial, min_serial, year_length,
    serial_of, valid_ymd, weekday_index, CalendarDate, Month, Weekday, MAX_YEAR, MIN_YEAR,
};
use crate::easter::{easter_sunday, easter_sunday_of, lemma_easter_is_sunday};
use vstd::prelude::*;

verus! {

/// A holiday on the n-th occurrence of a weekday in a month, such as the
/// second Monday of October.
#[derive(Clone, Copy, Debug, PartialEq, Eq, Structural)]
pub struct OrdinalWeekWeekdayRule {
    pub month: u32,
    pub ordinal: u8,
    pub weekday: Weekday,
}

impl OrdinalWeekWeekdayRule {
    /// The rule for the `ordinal`-th `weekday` of `month`.
    pub fn new(ordinal: u8, weekday: Weekday, month: Month) -> (r: Self)
        ensures
            r == (OrdinalWeekWeekdayRule { month: month.number() as u32, ordinal, weekday }),
    {
        OrdinalWeekWeekdayRule { month: month.number_from_month(), weekday, ordinal }
    }

    /// The serial number of the holiday in `year`: the first occurrence of
    /// the weekday in the month, moved on by `ordinal - 1` weeks.
    pub open spec fn date_serial(self, year: int) -> int {
        let first: int = serial_of(year, self.month as int, 1);
        first + (self.weekday.index() - weekday_index(first)) % 7 + 7 * (self.ordinal - 1)
    }

    /// Whether the rule names a supported date in `year`.
    pub open spec fn defined_at(self, year: int) -> bool {
        &&& valid_ymd(year, self.month as int, 1)
        &&& min_serial() <= self.date_serial(year) <= max_serial()
    }

    /// The holiday in `year`.
    pub fn get_date(&self, year: i32) -> (r: CalendarDate)
        requires
            self.defined_at(year as int),
        ensures
            r.wf(),
            r.serial() == self.date_serial(year as int),
            r.weekday_index() == self.weekday.index(),
            1 <= self.ordinal <= 4 ==> r.year == year && r.month == self.month && 7 * (
            self.ordinal - 1) < r.day <= 7 * self.ordinal,
    {
        let date: CalendarDate = CalendarDate { year, month: self.month, day: 1 };
        let diff: i64 = self.weekday.num_days_from_monday() - date.weekday().num_days_from_monday();
        let to_weekday: i64 = if diff < 0 { diff + 7 } else { diff };
        let r: CalendarDate = date.add_days(to_weekday + 7 * (self.ordinal as i64 - 1));
        proof {
            if 1 <= self.ordinal <= 4 {
                let low: CalendarDate = CalendarDate {
                    year,
                    month: self.month,
                    day: (7 * (self.ordinal - 1) + 1) as u32,
                };
                let high: CalendarDate = CalendarDate {
                    year,
                    month: self.month,
                    day: (7 * self.ordinal) as u32,
                };
                lemma_serial_order(low, r);
                lemma_serial_order(r, high);
            }
        }
        r
    }
}

/// A holiday on the last occurrence of a weekday in a month, such as the
/// last Monday of May.
#[derive(Clone, Copy, Debug, PartialEq, Eq, Structural)]
pub struct LastWeekWeekdayRule {
    pub month: u32,
    pub weekday: Weekday,
}

impl LastWeekWeekdayRule {
    /// The rule for the last `weekday` of `month`.
    pub fn new(weekday: Weekday, month: Month) -> (r: Self)
        ensures
            r == (LastWeekWeekdayRule { month: month.number() as u32, weekday }),
    {
        LastWeekWeekdayRule { month: month.number_from_month(), weekday }
    }

    /// The serial number of the holiday in `year`: the last day of the
    /// month, moved back to the nearest occurrence of the weekday.
    pub open spec fn date_serial(self, year: int) -> int {
        let last: int = serial_of(year, self.month as int, days_in_month(year, self.month as int));
        last - (weekday_index(last) - self.weekday.index()) % 7
    }

    /// Whether the rule names a supported date in `year`.
    pub open spec fn defined_at(self, year: int) -> bool {
        &&& valid_ymd(year, self.month as int, 1)
        &&& (year < MAX_YEAR || self.month < 12)
    }

    /// The holiday in `year`.
    pub fn get_date(&self, year: i32) -> (r: CalendarDate)
        requires
            self.defined_at(year as int),
        ensures
            r.wf(),
            r.serial() == self.date_serial(year as int),
            r.weekday_index() == self.weekday.index(),
            r.year == year,
            r.month == self.month,
    {
        let first: CalendarDate = CalendarDate { year, month: self.month, day: 1 };
        let last_day: CalendarDate = get_eom(first);
        let diff: i64 = last_day.weekday().num_days_from_monday()
            - self.weekday.num_days_from_monday();
        let back: i64 = if diff < 0 { diff + 7 } else { diff };
        proof {
            lemma_serial_within_year(first);
            lemma_serial_within_year(last_day);
        }
        let r: CalendarDate = last_day.add_days(-back);
        proof {
            lemma_serial_order(first, r);
            lemma_serial_order(r, last_day);
        }
        r
    }
}

/// A holiday on a fixed day of a month, such as the 4th of July.
#[derive(Clone, Copy, Debug, PartialEq, Eq, Structural)]
pub struct MonthDayRule {
    pub month: u32,
    pub day: u8,
}

impl MonthDayRule {
    /// The rule for the `day`-th of `month`.
    pub fn new(month: Month, day: u8) -> (r: Self)
        ensures
            r == (MonthDayRule { month: month.number() as u32, day }),
    {
        MonthDayRule { month: month.number_from_month(), day }
    }

    /// The serial number of the holiday in `year`.
    pub open spec fn date_serial(self, year: int) -> int {
        serial_of(year, self.month as int, self.day as int)
    }

    /// Whether the rule names a supported date in `year`.
    pub open spec fn defined_at(self, year: int) -> bool {
        valid_ymd(year, self.month as int, self.day as int)
    }

    /// The holiday in `year`.
    pub fn get_date(&self, year: i32) -> (r: CalendarDate)
        requires
            self.defined_at(year as int),
        ensures
            r == (CalendarDate { year, month: self.month, day: self.day as u32 }),
            r.wf(),
            r.serial() == self.date_serial(year as int),
    {
        CalendarDate::from_ymd_opt(year, self.month, self.day as u32).unwrap()
    }
}

/// The holiday on the Monday after Easter Sunday.
#[derive(Clone, Copy, Debug, PartialEq, Eq, Structural)]
pub struct MondayEasterRule;

impl MondayEasterRule {
    /// The serial number of the holiday in `year`.
    pub open spec fn date_serial(self, year: int) -> int {
        easter_sunday_of(year).serial() + 1
    }

    /// Whether the rule names a supported date in `year`.
    pub open spec fn defined_at(self, year: int) -> bool {
        0 <= year <= MAX_YEAR
    }

    /// The holiday in `year`.
    pub fn get_date(&self, year: i32) -> (r: CalendarDate)
        requires
            self.defined_at(year as int),
        ensures
            r.wf(),
            r.serial() == self.date_serial(year as int),
            r.weekday_index() == 0,
            r.year == year,
    {
        let es: CalendarDate = easter_sunday(year);
        proof {
            lemma_easter_is_sunday(year as int);
            lemma_serial_within_year(CalendarDate { year, month: 12, day: 31 });
            lemma_serial_within_year(es);
        }
        let r: CalendarDate = es.add_days(1);
        proof {
            lemma_serial_order(es, r);
            lemma_serial_order(r, CalendarDate { year, month: 12, day: 31 });
        }
        r
    }
}

/// The holiday on the Friday before Easter Sunday.
#[derive(Clone, Copy, Debug, PartialEq, Eq, Structural)]
pub struct FridayEasterRule;

impl FridayEasterRule {
    /// The serial number of the holiday in `year`.
    pub open spec fn date_serial(self, year: int) -> int {
        easter_sunday_of(year).serial() - 2
    }

    /// Whether the rule names a supported date in `year`.
    pub open spec fn defined_at(self, year: int) -> bool {
        0 <= year <= MAX_YEAR
    }

    /// The holiday in `year`.
    pub fn get_date(&self, year: i32) -> (r: CalendarDate)
        requires
            self.defined_at(year as int),
        ensures
            r.wf(),
            r.serial() == self.date_serial(year as int),
            r.weekday_index() == 4,
            r.year == year,
    {
        let es: CalendarDate = easter_sunday(year);
        proof {
            lemma_easter_is_sunday(year as int);
            lemma_serial_within_year(CalendarDate { year, month: 1, day: 1 });
            lemma_serial_within_year(es);
        }
        let r: CalendarDate = es.add_days(-2);
        proof {
            lemma_serial_order(CalendarDate { year, month: 1, day: 1 }, r);
            lemma_serial_order(r, es);
        }
        r
    }
}

/// In every year from year 0 on, Easter Sunday is a Sunday, the holiday
/// before it is the Friday two days earlier, and the holiday after it is
/// the Monday one day later.
pub proof fn lemma_easter_holidays(year: int)
    requires
        0 <= year <= MAX_YEAR,
    ensures
        easter_sunday_of(year).wf(),
        easter_sunday_of(year).weekday_index() == 6,
        (FridayEasterRule).date_serial(year) == easter_sunday_of(year).serial() - 2,
        weekday_index((FridayEasterRule).date_serial(year)) == 4,
        (MondayEasterRule).date_serial(year) == easter_sunday_of(year).serial() + 1,
        weekday_index((MondayEasterRule).date_serial(year)) == 0,
{
    lemma_easter_is_sunday(year);
}

/// A rule that names one holiday in each year.
#[derive(Clone, Copy, Debug, PartialEq, Eq, Structural)]
pub enum HolidayRule {
    OrdinalWeekWeekday(OrdinalWeekWeekdayRule),
    LastWeekWeekday(LastWeekWeekdayRule),
    MonthDay(MonthDayRule),
    MondayAfterEaster(MondayEasterRule),
    FridayBeforeEaster(FridayEasterRule),
}

impl HolidayRule {
    /// The serial number of the rule's holiday in `year`.
    pub open spec fn date_serial(self, year: int) -> int {
        match self {
            HolidayRule::OrdinalWeekWeekday(rule) => rule.date_serial(year),
            HolidayRule::LastWeekWeekday(rule) => rule.date_serial(year),
            HolidayRule::MonthDay(rule) => rule.date_serial(year),
            HolidayRule::MondayAfterEaster(rule) => rule.date_serial(year),
            HolidayRule::FridayBeforeEaster(rule) => rule.date_serial(year),
        }
    }

    /// Whether the rule names a supported date in `year`.
    pub open spec fn defined_at(self, year: int) -> bool {
        match self {
            HolidayRule::OrdinalWeekWeekday(rule) => rule.defined_at(year),
            HolidayRule::LastWeekWeekday(rule) => rule.defined_at(year),
            HolidayRule::MonthDay(rule) => rule.defined_at(year),
            HolidayRule::MondayAfterEaster(rule) => rule.defined_at(year),
            HolidayRule::FridayBeforeEaster(rule) => rule.defined_at(year),
        }
    }

    /// The rule's holiday in `year`.
    pub fn get_date(&self, year: i32) -> (r: CalendarDate)
        requires
            self.defined_at(year as int),
        ensures
            r.wf(),
            r.serial() == self.date_serial(year as int),
    {
        match self {
            HolidayRule::OrdinalWeekWeekday(rule) => rule.get_date(year),
            HolidayRule::LastWeekWeekday(rule) => rule.get_date(year),
            HolidayRule::MonthDay(rule) => rule.get_date(year),
            HolidayRule::MondayAfterEaster(rule) => rule.get_date(year),
            HolidayRule::FridayBeforeEaster(rule) => rule.get_date(year),
        }
    }
}


/// Whether the dates of `s` stand in calendar order, none twice.
pub open spec fn sorted(s: Seq<CalendarDate>) -> bool {
    forall|i: int, j: int| 0 <= i < j < s.len() ==> (#[trigger] s[i]).before(#[trigger] s[j])
}

/// Whether `rules[i]`, asked for `year`, names the date `d`.
pub open spec fn produced(rules: Seq<HolidayRule>, d: CalendarDate, year: int, i: int) -> bool {
    rules[i].date_serial(year) == d.serial()
}

/// The dates that the rules name in the years from `start_year` up to, but
/// not including, `year`, together with those that the first `count` rules
/// name in `year`.
pub open spec fn rule_dates_upto(
    rules: Seq<HolidayRule>,
    start_year: int,
    year: int,
    count: int,
) -> Set<CalendarDate> {
    Set::new(
        |d: CalendarDate|
            d.wf() && exists|y: int, i: int|
                0 <= i < rules.len() && #[trigger] produced(rules, d, y, i) && (start_year <= y
                    < year || (y == year && i < count)),
    )
}

/// The dates that the rules name in the years from `start_year` to
/// `end_year`, both included.
pub open spec fn rule_dates(rules: Seq<HolidayRule>, start_year: int, end_year: int) -> Set<
    CalendarDate,
> {
    rule_dates_upto(rules, start_year, end_year + 1, 0)
}

/// The dates of a vector, as a set, or the empty set where there is none.
pub open spec fn dates_of(holidays: Option<Vec<CalendarDate>>) -> Set<CalendarDate> {
    match holidays {
        Some(v) => v@.to_set(),
        None => Set::empty(),
    }
}

/// The rules of a vector, in order, or none where there is no vector.
pub open spec fn rules_of(holiday_rules: Option<Vec<HolidayRule>>) -> Seq<HolidayRule> {
    match holiday_rules {
        Some(v) => v@,
        None => Seq::empty(),
    }
}

/// The first `i + 1` dates of a sequence are the first `i` and the one after them.
proof fn lemma_take_next(s: Seq<CalendarDate>, i: int)
    requires
        0 <= i < s.len(),
    ensures
        s.take(i + 1).to_set() == s.take(i).to_set().insert(s[i]),
{
    let a: Seq<CalendarDate> = s.take(i);
    let b: Seq<CalendarDate> = s.take(i + 1);
    assert forall|x: CalendarDate| b.contains(x) implies a.contains(x) || x == s[i] by {
        let k: int = choose|k: int| 0 <= k < b.len() && b[k] == x;
        if k < i {
            assert(a[k] == x);
        }
    }
    assert forall|x: CalendarDate| a.contains(x) || x == s[i] implies b.contains(x) by {
        if a.contains(x) {
            let k: int = choose|k: int| 0 <= k < a.len() && a[k] == x;
            assert(b[k] == x);
        } else {
            assert(b[i] == x);
        }
    }
    assert(s.take(i + 1).to_set() =~= s.take(i).to_set().insert(s[i]));
}

/// Puts `date` into a sorted vector at its place, unless it is there.
fn insert_sorted(v: &mut Vec<CalendarDate>, date: CalendarDate)
    requires
        sorted(old(v)@),
    ensures
        sorted(final(v)@),
        final(v)@.to_set() == old(v)@.to_set().insert(date),
{
    let mut i: usize = 0;
    while i < v.len() && v[i].is_before(date)
        invariant
            0 <= i <= v.len(),
            v@ == old(v)@,
            forall|k: int| 0 <= k < i ==> (#[trigger] v@[k]).before(date),
        decreases v.len() - i,
    {
        i += 1;
    }
    let ghost prev: Seq<CalendarDate> = v@;
    if i < v.len() && v[i] == date {
        assert(prev.contains(date));
        assert(prev.to_set() =~= prev.to_set().insert(date));
    } else {
        v.insert(i, date);
        proof {
            let cur: Seq<CalendarDate> = v@;
            assert(cur.len() == prev.len() + 1);
            assert(forall|k: int| 0 <= k < i ==> cur[k] == prev[k]);
            assert(cur[i as int] == date);
            assert(forall|k: int| i < k < cur.len() ==> cur[k] == prev[k - 1]);
            if i < prev.len() {
                assert(date.before(prev[i as int]));
                assert forall|k: int| i <= k < prev.len() implies date.before(
                    #[trigger] prev[k],
                ) by {
                    if i < k {
                        assert(prev[i as int].before(prev[k]));
                    }
                }
            }
            assert forall|a: int, b: int| 0 <= a < b < cur.len() implies (#[trigger] cur[a]).before(
                #[trigger] cur[b],
            ) by {
                if b < i {
                    assert(prev[a].before(prev[b]));
                } else if b == i {
                    assert(prev[a].before(date));
                } else if a < i {
                    assert(prev[a].before(prev[b - 1]));
                } else if a == i {
                    assert(date.before(prev[b - 1]));
                } else {
                    assert(prev[a - 1].before(prev[b - 1]));
                }
            }
            assert forall|x: CalendarDate| cur.contains(x) implies prev.contains(x) || x
                == date by {
                let k: int = choose|k: int| 0 <= k < cur.len() && cur[k] == x;
                if k < i {
                    assert(prev[k] == x);
                } else if k > i {
                    assert(prev[k - 1] == x);
                }
            }
            assert forall|x: CalendarDate| prev.contains(x) || x == date implies cur.contains(
                x,
            ) by {
                if x == date {
                    assert(cur[i as int] == x);
                } else {
                    let k: int = choose|k: int| 0 <= k < prev.len() && prev[k] == x;
                    if k < i {
                        assert(cur[k] == x);
                    } else {
                        assert(cur[k + 1] == x);
                    }
                }
            }
            assert(cur.to_set() =~= prev.to_set().insert(date));
        }
    }
}

/// Puts each date of `extra` into the sorted vector `v`.
fn merge_sorted(v: &mut Vec<CalendarDate>, extra: &Vec<CalendarDate>)
    requires
        sorted(old(v)@),
    ensures
        sorted(final(v)@),
        final(v)@.to_set() == old(v)@.to_set().union(extra@.to_set()),
{
    let mut i: usize = 0;
    proof {
        assert(extra@.take(0).to_set() =~= Set::<CalendarDate>::empty());
        assert(v@.to_set() =~= old(v)@.to_set().union(extra@.take(0).to_set()));
    }
    while i < extra.len()
        invariant
            0 <= i <= extra.len(),
            sorted(v@),
            v@.to_set() == old(v)@.to_set().union(extra@.take(i as int).to_set()),
        decreases extra.len() - i,
    {
        proof {
            lemma_take_next(extra@, i as int);
        }
        insert_sorted(v, extra[i]);
        assert(v@.to_set() =~= old(v)@.to_set().union(extra@.take(i + 1).to_set()));
        i += 1;
    }
    assert(extra@.take(extra.len() as int) =~= extra@);
}

/// A holiday calendar: holidays given as dates, kept in calendar order
/// with none twice, and rules that each name one holiday a year.
pub struct Calendar {
    pub holidays: Vec<CalendarDate>,
    pub holiday_rules: Vec<HolidayRule>,
}

impl Calendar {
    /// Whether the holidays stand in calendar order, none twice.
    pub open spec fn wf(&self) -> bool {
        sorted(self.holidays@)
    }

    /// The holidays given as dates.
    pub open spec fn holiday_set(&self) -> Set<CalendarDate> {
        self.holidays@.to_set()
    }

    /// Whether every rule names a supported date in `year`.
    pub open spec fn rules_defined_at(&self, year: int) -> bool {
        forall|i: int|
            0 <= i < self.holiday_rules@.len() ==> (#[trigger] self.holiday_rules@[i]).defined_at(
                year,
            )
    }

    /// Whether some rule, asked for the year of `date`, names `date`.
    pub open spec fn rule_hit(&self, date: CalendarDate) -> bool {
        exists|i: int|
            0 <= i < self.holiday_rules@.len() && #[trigger] produced(
                self.holiday_rules@,
                date,
                date.year as int,
                i,
            )
    }

    /// Whether `date` is a holiday: one of the dates given, or the date
    /// that a rule names in the year of `date`.
    pub open spec fn holiday(&self, date: CalendarDate) -> bool {
        self.holidays@.contains(date) || self.rule_hit(date)
    }

    /// A calendar with the given rules and the given holidays, put in order.
    pub fn new(holiday_rules: Option<Vec<HolidayRule>>, holidays: Option<Vec<CalendarDate>>) -> (r:
        Self)
        ensures
            r.wf(),
            r.holiday_rules@ == rules_of(holiday_rules),
            r.holiday_set() == dates_of(holidays),
    {
        let mut h_vec: Vec<CalendarDate> = Vec::new();
        match &holidays {
            Some(dates) => {
                merge_sorted(&mut h_vec, dates);
                assert(h_vec@.to_set() =~= dates@.to_set());
            },
            None => {
                assert(h_vec@.to_set() =~= Set::<CalendarDate>::empty());
            },
        }
        let rules: Vec<HolidayRule> = match holiday_rules {
            Some(rules) => rules,
            None => Vec::new(),
        };
        Calendar { holidays: h_vec, holiday_rules: rules }
    }

    /// Removes the holidays given as dates; the rules stay.
    pub fn delete_holidays(&mut self)
        ensures
            final(self).holidays@ == Seq::<CalendarDate>::empty(),
            final(self).holiday_rules@ == old(self).holiday_rules@,
            final(self).wf(),
    {
        self.holidays.clear();
    }

    /// Adds one holiday.
    pub fn add_holiday(&mut self, holiday: CalendarDate)
        requires
            old(self).wf(),
        ensures
            final(self).wf(),
            final(self).holiday_set() == old(self).holiday_set().insert(holiday),
            final(self).holiday_rules@ == old(self).holiday_rules@,
    {
        insert_sorted(&mut self.holidays, holiday);
    }

    /// Adds the holidays of `holidays_vec`.
    pub fn add_holidays_from_vec(&mut self, holidays_vec: Vec<CalendarDate>)
        requires
            old(self).wf(),
        ensures
            final(self).wf(),
            final(self).holiday_set() == old(self).holiday_set().union(holidays_vec@.to_set()),
            final(self).holiday_rules@ == old(self).holiday_rules@,
    {
        merge_sorted(&mut self.holidays, &holidays_vec);
    }

    /// Whether `date` is among the holidays given as dates.
    pub fn is_holiday_from_inner_vec(&self, date: CalendarDate) -> (r: bool)
        ensures
            r == self.holidays@.contains(date),
            r == self.holiday_set().contains(date),
    {
        let mut i: usize = 0;
        while i < self.holidays.len()
            invariant
                0 <= i <= self.holidays.len(),
                forall|k: int| 0 <= k < i ==> self.holidays@[k] != date,
            decreases self.holidays.len() - i,
        {
            if self.holidays[i] == date {
                return true;
            }
            i += 1;
        }
        false
    }

    /// Whether `date` is a holiday: one of the dates given, or the date
    /// that a rule names in the year of `date`.
    pub fn is_holiday(&self, date: CalendarDate) -> (r: bool)
        requires
            date.wf(),
            self.rules_defined_at(date.year as int),
        ensures
            r == self.holiday(date),
    {
        if self.is_holiday_from_inner_vec(date) {
            return true;
        }
        let mut i: usize = 0;
        while i < self.holiday_rules.len()
            invariant
                0 <= i <= self.holiday_rules.len(),
                date.wf(),
                self.rules_defined_at(date.year as int),
                forall|k: int| 0 <= k < i ==> !produced(self.holiday_rules@, date, date.year as int, k),
            decreases self.holiday_rules.len() - i,
        {
            let named: CalendarDate = self.holiday_rules[i].get_date(date.year);
            proof {
                lemma_serial_order(named, date);
            }
            if named == date {
                assert(produced(self.holiday_rules@, date, date.year as int, i as int));
                return true;
            }
            i += 1;
        }
        false
    }
}


/// One more rule asked in `year` adds the date it names, and nothing else.
proof fn lemma_rule_dates_step(
    rules: Seq<HolidayRule>,
    start_year: int,
    year: int,
    count: int,
    named: CalendarDate,
)
    requires
        0 <= count < rules.len(),
        named.wf(),
        produced(rules, named, year, count),
    ensures
        rule_dates_upto(rules, start_year, year, count + 1) == rule_dates_upto(
            rules,
            start_year,
            year,
            count,
        ).insert(named),
{
    let wide: Set<CalendarDate> = rule_dates_upto(rules, start_year, year, count + 1);
    let narrow: Set<CalendarDate> = rule_dates_upto(rules, start_year, year, count);
    assert forall|d: CalendarDate| wide.contains(d) implies narrow.insert(named).contains(d) by {
        let (y, i): (int, int) = choose|y: int, i: int|
            0 <= i < rules.len() && #[trigger] produced(rules, d, y, i) && (start_year <= y < year
                || (y == year && i < count + 1));
        if y == year && i == count {
            lemma_serial_order(d, named);
        } else {
            assert(produced(rules, d, y, i));
        }
    }
    assert forall|d: CalendarDate| narrow.insert(named).contains(d) implies wide.contains(d) by {
        if d == named {
            assert(produced(rules, d, year, count));
        } else {
            let (y, i): (int, int) = choose|y: int, i: int|
                0 <= i < rules.len() && #[trigger] produced(rules, d, y, i) && (start_year <= y
                    < year || (y == year && i < count));
            assert(produced(rules, d, y, i));
        }
    }
    assert(wide =~= narrow.insert(named));
}

/// Once every rule was asked in `year`, the year is done.
proof fn lemma_rule_dates_year_done(rules: Seq<HolidayRule>, start_year: int, year: int)
    requires
        start_year <= year,
    ensures
        rule_dates_upto(rules, start_year, year, rules.len() as int) == rule_dates_upto(
            rules,
            start_year,
            year + 1,
            0,
        ),
{
    let full: Set<CalendarDate> = rule_dates_upto(rules, start_year, year, rules.len() as int);
    let next: Set<CalendarDate> = rule_dates_upto(rules, start_year, year + 1, 0);
    assert forall|d: CalendarDate| full.contains(d) implies next.contains(d) by {
        let (y, i): (int, int) = choose|y: int, i: int|
            0 <= i < rules.len() && #[trigger] produced(rules, d, y, i) && (start_year <= y < year
                || (y == year && i < rules.len()));
        assert(produced(rules, d, y, i));
    }
    assert forall|d: CalendarDate| next.contains(d) implies full.contains(d) by {
        let (y, i): (int, int) = choose|y: int, i: int|
            0 <= i < rules.len() && #[trigger] produced(rules, d, y, i) && (start_year <= y < year
                + 1 || (y == year + 1 && i < 0));
        assert(produced(rules, d, y, i));
    }
    assert(full =~= next);
}

/// No year, no dates.
proof fn lemma_rule_dates_none(rules: Seq<HolidayRule>, start_year: int, year: int)
    requires
        year <= start_year,
    ensures
        rule_dates_upto(rules, start_year, year, 0) == Set::<CalendarDate>::empty(),
{
    assert(rule_dates_upto(rules, start_year, year, 0) =~= Set::<CalendarDate>::empty());
}

/// After the rules' holidays were added for a range of years, a date of
/// one of those years is a holiday exactly when it is among the holidays
/// held as dates: asking the rules again finds nothing more.
pub proof fn lemma_materialized_agrees(
    earlier: Calendar,
    later: Calendar,
    start_year: int,
    end_year: int,
    date: CalendarDate,
)
    requires
        later.holiday_rules@ == earlier.holiday_rules@,
        later.holiday_set() == earlier.holiday_set().union(
            rule_dates(earlier.holiday_rules@, start_year, end_year),
        ),
        date.wf(),
        start_year <= date.year <= end_year,
    ensures
        later.rule_hit(date) ==> later.holidays@.contains(date),
        later.holiday(date) == later.holidays@.contains(date),
{
    if later.rule_hit(date) {
        let i: int = choose|i: int|
            0 <= i < later.holiday_rules@.len() && #[trigger] produced(
                later.holiday_rules@,
                date,
                date.year as int,
                i,
            );
        assert(produced(earlier.holiday_rules@, date, date.year as int, i));
        assert(rule_dates(earlier.holiday_rules@, start_year, end_year).contains(date));
        assert(later.holiday_set().contains(date));
    }
}

/// Whether the date that each rule names for a year from `start_year` to
/// `end_year` lies in that year.
pub open spec fn rules_keep_year(rules: Seq<HolidayRule>, start_year: int, end_year: int) -> bool {
    forall|y: int, i: int|
        start_year <= y <= end_year && 0 <= i < rules.len() ==> days_before_year(y) < (
        #[trigger] rules[i].date_serial(y)) <= days_before_year(y + 1)
}

/// Where a calendar holds no holidays but those that its rules name for a
/// range of years, each in its own year, a date among them is one that a
/// rule names when asked again for the date's year.
pub proof fn lemma_materialized_only_rules(
    later: Calendar,
    start_year: int,
    end_year: int,
    date: CalendarDate,
)
    requires
        later.holiday_set() == rule_dates(later.holiday_rules@, start_year, end_year),
        rules_keep_year(later.holiday_rules@, start_year, end_year),
        later.holidays@.contains(date),
    ensures
        date.wf(),
        start_year <= date.year <= end_year,
        later.rule_hit(date),
{
    let rules: Seq<HolidayRule> = later.holiday_rules@;
    assert(later.holiday_set().contains(date));
    let (y, i): (int, int) = choose|y: int, i: int|
        0 <= i < rules.len() && #[trigger] produced(rules, date, y, i) && (start_year <= y
            < end_year + 1 || (y == end_year + 1 && i < 0));
    assert(days_before_year(y) < rules[i].date_serial(y) <= days_before_year(y + 1));
    lemma_serial_within_year(date);
    lemma_years_ascend(date.year as int, date.year as int + 1);
    if y < date.year {
        lemma_years_ascend(y, date.year as int);
    } else if y > date.year {
        lemma_years_ascend(date.year as int, y);
    }
    assert(produced(rules, date, date.year as int, i));
}

impl Calendar {
    /// Adds the holidays that the rules name in each year from
    /// `start_year` to `end_year`.
    pub fn add_holidays_with_rules(&mut self, start_year: i32, end_year: i32)
        requires
            old(self).wf(),
            forall|y: int| start_year <= y <= end_year ==> old(self).rules_defined_at(y),
        ensures
            final(self).wf(),
            final(self).holiday_rules@ == old(self).holiday_rules@,
            final(self).holiday_set() == old(self).holiday_set().union(
                rule_dates(old(self).holiday_rules@, start_year as int, end_year as int),
            ),
    {
        let mut year: i64 = start_year as i64;
        proof {
            lemma_rule_dates_none(self.holiday_rules@, start_year as int, year as int);
            assert(self.holiday_set() =~= old(self).holiday_set().union(
                rule_dates_upto(self.holiday_rules@, start_year as int, year as int, 0),
            ));
        }
        while year <= end_year as i64
            invariant
                start_year <= year,
                year <= end_year + 1 || year == start_year,
                self.wf(),
                self.holiday_rules@ == old(self).holiday_rules@,
                forall|y: int| start_year <= y <= end_year ==> old(self).rules_defined_at(y),
                self.holiday_set() == old(self).holiday_set().union(
                    rule_dates_upto(self.holiday_rules@, start_year as int, year as int, 0),
                ),
            decreases end_year + 1 - year,
        {
            let mut i: usize = 0;
            while i < self.holiday_rules.len()
                invariant
                    0 <= i <= self.holiday_rules.len(),
                    start_year <= year <= end_year,
                    self.wf(),
                    self.holiday_rules@ == old(self).holiday_rules@,
                    old(self).rules_defined_at(year as int),
                    self.holiday_set() == old(self).holiday_set().union(
                        rule_dates_upto(
                            self.holiday_rules@,
                            start_year as int,
                            year as int,
                            i as int,
                        ),
                    ),
                decreases self.holiday_rules.len() - i,
            {
                let named: CalendarDate = self.holiday_rules[i].get_date(year as i32);
                proof {
                    lemma_rule_dates_step(
                        self.holiday_rules@,
                        start_year as int,
                        year as int,
                        i as int,
                        named,
                    );
                }
                insert_sorted(&mut self.holidays, named);
                assert(self.holiday_set() =~= old(self).holiday_set().union(
                    rule_dates_upto(
                        self.holiday_rules@,
                        start_year as int,
                        year as int,
                        i + 1,
                    ),
                ));
                i += 1;
            }
            proof {
                lemma_rule_dates_year_done(self.holiday_rules@, start_year as int, year as int);
            }
            year += 1;
        }
        proof {
            if year != end_year + 1 {
                lemma_rule_dates_none(self.holiday_rules@, start_year as int, year as int);
                lemma_rule_dates_none(self.holiday_rules@, start_year as int, end_year + 1);
            }
        }
    }

    /// The calendar that holds the holidays and the rules of both.
    pub fn combine(&self, other: Calendar) -> (r: Calendar)
        requires
            self.wf(),
        ensures
            r.wf(),
            r.holiday_set() == self.holiday_set().union(other.holiday_set()),
            r.holiday_rules@ == self.holiday_rules@ + other.holiday_rules@,
    {
        let mut combined_holidays: Vec<CalendarDate> = Vec::new();
        merge_sorted(&mut combined_holidays, &self.holidays);
        merge_sorted(&mut combined_holidays, &other.holidays);
        assert(combined_holidays@.to_set() =~= self.holiday_set().union(other.holiday_set()));
        let mut combined_rules: Vec<HolidayRule> = Vec::new();
        let mut i: usize = 0;
        while i < self.holiday_rules.len()
            invariant
                0 <= i <= self.holiday_rules.len(),
                combined_rules@ == self.holiday_rules@.take(i as int),
            decreases self.holiday_rules.len() - i,
        {
            combined_rules.push(self.holiday_rules[i]);
            assert(combined_rules@ =~= self.holiday_rules@.take(i + 1));
            i += 1;
        }
        assert(combined_rules@ =~= self.holiday_rules@);
        let mut j: usize = 0;
        while j < other.holiday_rules.len()
            invariant
                0 <= j <= other.holiday_rules.len(),
                combined_rules@ == self.holiday_rules@ + other.holiday_rules@.take(j as int),
            decreases other.holiday_rules.len() - j,
        {
            combined_rules.push(other.holiday_rules[j]);
            assert(combined_rules@ =~= self.holiday_rules@ + other.holiday_rules@.take(j + 1));
            j += 1;
        }
        assert(combined_rules@ =~= self.holiday_rules@ + other.holiday_rules@);
        Calendar { holidays: combined_holidays, holiday_rules: combined_rules }
    }
}

/// The twelve holiday rules of the New York market.
pub open spec fn ny_rules() -> Seq<HolidayRule> {
    seq![
        HolidayRule::MonthDay(MonthDayRule { month: 1, day: 1 }),
        HolidayRule::OrdinalWeekWeekday(
            OrdinalWeekWeekdayRule { month: 1, ordinal: 3, weekday: Weekday::Mon },
        ),
        HolidayRule::OrdinalWeekWeekday(
            OrdinalWeekWeekdayRule { month: 2, ordinal: 3, weekday: Weekday::Mon },
        ),
        HolidayRule::FridayBeforeEaster(FridayEasterRule),
        HolidayRule::LastWeekWeekday(LastWeekWeekdayRule { month: 5, weekday: Weekday::Mon }),
        HolidayRule::MonthDay(MonthDayRule { month: 6, day: 19 }),
        HolidayRule::MonthDay(MonthDayRule { month: 7, day: 4 }),
        HolidayRule::OrdinalWeekWeekday(
            OrdinalWeekWeekdayRule { month: 9, ordinal: 1, weekday: Weekday::Mon },
        ),
        HolidayRule::OrdinalWeekWeekday(
            OrdinalWeekWeekdayRule { month: 10, ordinal: 2, weekday: Weekday::Mon },
        ),
        HolidayRule::MonthDay(MonthDayRule { month: 11, day: 11 }),
        HolidayRule::OrdinalWeekWeekday(
            OrdinalWeekWeekdayRule { month: 11, ordinal: 4, weekday: Weekday::Thu },
        ),
        HolidayRule::MonthDay(MonthDayRule { month: 12, day: 25 }),
    ]
}

/// A rule for one of the first four occurrences of a weekday in a month
/// names a date in every supported year.
proof fn lemma_ordinal_defined(rule: OrdinalWeekWeekdayRule, year: int)
    requires
        1 <= rule.ordinal <= 4,
        1 <= rule.month <= 12,
        MIN_YEAR <= year <= MAX_YEAR,
    ensures
        rule.defined_at(year),
{
    lemma_serial_within_year(CalendarDate { year: year as i32, month: rule.month, day: 1 });
    lemma_serial_within_year(CalendarDate { year: year as i32, month: rule.month, day: 28 });
}

/// The New York rules name a date in every year from year 0 on.
pub proof fn lemma_ny_rules_defined(year: int)
    requires
        0 <= year <= MAX_YEAR,
    ensures
        forall|i: int| 0 <= i < ny_rules().len() ==> (#[trigger] ny_rules()[i]).defined_at(year),
        ny_rules().len() == 12,
{
    lemma_ordinal_defined(
        OrdinalWeekWeekdayRule { month: 1, ordinal: 3, weekday: Weekday::Mon },
        year,
    );
    lemma_ordinal_defined(
        OrdinalWeekWeekdayRule { month: 2, ordinal: 3, weekday: Weekday::Mon },
        year,
    );
    lemma_ordinal_defined(
        OrdinalWeekWeekdayRule { month: 9, ordinal: 1, weekday: Weekday::Mon },
        year,
    );
    lemma_ordinal_defined(
        OrdinalWeekWeekdayRule { month: 10, ordinal: 2, weekday: Weekday::Mon },
        year,
    );
    lemma_ordinal_defined(
        OrdinalWeekWeekdayRule { month: 11, ordinal: 4, weekday: Weekday::Thu },
        year,
    );
}

/// The date that a New York rule names for a year lies in that year.
pub proof fn lemma_ny_rules_keep_year(start_year: int, end_year: int)
    requires
        0 <= start_year,
        end_year <= MAX_YEAR,
    ensures
        rules_keep_year(ny_rules(), start_year, end_year),
{
    assert forall|y: int, i: int|
        start_year <= y <= end_year && 0 <= i < ny_rules().len() implies days_before_year(y) < (
    #[trigger] ny_rules()[i].date_serial(y)) <= days_before_year(y + 1) by {
        lemma_years_ascend(y, y + 1);
        lemma_easter_is_sunday(y);
        let first: int = days_before_year(y);
        let rule: HolidayRule = ny_rules()[i];
        match rule {
            HolidayRule::OrdinalWeekWeekday(r) => {
                assert(1 <= r.ordinal <= 4 && 1 <= r.month <= 12);
                assert(first < r.date_serial(y) <= first + year_length(y));
            },
            HolidayRule::LastWeekWeekday(r) => {
                assert(r.month == 5);
                assert(first < r.date_serial(y) <= first + year_length(y));
            },
            HolidayRule::MonthDay(r) => {
                assert(1 <= r.month <= 12 && 1 <= r.day <= 28);
                assert(first < r.date_serial(y) <= first + year_length(y));
            },
            HolidayRule::MondayAfterEaster(r) => {},
            HolidayRule::FridayBeforeEaster(r) => {
                assert(first < r.date_serial(y) <= first + year_length(y));
            },
        }
    }
}

/// The calendar of the New York market: its twelve rules, the holidays
/// given, and, where a range of years is given, the rules' holidays in
/// those years.
pub fn get_ny_calendar(
    holidays: Option<Vec<CalendarDate>>,
    start_year: Option<i32>,
    end_year: Option<i32>,
) -> (r: Calendar)
    requires
        start_year.is_some() == end_year.is_some(),
        start_year.is_some() ==> 0 <= start_year.unwrap() <= end_year.unwrap() <= MAX_YEAR,
    ensures
        r.wf(),
        r.holiday_rules@ == ny_rules(),
        start_year.is_none() ==> r.holiday_set() == dates_of(holidays),
        start_year.is_some() ==> r.holiday_set() == dates_of(holidays).union(
            rule_dates(ny_rules(), start_year.unwrap() as int, end_year.unwrap() as int),
        ),
{
    let mut rules: Vec<HolidayRule> = Vec::new();
    rules.push(HolidayRule::MonthDay(MonthDayRule::new(Month::January, 1)));
    rules.push(
        HolidayRule::OrdinalWeekWeekday(OrdinalWeekWeekdayRule::new(3, Weekday::Mon, Month::January)),
    );
    rules.push(
        HolidayRule::OrdinalWeekWeekday(
            OrdinalWeekWeekdayRule::new(3, Weekday::Mon, Month::February),
        ),
    );
    rules.push(HolidayRule::FridayBeforeEaster(FridayEasterRule));
    rules.push(HolidayRule::LastWeekWeekday(LastWeekWeekdayRule::new(Weekday::Mon, Month::May)));
    rules.push(HolidayRule::MonthDay(MonthDayRule::new(Month::June, 19)));
    rules.push(HolidayRule::MonthDay(MonthDayRule::new(Month::July, 4)));
    rules.push(
        HolidayRule::OrdinalWeekWeekday(
            OrdinalWeekWeekdayRule::new(1, Weekday::Mon, Month::September),
        ),
    );
    rules.push(
        HolidayRule::OrdinalWeekWeekday(OrdinalWeekWeekdayRule::new(2, Weekday::Mon, Month::October)),
    );
    rules.push(HolidayRule::MonthDay(MonthDayRule::new(Month::November, 11)));
    rules.push(
        HolidayRule::OrdinalWeekWeekday(
            OrdinalWeekWeekdayRule::new(4, Weekday::Thu, Month::November),
        ),
    );
    rules.push(HolidayRule::MonthDay(MonthDayRule::new(Month::December, 25)));
    assert(rules@ =~= ny_rules());
    let mut ny_c: Calendar = Calendar::new(Some(rules), holidays);
    match (start_year, end_year) {
        (Some(sy), Some(ey)) => {
            proof {
                assert forall|y: int| sy <= y <= ey implies ny_c.rules_defined_at(y) by {
                    lemma_ny_rules_defined(y);
                }
            }
            ny_c.add_holidays_with_rules(sy, ey);
        },
        _ => {},
    }
    ny_c
}

} // verus!
