//! Business days of a holiday calendar: stepping forward and backward over
//! weekends and holidays.

use crate::calendars::Calendar;
use crate::date::{
    lemma_serial_order, lemma_serial_within_year, max_serial, min_serial, weekday_index,
    CalendarDate, Weekday,
};
use vstd::prelude::*;

verus! {

/// The number of days from a day with weekday `weekday` (Monday as 0) to
/// the next day that is no Saturday or Sunday.
pub open spec fn days_to_next_weekday(weekday: int) -> int {
    if weekday == 4 {
        3
    } else if weekday == 5 {
        2
    } else {
        1
    }
}

/// The number of days from a day with weekday `weekday` (Monday as 0) back
/// to the last day before it that is no Saturday or Sunday.
pub open spec fn days_to_previous_weekday(weekday: int) -> int {
    if weekday == 0 {
        3
    } else if weekday == 6 {
        2
    } else {
        1
    }
}

/// A day that is no Saturday or Sunday and comes after the day `s` comes
/// no earlier than the first such day after `s`.
proof fn lemma_weekday_after(s: int, b: int)
    requires
        s < b,
        weekday_index(b) < 5,
    ensures
        s + days_to_next_weekday(weekday_index(s)) <= b,
{
}

/// A day that is no Saturday or Sunday and comes before the day `s` comes
/// no later than the last such day before `s`.
proof fn lemma_weekday_before(s: int, b: int)
    requires
        b < s,
        weekday_index(b) < 5,
    ensures
        b <= s - days_to_previous_weekday(weekday_index(s)),
{
}

/// The first day after `t` that is no Saturday or Sunday.
fn next_weekday(t: CalendarDate) -> (r: CalendarDate)
    requires
        t.wf(),
        t.serial() + days_to_next_weekday(t.weekday_index()) <= max_serial(),
    ensures
        r.wf(),
        r.serial() == t.serial() + days_to_next_weekday(t.weekday_index()),
        r.weekday_index() < 5,
{
    proof {
        lemma_serial_within_year(t);
    }
    let skip: i64 = match t.weekday() {
        Weekday::Fri => 3,
        Weekday::Sat => 2,
        _ => 1,
    };
    t.add_days(skip)
}

/// The last day before `t` that is no Saturday or Sunday.
fn previous_weekday(t: CalendarDate) -> (r: CalendarDate)
    requires
        t.wf(),
        min_serial() <= t.serial() - days_to_previous_weekday(t.weekday_index()),
    ensures
        r.wf(),
        r.serial() == t.serial() - days_to_previous_weekday(t.weekday_index()),
        r.weekday_index() < 5,
{
    proof {
        lemma_serial_within_year(t);
    }
    let skip: i64 = match t.weekday() {
        Weekday::Mon => 3,
        Weekday::Sun => 2,
        _ => 1,
    };
    t.add_days(-skip)
}

impl Calendar {
    /// Whether `date` is a business day: no Saturday, no Sunday and no
    /// holiday.
    pub open spec fn business_day(&self, date: CalendarDate) -> bool {
        date.weekday_index() < 5 && !self.holiday(date)
    }

    /// Whether `r` is the first business day after `t`.
    pub open spec fn is_next_business_day(&self, t: CalendarDate, r: CalendarDate) -> bool {
        &&& r.wf()
        &&& t.serial() < r.serial()
        &&& self.business_day(r)
        &&& forall|d: CalendarDate|
            d.wf() && t.serial() < d.serial() < r.serial() ==> !#[trigger] self.business_day(d)
    }

    /// Whether `r` is the last business day before `t`.
    pub open spec fn is_previous_business_day(&self, t: CalendarDate, r: CalendarDate) -> bool {
        &&& r.wf()
        &&& r.serial() < t.serial()
        &&& self.business_day(r)
        &&& forall|d: CalendarDate|
            d.wf() && r.serial() < d.serial() < t.serial() ==> !#[trigger] self.business_day(d)
    }

    /// The first business day after `t`, where there is one.
    pub open spec fn next_business_day(&self, t: CalendarDate) -> CalendarDate {
        choose|r: CalendarDate| self.is_next_business_day(t, r)
    }

    /// The last business day before `t`, where there is one.
    pub open spec fn previous_business_day(&self, t: CalendarDate) -> CalendarDate {
        choose|r: CalendarDate| self.is_previous_business_day(t, r)
    }

    /// Whether every rule names a supported date in each year from
    /// `first` to `last`.
    pub open spec fn rules_defined_between(&self, first: int, last: int) -> bool {
        forall|y: int| first <= y <= last ==> self.rules_defined_at(y)
    }

    /// Whether a business day follows `t` within the supported dates, with
    /// every rule defined in the years on the way.
    pub open spec fn can_step_forward(&self, t: CalendarDate) -> bool {
        &&& t.wf()
        &&& self.is_next_business_day(t, self.next_business_day(t))
        &&& self.rules_defined_between(t.year as int, self.next_business_day(t).year as int)
    }

    /// Whether a business day precedes `t` within the supported dates, with
    /// every rule defined in the years on the way.
    pub open spec fn can_step_back(&self, t: CalendarDate) -> bool {
        &&& t.wf()
        &&& self.is_previous_business_day(t, self.previous_business_day(t))
        &&& self.rules_defined_between(self.previous_business_day(t).year as int, t.year as int)
    }

    /// The date reached from `t` by `n` steps, each to the next business
    /// day.
    pub open spec fn business_days_after(&self, t: CalendarDate, n: nat) -> CalendarDate
        decreases n,
    {
        if n == 0 {
            t
        } else {
            self.next_business_day(self.business_days_after(t, (n - 1) as nat))
        }
    }

    /// The date reached from `t` by `n` steps, each to the previous
    /// business day.
    pub open spec fn business_days_before(&self, t: CalendarDate, n: nat) -> CalendarDate
        decreases n,
    {
        if n == 0 {
            t
        } else {
            self.previous_business_day(self.business_days_before(t, (n - 1) as nat))
        }
    }

    /// The first business day on or after `date`.
    pub open spec fn following(&self, date: CalendarDate) -> CalendarDate {
        if self.business_day(date) {
            date
        } else {
            self.next_business_day(date)
        }
    }

    /// The last business day on or before `date`.
    pub open spec fn preceding(&self, date: CalendarDate) -> CalendarDate {
        if self.business_day(date) {
            date
        } else {
            self.previous_business_day(date)
        }
    }

    /// The first business day on or after `date` or, where that lies in a
    /// later month, the last business day on or before `date`.
    pub open spec fn modified_following(&self, date: CalendarDate) -> CalendarDate {
        if self.following(date).same_month(date) {
            self.following(date)
        } else {
            self.preceding(date)
        }
    }

    /// The last business day on or before `date` or, where that lies in
    /// an earlier month, the first business day on or after `date`.
    pub open spec fn modified_preceding(&self, date: CalendarDate) -> CalendarDate {
        if self.preceding(date).same_month(date) {
            self.preceding(date)
        } else {
            self.following(date)
        }
    }

    /// Whether `date` is a business day: no Saturday, no Sunday and no
    /// holiday.
    pub fn is_business_day(&self, date: CalendarDate) -> (r: bool)
        requires
            date.wf(),
            self.rules_defined_at(date.year as int),
        ensures
            r == self.business_day(date),
    {
        match date.weekday() {
            Weekday::Sat => false,
            Weekday::Sun => false,
            _ => !self.is_holiday(date),
        }
    }

    /// There is one first business day after `t` at most.
    pub proof fn lemma_next_business_day_unique(&self, t: CalendarDate, r: CalendarDate)
        requires
            self.is_next_business_day(t, r),
        ensures
            r == self.next_business_day(t),
    {
        let b: CalendarDate = self.next_business_day(t);
        assert(self.is_next_business_day(t, b));
        lemma_serial_order(r, b);
        if r.serial() < b.serial() {
            assert(!self.business_day(r));
        } else if b.serial() < r.serial() {
            assert(!self.business_day(b));
        }
    }

    /// There is one last business day before `t` at most.
    pub proof fn lemma_previous_business_day_unique(&self, t: CalendarDate, r: CalendarDate)
        requires
            self.is_previous_business_day(t, r),
        ensures
            r == self.previous_business_day(t),
    {
        let b: CalendarDate = self.previous_business_day(t);
        assert(self.is_previous_business_day(t, b));
        lemma_serial_order(r, b);
        if r.serial() < b.serial() {
            assert(!self.business_day(b));
        } else if b.serial() < r.serial() {
            assert(!self.business_day(r));
        }
    }

    /// Where a business day lies after `t`, there is a first one, and
    /// it comes no later.
    pub proof fn lemma_next_business_day_exists(&self, t: CalendarDate, b: CalendarDate)
        requires
            b.wf(),
            t.serial() < b.serial(),
            self.business_day(b),
        ensures
            self.is_next_business_day(t, self.next_business_day(t)),
            self.next_business_day(t).serial() <= b.serial(),
        decreases b.serial() - t.serial(),
    {
        if exists|d: CalendarDate|
            d.wf() && t.serial() < d.serial() < b.serial() && self.business_day(d) {
            let d: CalendarDate = choose|d: CalendarDate|
                d.wf() && t.serial() < d.serial() < b.serial() && self.business_day(d);
            self.lemma_next_business_day_exists(t, d);
        } else {
            assert(self.is_next_business_day(t, b));
            self.lemma_next_business_day_unique(t, b);
        }
    }

    /// Where a business day lies before `t`, there is a last one, and it
    /// comes no earlier.
    pub proof fn lemma_previous_business_day_exists(&self, t: CalendarDate, b: CalendarDate)
        requires
            b.wf(),
            b.serial() < t.serial(),
            self.business_day(b),
        ensures
            self.is_previous_business_day(t, self.previous_business_day(t)),
            b.serial() <= self.previous_business_day(t).serial(),
        decreases t.serial() - b.serial(),
    {
        if exists|d: CalendarDate|
            d.wf() && b.serial() < d.serial() < t.serial() && self.business_day(d) {
            let d: CalendarDate = choose|d: CalendarDate|
                d.wf() && b.serial() < d.serial() < t.serial() && self.business_day(d);
            self.lemma_previous_business_day_exists(t, d);
        } else {
            assert(self.is_previous_business_day(t, b));
            self.lemma_previous_business_day_unique(t, b);
        }
    }

    /// A step forward from `t` can be made where some business day lies
    /// after `t` and the rules are defined in the years up to it.
    pub proof fn lemma_can_step_forward(&self, t: CalendarDate, b: CalendarDate)
        requires
            t.wf(),
            b.wf(),
            t.serial() < b.serial(),
            self.business_day(b),
            self.rules_defined_between(t.year as int, b.year as int),
        ensures
            self.can_step_forward(t),
    {
        self.lemma_next_business_day_exists(t, b);
        lemma_serial_order(self.next_business_day(t), b);
    }

    /// A step back from `t` can be made where some business day lies
    /// before `t` and the rules are defined in the years back to it.
    pub proof fn lemma_can_step_back(&self, t: CalendarDate, b: CalendarDate)
        requires
            t.wf(),
            b.wf(),
            b.serial() < t.serial(),
            self.business_day(b),
            self.rules_defined_between(b.year as int, t.year as int),
        ensures
            self.can_step_back(t),
    {
        self.lemma_previous_business_day_exists(t, b);
        lemma_serial_order(b, self.previous_business_day(t));
    }

    /// The first business day after `t`.
    pub fn add_business_day(&self, t: CalendarDate) -> (r: CalendarDate)
        requires
            self.can_step_forward(t),
        ensures
            r == self.next_business_day(t),
            self.is_next_business_day(t, r),
    {
        let ghost b: CalendarDate = self.next_business_day(t);
        proof {
            lemma_serial_within_year(b);
            lemma_weekday_after(t.serial(), b.serial());
        }
        let mut following: CalendarDate = next_weekday(t);
        proof {
            lemma_serial_order(t, following);
            lemma_serial_order(following, b);
        }
        while self.is_holiday(following)
            invariant
                b.wf(),
                !self.holiday(b),
                b.weekday_index() < 5,
                self.rules_defined_between(t.year as int, b.year as int),
                following.wf(),
                t.serial() < following.serial() <= b.serial(),
                t.year <= following.year <= b.year,
                following.weekday_index() < 5,
            decreases b.serial() - following.serial(),
        {
            let ghost held: CalendarDate = following;
            proof {
                lemma_serial_order(held, b);
                lemma_serial_within_year(b);
                lemma_weekday_after(held.serial(), b.serial());
            }
            following = next_weekday(following);
            proof {
                lemma_serial_order(held, following);
                lemma_serial_order(following, b);
            }
        }
        proof {
            lemma_serial_order(following, b);
            if following.serial() < b.serial() {
                assert(!self.business_day(following));
            }
        }
        following
    }

    /// The last business day before `t`.
    pub fn substract_business_day(&self, t: CalendarDate) -> (r: CalendarDate)
        requires
            self.can_step_back(t),
        ensures
            r == self.previous_business_day(t),
            self.is_previous_business_day(t, r),
    {
        let ghost b: CalendarDate = self.previous_business_day(t);
        proof {
            lemma_serial_within_year(b);
            lemma_weekday_before(t.serial(), b.serial());
        }
        let mut preceding: CalendarDate = previous_weekday(t);
        proof {
            lemma_serial_order(preceding, t);
            lemma_serial_order(b, preceding);
        }
        while self.is_holiday(preceding)
            invariant
                b.wf(),
                !self.holiday(b),
                b.weekday_index() < 5,
                self.rules_defined_between(b.year as int, t.year as int),
                preceding.wf(),
                b.serial() <= preceding.serial() < t.serial(),
                b.year <= preceding.year <= t.year,
                preceding.weekday_index() < 5,
            decreases preceding.serial() - b.serial(),
        {
            let ghost held: CalendarDate = preceding;
            proof {
                lemma_serial_order(b, held);
                lemma_serial_within_year(b);
                lemma_weekday_before(held.serial(), b.serial());
            }
            preceding = previous_weekday(preceding);
            proof {
                lemma_serial_order(preceding, held);
                lemma_serial_order(b, preceding);
            }
        }
        proof {
            lemma_serial_order(b, preceding);
            if b.serial() < preceding.serial() {
                assert(!self.business_day(preceding));
            }
        }
        preceding
    }

    /// The date `business_days` business days after `t`.
    pub fn add_business_days(&self, t: CalendarDate, business_days: u32) -> (r: CalendarDate)
        requires
            t.wf(),
            forall|k: nat|
                k < business_days ==> self.can_step_forward(
                    #[trigger] self.business_days_after(t, k),
                ),
        ensures
            r.wf(),
            r == self.business_days_after(t, business_days as nat),
    {
        let mut added_days: u32 = 0;
        let mut result_date: CalendarDate = t;
        while added_days < business_days
            invariant
                added_days <= business_days,
                result_date.wf(),
                result_date == self.business_days_after(t, added_days as nat),
                forall|k: nat|
                    k < business_days ==> self.can_step_forward(
                        #[trigger] self.business_days_after(t, k),
                    ),
            decreases business_days - added_days,
        {
            result_date = self.add_business_day(result_date);
            added_days += 1;
        }
        result_date
    }

    /// The date `business_days` business days before `t`.
    pub fn substract_business_days(&self, t: CalendarDate, business_days: u32) -> (r:
        CalendarDate)
        requires
            t.wf(),
            forall|k: nat|
                k < business_days ==> self.can_step_back(
                    #[trigger] self.business_days_before(t, k),
                ),
        ensures
            r.wf(),
            r == self.business_days_before(t, business_days as nat),
    {
        let mut substracted_days: u32 = 0;
        let mut result_date: CalendarDate = t;
        while substracted_days < business_days
            invariant
                substracted_days <= business_days,
                result_date.wf(),
                result_date == self.business_days_before(t, substracted_days as nat),
                forall|k: nat|
                    k < business_days ==> self.can_step_back(
                        #[trigger] self.business_days_before(t, k),
                    ),
            decreases business_days - substracted_days,
        {
            result_date = self.substract_business_day(result_date);
            substracted_days += 1;
        }
        result_date
    }
}


impl Calendar {
    /// Whether `n` steps forward from `t` each find a next business day.
    pub open spec fn steps_forward_exist(&self, t: CalendarDate, n: nat) -> bool {
        forall|k: nat|
            k < n ==> self.is_next_business_day(
                #[trigger] self.business_days_after(t, k),
                self.next_business_day(self.business_days_after(t, k)),
            )
    }

    /// From the business day that follows a business day, one step back
    /// returns to it.
    pub proof fn lemma_step_back_over_step(&self, x: CalendarDate)
        requires
            x.wf(),
            self.business_day(x),
            self.is_next_business_day(x, self.next_business_day(x)),
        ensures
            self.previous_business_day(self.next_business_day(x)) == x,
    {
        let y: CalendarDate = self.next_business_day(x);
        assert(self.is_previous_business_day(y, x));
        self.lemma_previous_business_day_unique(y, x);
    }

    /// Stepping forward `n` times is one step followed by `n - 1` steps.
    pub proof fn lemma_after_first_step(&self, t: CalendarDate, n: nat)
        requires
            n >= 1,
        ensures
            self.business_days_after(t, n) == self.business_days_after(
                self.next_business_day(t),
                (n - 1) as nat,
            ),
        decreases n,
    {
        if n > 1 {
            self.lemma_after_first_step(t, (n - 1) as nat);
        } else {
            assert(self.business_days_after(t, 0) == t);
        }
    }

    /// Stepping back `n` times is one step followed by `n - 1` steps.
    pub proof fn lemma_before_first_step(&self, t: CalendarDate, n: nat)
        requires
            n >= 1,
        ensures
            self.business_days_before(t, n) == self.business_days_before(
                self.previous_business_day(t),
                (n - 1) as nat,
            ),
        decreases n,
    {
        if n > 1 {
            self.lemma_before_first_step(t, (n - 1) as nat);
        } else {
            assert(self.business_days_before(t, 0) == t);
        }
    }

    /// From a business day, `n` business days forward and then `n` back
    /// return to it.
    pub proof fn lemma_round_trip_from_business_day(&self, b: CalendarDate, n: nat)
        requires
            b.wf(),
            self.business_day(b),
            self.steps_forward_exist(b, n),
        ensures
            self.business_days_before(self.business_days_after(b, n), n) == b,
            self.business_days_after(b, n).wf(),
            self.business_day(self.business_days_after(b, n)),
        decreases n,
    {
        if n > 0 {
            let m: nat = (n - 1) as nat;
            assert(self.steps_forward_exist(b, m));
            self.lemma_round_trip_from_business_day(b, m);
            let y: CalendarDate = self.business_days_after(b, m);
            let z: CalendarDate = self.business_days_after(b, n);
            assert(self.is_next_business_day(y, self.next_business_day(y)));
            self.lemma_step_back_over_step(y);
            self.lemma_before_first_step(z, n);
        }
    }

    /// `n` business days forward from any date and then `n` back return
    /// to the last business day on or before the date: to the date itself
    /// exactly when it is a business day.
    pub proof fn lemma_add_then_subtract(&self, date: CalendarDate, n: nat)
        requires
            n >= 1,
            date.wf(),
            self.steps_forward_exist(date, n),
            !self.business_day(date) ==> self.is_previous_business_day(
                date,
                self.previous_business_day(date),
            ),
        ensures
            self.business_days_before(self.business_days_after(date, n), n) == self.preceding(date),
            self.business_day(self.preceding(date)),
            self.preceding(date).serial() <= date.serial(),
            self.business_day(date) <==> self.preceding(date) == date,
    {
        let first: CalendarDate = self.next_business_day(date);
        let m: nat = (n - 1) as nat;
        assert(self.business_days_after(date, 0) == date);
        assert(self.is_next_business_day(date, first));
        assert forall|k: nat| k < m implies self.is_next_business_day(
            #[trigger] self.business_days_after(first, k),
            self.next_business_day(self.business_days_after(first, k)),
        ) by {
            self.lemma_after_first_step(date, k + 1);
            assert(self.is_next_business_day(
                self.business_days_after(date, k + 1),
                self.next_business_day(self.business_days_after(date, k + 1)),
            ));
        }
        self.lemma_after_first_step(date, n);
        self.lemma_round_trip_from_business_day(first, m);
        let far: CalendarDate = self.business_days_after(date, n);
        assert(self.business_days_before(far, m) == first);
        assert(self.business_days_before(far, n) == self.previous_business_day(first));
        if self.business_day(date) {
            self.lemma_step_back_over_step(date);
        } else {
            let back: CalendarDate = self.previous_business_day(date);
            assert(self.is_previous_business_day(first, back)) by {
                assert forall|d: CalendarDate|
                    d.wf() && back.serial() < d.serial() < first.serial() implies !#[trigger] self.business_day(
                    d,
                ) by {
                    lemma_serial_order(d, date);
                }
            }
            self.lemma_previous_business_day_unique(first, back);
        }
    }

    /// Where the month of `date` holds a business day, the modified
    /// following date lies in that month; and where the following date
    /// leaves the month, the modified following date is the preceding one.
    pub proof fn lemma_modified_following_keeps_month(
        &self,
        date: CalendarDate,
        open: CalendarDate,
    )
        requires
            date.wf(),
            open.wf(),
            self.business_day(open),
            open.same_month(date),
            !self.business_day(date) ==> self.is_next_business_day(
                date,
                self.next_business_day(date),
            ) && self.is_previous_business_day(date, self.previous_business_day(date)),
        ensures
            self.modified_following(date).same_month(date),
            !self.following(date).same_month(date) ==> self.modified_following(date)
                == self.preceding(date),
            self.following(date).same_month(date) ==> self.modified_following(date)
                == self.following(date),
            self.business_day(self.modified_following(date)),
    {
        if !self.business_day(date) {
            let f: CalendarDate = self.next_business_day(date);
            let p: CalendarDate = self.previous_business_day(date);
            lemma_serial_order(date, f);
            lemma_serial_order(f, open);
            lemma_serial_order(date, open);
            lemma_serial_order(p, date);
            lemma_serial_order(open, p);
            if date.serial() < open.serial() {
                if open.serial() < f.serial() {
                    assert(!self.business_day(open));
                }
            } else {
                if p.serial() < open.serial() {
                    assert(!self.business_day(open));
                }
            }
        }
    }

    /// Where the month of `date` holds a business day, the modified
    /// preceding date lies in that month; and where the preceding date
    /// leaves the month, the modified preceding date is the following one.
    pub proof fn lemma_modified_preceding_keeps_month(
        &self,
        date: CalendarDate,
        open: CalendarDate,
    )
        requires
            date.wf(),
            open.wf(),
            self.business_day(open),
            open.same_month(date),
            !self.business_day(date) ==> self.is_next_business_day(
                date,
                self.next_business_day(date),
            ) && self.is_previous_business_day(date, self.previous_business_day(date)),
        ensures
            self.modified_preceding(date).same_month(date),
            !self.preceding(date).same_month(date) ==> self.modified_preceding(date)
                == self.following(date),
            self.preceding(date).same_month(date) ==> self.modified_preceding(date)
                == self.preceding(date),
            self.business_day(self.modified_preceding(date)),
    {
        if !self.business_day(date) {
            let f: CalendarDate = self.next_business_day(date);
            let p: CalendarDate = self.previous_business_day(date);
            lemma_serial_order(date, f);
            lemma_serial_order(f, open);
            lemma_serial_order(date, open);
            lemma_serial_order(p, date);
            lemma_serial_order(open, p);
            if date.serial() < open.serial() {
                if open.serial() < f.serial() {
                    assert(!self.business_day(open));
                }
            } else {
                if p.serial() < open.serial() {
                    assert(!self.business_day(open));
                }
            }
        }
    }
}

} // verus!
