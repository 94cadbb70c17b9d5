//! Business-day conventions: how a date that is no business day moves
//! onto one.

use crate::calendars::Calendar;
use crate::date::CalendarDate;
use vstd::prelude::*;

verus! {

/// Moves a date that is no business day forward to the next one.
pub struct Following<'a> {
    calendar: &'a Calendar,
}

impl<'a> Following<'a> {
    /// The calendar that tells the business days.
    pub closed spec fn calendar(&self) -> Calendar {
        *self.calendar
    }

    /// The method over `calendar`.
    pub fn new(calendar: &'a Calendar) -> (r: Self)
        ensures
            r.calendar() == *calendar,
    {
        Following { calendar }
    }

    /// The calendar that tells the business days.
    pub fn get_calendar(&self) -> (r: &'a Calendar)
        ensures
            *r == self.calendar(),
    {
        self.calendar
    }

    /// Whether `date` can be adjusted within the supported dates.
    pub open spec fn can_adjust(&self, date: CalendarDate) -> bool {
        &&& date.wf()
        &&& self.calendar().rules_defined_at(date.year as int)
        &&& !self.calendar().business_day(date) ==> self.calendar().can_step_forward(date)
    }

    /// `date` if it is a business day, else the first business day after
    /// it.
    pub fn adjust(&self, date: CalendarDate) -> (r: CalendarDate)
        requires
            self.can_adjust(date),
        ensures
            r == self.calendar().following(date),
            r.wf(),
            self.calendar().business_day(r),
            date.serial() <= r.serial(),
    {
        if self.calendar.is_business_day(date) {
            date
        } else {
            self.calendar.add_business_day(date)
        }
    }
}

/// Moves a date that is no business day back to the one before.
pub struct Preceding<'a> {
    calendar: &'a Calendar,
}

impl<'a> Preceding<'a> {
    /// The calendar that tells the business days.
    pub closed spec fn calendar(&self) -> Calendar {
        *self.calendar
    }

    /// The method over `calendar`.
    pub fn new(calendar: &'a Calendar) -> (r: Self)
        ensures
            r.calendar() == *calendar,
    {
        Preceding { calendar }
    }

    /// The calendar that tells the business days.
    pub fn get_calendar(&self) -> (r: &'a Calendar)
        ensures
            *r == self.calendar(),
    {
        self.calendar
    }

    /// Whether `date` can be adjusted within the supported dates.
    pub open spec fn can_adjust(&self, date: CalendarDate) -> bool {
        &&& date.wf()
        &&& self.calendar().rules_defined_at(date.year as int)
        &&& !self.calendar().business_day(date) ==> self.calendar().can_step_back(date)
    }

    /// `date` if it is a business day, else the last business day before
    /// it.
    pub fn adjust(&self, date: CalendarDate) -> (r: CalendarDate)
        requires
            self.can_adjust(date),
        ensures
            r == self.calendar().preceding(date),
            r.wf(),
            self.calendar().business_day(r),
            r.serial() <= date.serial(),
    {
        if self.calendar.is_business_day(date) {
            date
        } else {
            self.calendar.substract_business_day(date)
        }
    }
}

/// Moves a date forward to a business day, unless that leaves the month:
/// then back.
pub struct ModifiedFollowing<'a> {
    f_adj: Following<'a>,
    p_adj: Preceding<'a>,
}

impl<'a> ModifiedFollowing<'a> {
    /// The calendar that tells the business days.
    pub closed spec fn calendar(&self) -> Calendar {
        self.f_adj.calendar()
    }

    /// Whether both directions look at the same calendar.
    pub closed spec fn wf(&self) -> bool {
        self.p_adj.calendar() == self.f_adj.calendar()
    }

    /// The method over `calendar`.
    pub fn new(calendar: &'a Calendar) -> (r: Self)
        ensures
            r.wf(),
            r.calendar() == *calendar,
    {
        let f_adj: Following<'a> = Following::new(calendar);
        let p_adj: Preceding<'a> = Preceding::new(calendar);
        ModifiedFollowing { f_adj, p_adj }
    }

    /// The calendar that tells the business days.
    pub fn get_calendar(&self) -> (r: &'a Calendar)
        ensures
            *r == self.calendar(),
    {
        self.f_adj.get_calendar()
    }

    /// Whether `date` can be adjusted within the supported dates.
    pub open spec fn can_adjust(&self, date: CalendarDate) -> bool {
        &&& date.wf()
        &&& self.calendar().rules_defined_at(date.year as int)
        &&& !self.calendar().business_day(date) ==> {
            &&& self.calendar().can_step_forward(date)
            &&& !self.calendar().next_business_day(date).same_month(date)
                ==> self.calendar().can_step_back(date)
        }
    }

    /// The first business day on or after `date` or, where that lies in a
    /// later month, the last business day on or before `date`.
    pub fn adjust(&self, date: CalendarDate) -> (r: CalendarDate)
        requires
            self.wf(),
            self.can_adjust(date),
        ensures
            r == self.calendar().modified_following(date),
            r.wf(),
            self.calendar().business_day(r),
    {
        let adjusted_date: CalendarDate = self.f_adj.adjust(date);
        if adjusted_date.year != date.year || adjusted_date.month != date.month {
            return self.p_adj.adjust(date);
        }
        adjusted_date
    }
}

/// Moves a date back to a business day, unless that leaves the month:
/// then forward.
pub struct ModifiedPreceding<'a> {
    f_adj: Following<'a>,
    p_adj: Preceding<'a>,
}

impl<'a> ModifiedPreceding<'a> {
    /// The calendar that tells the business days.
    pub closed spec fn calendar(&self) -> Calendar {
        self.f_adj.calendar()
    }

    /// Whether both directions look at the same calendar.
    pub closed spec fn wf(&self) -> bool {
        self.p_adj.calendar() == self.f_adj.calendar()
    }

    /// The method over `calendar`.
    pub fn new(calendar: &'a Calendar) -> (r: Self)
        ensures
            r.wf(),
            r.calendar() == *calendar,
    {
        let f_adj: Following<'a> = Following::new(calendar);
        let p_adj: Preceding<'a> = Preceding::new(calendar);
        ModifiedPreceding { f_adj, p_adj }
    }

    /// The calendar that tells the business days.
    pub fn get_calendar(&self) -> (r: &'a Calendar)
        ensures
            *r == self.calendar(),
    {
        self.f_adj.get_calendar()
    }

    /// Whether `date` can be adjusted within the supported dates.
    pub open spec fn can_adjust(&self, date: CalendarDate) -> bool {
        &&& date.wf()
        &&& self.calendar().rules_defined_at(date.year as int)
        &&& !self.calendar().business_day(date) ==> {
            &&& self.calendar().can_step_back(date)
            &&& !self.calendar().previous_business_day(date).same_month(date)
                ==> self.calendar().can_step_forward(date)
        }
    }

    /// The last business day on or before `date` or, where that lies in
    /// an earlier month, the first business day on or after `date`.
    pub fn adjust(&self, date: CalendarDate) -> (r: CalendarDate)
        requires
            self.wf(),
            self.can_adjust(date),
        ensures
            r == self.calendar().modified_preceding(date),
            r.wf(),
            self.calendar().business_day(r),
    {
        let adjusted_date: CalendarDate = self.p_adj.adjust(date);
        if adjusted_date.year != date.year || adjusted_date.month != date.month {
            return self.f_adj.adjust(date);
        }
        adjusted_date
    }
}

/// A business-day convention, with the calendar it looks at.
pub enum DateAdjustingMethod<'a> {
    Following(Following<'a>),
    Preceding(Preceding<'a>),
    ModifiedFollowing(ModifiedFollowing<'a>),
    ModifiedPreceding(ModifiedPreceding<'a>),
}

impl<'a> DateAdjustingMethod<'a> {
    /// The calendar that tells the business days.
    pub open spec fn calendar(&self) -> Calendar {
        match self {
            DateAdjustingMethod::Following(m) => m.calendar(),
            DateAdjustingMethod::Preceding(m) => m.calendar(),
            DateAdjustingMethod::ModifiedFollowing(m) => m.calendar(),
            DateAdjustingMethod::ModifiedPreceding(m) => m.calendar(),
        }
    }

    /// Whether the method is put together as its constructor does it.
    pub open spec fn wf(&self) -> bool {
        match self {
            DateAdjustingMethod::Following(_) => true,
            DateAdjustingMethod::Preceding(_) => true,
            DateAdjustingMethod::ModifiedFollowing(m) => m.wf(),
            DateAdjustingMethod::ModifiedPreceding(m) => m.wf(),
        }
    }

    /// Whether `date` can be adjusted within the supported dates.
    pub open spec fn can_adjust(&self, date: CalendarDate) -> bool {
        match self {
            DateAdjustingMethod::Following(m) => m.can_adjust(date),
            DateAdjustingMethod::Preceding(m) => m.can_adjust(date),
            DateAdjustingMethod::ModifiedFollowing(m) => m.can_adjust(date),
            DateAdjustingMethod::ModifiedPreceding(m) => m.can_adjust(date),
        }
    }

    /// The business day that the method moves `date` to.
    pub open spec fn adjusted(&self, date: CalendarDate) -> CalendarDate {
        match self {
            DateAdjustingMethod::Following(m) => m.calendar().following(date),
            DateAdjustingMethod::Preceding(m) => m.calendar().preceding(date),
            DateAdjustingMethod::ModifiedFollowing(m) => m.calendar().modified_following(date),
            DateAdjustingMethod::ModifiedPreceding(m) => m.calendar().modified_preceding(date),
        }
    }

    /// The calendar that tells the business days.
    pub fn get_calendar(&self) -> (r: &'a Calendar)
        ensures
            *r == self.calendar(),
    {
        match self {
            DateAdjustingMethod::Following(m) => m.get_calendar(),
            DateAdjustingMethod::Preceding(m) => m.get_calendar(),
            DateAdjustingMethod::ModifiedFollowing(m) => m.get_calendar(),
            DateAdjustingMethod::ModifiedPreceding(m) => m.get_calendar(),
        }
    }

    /// The business day that the method moves `date` to.
    pub fn adjust(&self, date: CalendarDate) -> (r: CalendarDate)
        requires
            self.wf(),
            self.can_adjust(date),
        ensures
            r == self.adjusted(date),
            r.wf(),
            self.calendar().business_day(r),
    {
        match self {
            DateAdjustingMethod::Following(m) => m.adjust(date),
            DateAdjustingMethod::Preceding(m) => m.adjust(date),
            DateAdjustingMethod::ModifiedFollowing(m) => m.adjust(date),
            DateAdjustingMethod::ModifiedPreceding(m) => m.adjust(date),
        }
    }
}

} // verus!
