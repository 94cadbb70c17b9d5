//! Tenors: a count of days, business days, weeks, months or years, read
//! from a text such as "3M", and added to a date.

use crate::aux_funcs::get_eom;
use crate::calendars::Calendar;
use crate::date::{
    date_at, lemma_date_at, lemma_date_at_exists, lemma_serial_within_year, max_serial,
    CalendarDate, MAX_YEAR,
};
use crate::date_adjusting::DateAdjustingMethod;
use vstd::prelude::*;

verus! {

/// The text that `str::trim` returns for a text.
pub uninterp spec fn trimmed(text: Seq<char>) -> Seq<char>;

/// The text that `str::to_uppercase` returns for a text.
pub uninterp spec fn uppercased(text: Seq<char>) -> Seq<char>;

/// `str::trim`: the text without the white space at its two ends, as
/// Unicode defines white space.
#[verifier::external_body]
fn std_trim<'a>(text: &'a str) -> (r: &'a str)
    ensures
        r@ == trimmed(text@),
{
    text.trim()
}

/// `str::to_uppercase`: the text with each letter replaced by its upper
/// case form, as Unicode defines it.
#[verifier::external_body]
fn std_to_uppercase(text: &str) -> (r: String)
    ensures
        r@ == uppercased(text@),
{
    text.to_uppercase()
}

/// The unit that a tenor counts in.
#[derive(Clone, Copy, Debug, PartialEq, Eq, Structural)]
pub enum TenorUnit {
    Day,
    BusinessDay,
    Week,
    Month,
    Year,
}

/// A count of days, business days, weeks, months or years.
#[derive(Clone, Copy, Debug, PartialEq, Eq, Structural)]
pub struct Tenor {
    pub value: u8,
    pub unit: TenorUnit,
}

/// Whether `c` is one of the digits 0 to 9.
pub open spec fn is_digit(c: char) -> bool {
    48 <= c as u32 <= 57
}

/// The number that a text of digits writes in base ten.
pub open spec fn decimal_value(digits: Seq<char>) -> nat
    decreases digits.len(),
{
    if digits.len() == 0 {
        0
    } else {
        (decimal_value(digits.drop_last()) * 10 + (digits.last() as u32 - 48)) as nat
    }
}

/// The unit that a letter stands for.
pub open spec fn unit_of(c: char) -> Option<TenorUnit> {
    if c == 'D' {
        Some(TenorUnit::Day)
    } else if c == 'B' {
        Some(TenorUnit::BusinessDay)
    } else if c == 'W' {
        Some(TenorUnit::Week)
    } else if c == 'M' {
        Some(TenorUnit::Month)
    } else if c == 'Y' {
        Some(TenorUnit::Year)
    } else {
        None
    }
}

/// The tenor that a text in upper case writes. "1Y" and "1Y6M" count in
/// months, "1BD" and "2BD" in business days. Any other text is digits
/// and one unit letter, the digits writing a number from 1 to 255.
pub open spec fn tenor_of(text: Seq<char>) -> Option<Tenor> {
    if text == seq!['1', 'Y'] {
        Some(Tenor { value: 12, unit: TenorUnit::Month })
    } else if text == seq!['1', 'Y', '6', 'M'] {
        Some(Tenor { value: 18, unit: TenorUnit::Month })
    } else if text == seq!['1', 'B', 'D'] {
        Some(Tenor { value: 1, unit: TenorUnit::BusinessDay })
    } else if text == seq!['2', 'B', 'D'] {
        Some(Tenor { value: 2, unit: TenorUnit::BusinessDay })
    } else if text.len() >= 2 && unit_of(text.last()).is_some() && (forall|i: int|
        0 <= i < text.len() - 1 ==> is_digit(#[trigger] text[i])) && 1 <= decimal_value(
        text.drop_last(),
    ) <= 255 {
        Some(Tenor { value: decimal_value(text.drop_last()) as u8, unit: unit_of(text.last()).unwrap() })
    } else {
        None
    }
}

/// A longer text of digits writes a number at least as large.
proof fn lemma_decimal_grows(digits: Seq<char>, count: int)
    requires
        0 <= count <= digits.len(),
        forall|i: int| 0 <= i < digits.len() ==> is_digit(#[trigger] digits[i]),
    ensures
        decimal_value(digits.take(count)) <= decimal_value(digits),
    decreases digits.len() - count,
{
    if count < digits.len() {
        lemma_decimal_grows(digits, count + 1);
        assert(digits.take(count + 1).drop_last() =~= digits.take(count));
    } else {
        assert(digits.take(count) =~= digits);
    }
}

/// The unit that a letter stands for.
fn unit_from_letter(c: char) -> (r: Option<TenorUnit>)
    ensures
        r == unit_of(c),
{
    if c == 'D' {
        Some(TenorUnit::Day)
    } else if c == 'B' {
        Some(TenorUnit::BusinessDay)
    } else if c == 'W' {
        Some(TenorUnit::Week)
    } else if c == 'M' {
        Some(TenorUnit::Month)
    } else if c == 'Y' {
        Some(TenorUnit::Year)
    } else {
        None
    }
}

impl Tenor {
    /// Whether the count is at least 1, as the count of every tenor read
    /// from a text is.
    pub open spec fn wf(&self) -> bool {
        self.value >= 1
    }

    /// The tenor that `input` writes, in either case and with white
    /// space around it, or `None` where it writes none.
    pub fn new(input: &str) -> (r: Option<Self>)
        ensures
            r == tenor_of(uppercased(trimmed(input@))),
            r.is_some() ==> r.unwrap().wf(),
    {
        let upper: String = std_to_uppercase(std_trim(input));
        Tenor::parse(upper.as_str())
    }

    /// The tenor that `text`, in upper case, writes, or `None` where it
    /// writes none.
    pub fn parse(text: &str) -> (r: Option<Self>)
        ensures
            r == tenor_of(text@),
            r.is_some() ==> r.unwrap().wf(),
    {
        let n: usize = text.unicode_len();
        if n < 2 {
            return None;
        }
        let first: char = text.get_char(0);
        let second: char = text.get_char(1);
        if n == 2 && first == '1' && second == 'Y' {
            assert(text@ =~= seq!['1', 'Y']);
            return Some(Tenor { value: 12, unit: TenorUnit::Month });
        }
        if n == 4 && first == '1' && second == 'Y' && text.get_char(2) == '6' && text.get_char(3)
            == 'M' {
            assert(text@ =~= seq!['1', 'Y', '6', 'M']);
            return Some(Tenor { value: 18, unit: TenorUnit::Month });
        }
        if n == 3 && second == 'B' && text.get_char(2) == 'D' {
            if first == '1' {
                assert(text@ =~= seq!['1', 'B', 'D']);
                return Some(Tenor { value: 1, unit: TenorUnit::BusinessDay });
            }
            if first == '2' {
                assert(text@ =~= seq!['2', 'B', 'D']);
                return Some(Tenor { value: 2, unit: TenorUnit::BusinessDay });
            }
        }
        assert(text@ != seq!['1', 'Y']) by {
            if text@ == seq!['1', 'Y'] {
                assert(seq!['1', 'Y'].len() == 2);
                assert(text@[0] == '1' && text@[1] == 'Y');
            }
        }
        assert(text@ != seq!['1', 'Y', '6', 'M']) by {
            if text@ == seq!['1', 'Y', '6', 'M'] {
                assert(seq!['1', 'Y', '6', 'M'].len() == 4);
                assert(text@[0] == '1' && text@[1] == 'Y' && text@[2] == '6' && text@[3] == 'M');
            }
        }
        assert(text@ != seq!['1', 'B', 'D']) by {
            if text@ == seq!['1', 'B', 'D'] {
                assert(seq!['1', 'B', 'D'].len() == 3);
                assert(text@[0] == '1' && text@[1] == 'B' && text@[2] == 'D');
            }
        }
        assert(text@ != seq!['2', 'B', 'D']) by {
            if text@ == seq!['2', 'B', 'D'] {
                assert(seq!['2', 'B', 'D'].len() == 3);
                assert(text@[0] == '2' && text@[1] == 'B' && text@[2] == 'D');
            }
        }
        let unit: TenorUnit = match unit_from_letter(text.get_char(n - 1)) {
            Some(u) => u,
            None => {
                return None;
            },
        };
        let ghost digits: Seq<char> = text@.drop_last();
        let mut value: u32 = 0;
        let mut i: usize = 0;
        while i < n - 1
            invariant
                0 <= i <= n - 1,
                n == text@.len(),
                digits == text@.drop_last(),
                text@ != seq!['1', 'Y'],
                text@ != seq!['1', 'Y', '6', 'M'],
                text@ != seq!['1', 'B', 'D'],
                text@ != seq!['2', 'B', 'D'],
                forall|k: int| 0 <= k < i ==> is_digit(#[trigger] text@[k]),
                value == decimal_value(digits.take(i as int)),
                value <= 255,
            decreases n - 1 - i,
        {
            let c: char = text.get_char(i);
            if c < '0' || c > '9' {
                assert(!is_digit(text@[i as int]));
                return None;
            }
            let digit: u32 = c as u32 - 48;
            assert(digits.take(i + 1).drop_last() =~= digits.take(i as int));
            assert(digits.take(i + 1).last() == c);
            value = value * 10 + digit;
            if value > 255 {
                // The digits still to come cannot make the number smaller;
                // a letter among them makes the text no tenor either way.
                proof {
                    assert(value == decimal_value(digits.take(i + 1)));
                    if forall|k: int| 0 <= k < text@.len() - 1 ==> is_digit(#[trigger] text@[k]) {
                        assert forall|k: int| 0 <= k < digits.len() implies is_digit(
                            #[trigger] digits[k],
                        ) by {
                            assert(digits[k] == text@[k]);
                        }
                        lemma_decimal_grows(digits, i + 1);
                    }
                }
                return None;
            }
            i += 1;
        }
        assert(digits.take(i as int) =~= digits);
        if value == 0 {
            return None;
        }
        Some(Tenor { value: value as u8, unit })
    }
}


/// The date in the month of `date` with the day of the month `day`, or
/// the last day of that month where it has no such day.
pub open spec fn with_day_or_last(date: CalendarDate, day: int) -> CalendarDate {
    if day <= date.end_of_month().day {
        CalendarDate { year: date.year, month: date.month, day: day as u32 }
    } else {
        date.end_of_month()
    }
}

/// The calendar of an adjusting method, where there is one.
pub open spec fn calendar_of(adjusting_method: Option<&DateAdjustingMethod>) -> Calendar {
    adjusting_method.unwrap().calendar()
}

impl Tenor {
    /// The date that the tenor's count leads to from `date`, before any
    /// handling of month ends and before any adjustment.
    pub open spec fn shifted(
        &self,
        date: CalendarDate,
        adjusting_method: Option<&DateAdjustingMethod>,
    ) -> CalendarDate {
        match self.unit {
            TenorUnit::Day => date_at(date.serial() + self.value),
            TenorUnit::Week => date_at(date.serial() + 7 * self.value),
            TenorUnit::Month => date.months_added(self.value as int),
            TenorUnit::Year => date.months_added(12 * self.value),
            TenorUnit::BusinessDay => calendar_of(adjusting_method).business_days_after(
                date,
                self.value as nat,
            ),
        }
    }

    /// What the handling of month ends makes of `future`, reached from
    /// `date`. Without a flag: nothing. With the flag set and `date` the
    /// last day of its month: the last day of the month of `future`.
    /// Else, where `date` is a 28th or a 31st: that day in the month of
    /// `future`, or its last day where it has no 31st.
    pub open spec fn rolled(
        date: CalendarDate,
        future: CalendarDate,
        end_of_month_roll: Option<bool>,
    ) -> CalendarDate {
        match end_of_month_roll {
            None => future,
            Some(roll) => if roll && date.is_end_of_month() {
                future.end_of_month()
            } else if date.day == 28 {
                with_day_or_last(future, 28)
            } else if date.day == 31 {
                with_day_or_last(future, 31)
            } else {
                future
            },
        }
    }

    /// The date that the tenor leads to from `date`: the count, then the
    /// handling of month ends, then the adjustment where there is one.
    pub open spec fn added_to(
        &self,
        date: CalendarDate,
        adjusting_method: Option<&DateAdjustingMethod>,
        end_of_month_roll: Option<bool>,
    ) -> CalendarDate {
        let future: CalendarDate = Self::rolled(
            date,
            self.shifted(date, adjusting_method),
            end_of_month_roll,
        );
        match adjusting_method {
            Some(adjuster) => adjuster.adjusted(future),
            None => future,
        }
    }

    /// Whether the count of the tenor stays within the supported dates
    /// from `date`. A count of business days needs the calendar of an
    /// adjusting method.
    pub open spec fn can_shift(
        &self,
        date: CalendarDate,
        adjusting_method: Option<&DateAdjustingMethod>,
    ) -> bool {
        match self.unit {
            TenorUnit::Day => date.serial() + self.value <= max_serial(),
            TenorUnit::Week => date.serial() + 7 * self.value <= max_serial(),
            TenorUnit::Month => date.year * 12 + (date.month - 1) + self.value <= MAX_YEAR * 12
                + 11,
            TenorUnit::Year => date.year * 12 + (date.month - 1) + 12 * self.value <= MAX_YEAR
                * 12 + 11,
            TenorUnit::BusinessDay => adjusting_method.is_some() && forall|k: nat|
                k < self.value ==> calendar_of(adjusting_method).can_step_forward(
                    #[trigger] calendar_of(adjusting_method).business_days_after(date, k),
                ),
        }
    }

    /// Whether the tenor can be added to `date` within the supported
    /// dates.
    pub open spec fn can_add_to(
        &self,
        date: CalendarDate,
        adjusting_method: Option<&DateAdjustingMethod>,
        end_of_month_roll: Option<bool>,
    ) -> bool {
        &&& date.wf()
        &&& self.can_shift(date, adjusting_method)
        &&& end_of_month_roll == Some(true) ==> date.has_following_month() && (
        date.is_end_of_month() ==> self.shifted(date, adjusting_method).has_following_month())
        &&& adjusting_method.is_some() ==> adjusting_method.unwrap().wf()
            && adjusting_method.unwrap().can_adjust(
            Self::rolled(date, self.shifted(date, adjusting_method), end_of_month_roll),
        )
    }

    /// The date that the tenor leads to from `date`.
    pub fn add_to_date(
        &self,
        date: CalendarDate,
        adjusting_method: Option<&DateAdjustingMethod>,
        end_of_month_roll: Option<bool>,
    ) -> (r: CalendarDate)
        requires
            self.can_add_to(date, adjusting_method, end_of_month_roll),
        ensures
            r == self.added_to(date, adjusting_method, end_of_month_roll),
            r.wf(),
            adjusting_method.is_none() && end_of_month_roll.is_none() && self.unit
                == TenorUnit::Day ==> r.serial() == date.serial() + self.value,
            adjusting_method.is_none() && end_of_month_roll.is_none() && self.unit
                == TenorUnit::Week ==> r.serial() == date.serial() + 7 * self.value,
    {
        let mut future_date: CalendarDate = match self.unit {
            TenorUnit::BusinessDay => self.add_business_days(date, adjusting_method.unwrap()),
            TenorUnit::Day => self.add_days(date, self.value as i64),
            TenorUnit::Week => self.add_days(date, 7 * (self.value as i64)),
            TenorUnit::Month => self.add_months(date, self.value as u32),
            TenorUnit::Year => self.add_months(date, 12 * (self.value as u32)),
        };
        assert(future_date == self.shifted(date, adjusting_method));
        match end_of_month_roll {
            Some(eom_roll) => {
                let mut forced: bool = false;
                if eom_roll {
                    let date_eom: CalendarDate = get_eom(date);
                    if date == date_eom {
                        future_date = get_eom(future_date);
                        forced = true;
                    }
                }
                if !forced {
                    if date.day == 28 {
                        future_date = day_or_last(future_date, 28);
                    } else if date.day == 31 {
                        future_date = day_or_last(future_date, 31);
                    }
                }
            },
            None => {},
        }
        match adjusting_method {
            Some(adjuster) => adjuster.adjust(future_date),
            None => future_date,
        }
    }

    fn add_business_days(&self, date: CalendarDate, adjuster: &DateAdjustingMethod) -> (r:
        CalendarDate)
        requires
            date.wf(),
            forall|k: nat|
                k < self.value ==> adjuster.calendar().can_step_forward(
                    #[trigger] adjuster.calendar().business_days_after(date, k),
                ),
        ensures
            r.wf(),
            r == adjuster.calendar().business_days_after(date, self.value as nat),
    {
        adjuster.get_calendar().add_business_days(date, self.value as u32)
    }

    fn add_days(&self, date: CalendarDate, amount: i64) -> (r: CalendarDate)
        requires
            date.wf(),
            0 <= amount,
            date.serial() + amount <= max_serial(),
        ensures
            r.wf(),
            r.serial() == date.serial() + amount,
            r == date_at(date.serial() + amount),
    {
        proof {
            lemma_serial_within_year(date);
        }
        let r: CalendarDate = date.add_days(amount);
        proof {
            lemma_date_at(r);
        }
        r
    }

    fn add_months(&self, date: CalendarDate, amount: u32) -> (r: CalendarDate)
        requires
            date.wf(),
            date.year * 12 + (date.month - 1) + amount <= MAX_YEAR * 12 + 11,
        ensures
            r.wf(),
            r == date.months_added(amount as int),
    {
        date.add_months(amount)
    }
}

/// The date in the month of `date` with the day of the month `day`, or
/// the nearest earlier day that the month has.
fn day_or_last(date: CalendarDate, day: u32) -> (r: CalendarDate)
    requires
        date.wf(),
        28 <= day <= 31,
    ensures
        r == with_day_or_last(date, day as int),
        r.wf(),
{
    let mut d: u32 = day;
    loop
        invariant
            date.wf(),
            28 <= d <= day <= 31,
            d == day || d >= date.end_of_month().day,
        decreases d,
    {
        match CalendarDate::from_ymd_opt(date.year, date.month, d) {
            Some(found) => {
                return found;
            },
            None => {
                d = d - 1;
            },
        }
    }
}

/// Three weeks added to a date, with no adjustment and no handling of
/// month ends, lead to the date 21 days later.
pub proof fn lemma_three_weeks_are_21_days(date: CalendarDate)
    requires
        date.wf(),
        date.serial() + 21 <= max_serial(),
    ensures
        (Tenor { value: 3, unit: TenorUnit::Week }).can_add_to(date, None, None),
        (Tenor { value: 3, unit: TenorUnit::Week }).added_to(date, None, None).wf(),
        (Tenor { value: 3, unit: TenorUnit::Week }).added_to(date, None, None).serial()
            == date.serial() + 21,
{
    lemma_serial_within_year(date);
    lemma_date_at_exists(date.serial() + 21);
}

/// The text "3W" writes the tenor of three weeks.
pub proof fn lemma_three_weeks()
    ensures
        tenor_of(seq!['3', 'W']) == Some(Tenor { value: 3, unit: TenorUnit::Week }),
{
    let text: Seq<char> = seq!['3', 'W'];
    assert(text.len() == 2);
    assert(text[0] == '3' && text[1] == 'W');
    assert(text.last() == 'W');
    let digits: Seq<char> = text.drop_last();
    assert(digits.len() == 1 && digits[0] == '3');
    assert(digits.drop_last().len() == 0);
    reveal_with_fuel(decimal_value, 3);
    assert(decimal_value(digits) == 3);
    assert(text != seq!['1', 'Y']) by {
        assert(seq!['1', 'Y'][0] == '1');
    }
    assert(text != seq!['1', 'Y', '6', 'M']) by {
        assert(seq!['1', 'Y', '6', 'M'].len() == 4);
    }
    assert(text != seq!['1', 'B', 'D']) by {
        assert(seq!['1', 'B', 'D'].len() == 3);
    }
    assert(text != seq!['2', 'B', 'D']) by {
        assert(seq!['2', 'B', 'D'].len() == 3);
    }
}

} // verus!
