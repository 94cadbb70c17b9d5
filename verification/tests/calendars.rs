use fin_dates::calendars::{
    get_ny_calendar, Calendar, FridayEasterRule, HolidayRule, LastWeekWeekdayRule,
    MondayEasterRule, MonthDayRule, OrdinalWeekWeekdayRule,
};
use fin_dates::date::{CalendarDate, Month, Weekday};

fn d(year: i32, month: u32, day: u32) -> CalendarDate {
    CalendarDate::from_ymd_opt(year, month, day).unwrap()
}

#[test]
fn ordinal_rule_finds_the_nth_weekday() {
    let mlk = OrdinalWeekWeekdayRule::new(3, Weekday::Mon, Month::January);
    assert_eq!(mlk.month, 1);
    assert_eq!(mlk.ordinal, 3);
    assert_eq!(mlk.get_date(2024), d(2024, 1, 15));
    assert_eq!(mlk.get_date(2025), d(2025, 1, 20));
    assert_eq!(mlk.get_date(2023), d(2023, 1, 16));
    let thanksgiving = OrdinalWeekWeekdayRule::new(4, Weekday::Thu, Month::November);
    assert_eq!(thanksgiving.get_date(2024), d(2024, 11, 28));
    assert_eq!(thanksgiving.get_date(2023), d(2023, 11, 23));
    let labor = OrdinalWeekWeekdayRule::new(1, Weekday::Mon, Month::September);
    assert_eq!(labor.get_date(2024), d(2024, 9, 2));
    assert_eq!(labor.get_date(2025), d(2025, 9, 1));
    let first_sunday = OrdinalWeekWeekdayRule::new(1, Weekday::Sun, Month::September);
    assert_eq!(first_sunday.get_date(2024), d(2024, 9, 1));
}

#[test]
fn last_weekday_rule_walks_back_from_the_month_end() {
    let memorial = LastWeekWeekdayRule::new(Weekday::Mon, Month::May);
    assert_eq!(memorial.get_date(2024), d(2024, 5, 27));
    assert_eq!(memorial.get_date(2025), d(2025, 5, 26));
    assert_eq!(memorial.get_date(2021), d(2021, 5, 31));
    let last_friday = LastWeekWeekdayRule::new(Weekday::Fri, Month::December);
    assert_eq!(last_friday.get_date(2024), d(2024, 12, 27));
    let last_saturday = LastWeekWeekdayRule::new(Weekday::Sat, Month::February);
    assert_eq!(last_saturday.get_date(2024), d(2024, 2, 24));
}

#[test]
fn month_day_rule_is_the_same_day_each_year() {
    let july4 = MonthDayRule::new(Month::July, 4);
    assert_eq!(july4.get_date(2024), d(2024, 7, 4));
    assert_eq!(july4.get_date(1999), d(1999, 7, 4));
}

#[test]
fn easter_rules_stand_around_easter_sunday() {
    assert_eq!(FridayEasterRule.get_date(2024), d(2024, 3, 29));
    assert_eq!(MondayEasterRule.get_date(2024), d(2024, 4, 1));
    assert_eq!(FridayEasterRule.get_date(2025), d(2025, 4, 18));
    assert_eq!(MondayEasterRule.get_date(2025), d(2025, 4, 21));
    assert_eq!(FridayEasterRule.get_date(2018), d(2018, 3, 30));
    assert_eq!(MondayEasterRule.get_date(2018), d(2018, 4, 2));
    let mut year: i32 = 1900;
    while year <= 2200 {
        let sunday = fin_dates::easter::easter_sunday(year);
        assert_eq!(FridayEasterRule.get_date(year), sunday.add_days(-2));
        assert_eq!(MondayEasterRule.get_date(year), sunday.add_days(1));
        assert_eq!(FridayEasterRule.get_date(year).weekday(), Weekday::Fri);
        assert_eq!(MondayEasterRule.get_date(year).weekday(), Weekday::Mon);
        year += 1;
    }
}

#[test]
fn holiday_rule_dispatches_to_its_variant() {
    let rule = HolidayRule::MonthDay(MonthDayRule::new(Month::December, 25));
    assert_eq!(rule.get_date(2024), d(2024, 12, 25));
    let rule = HolidayRule::FridayBeforeEaster(FridayEasterRule);
    assert_eq!(rule.get_date(2024), d(2024, 3, 29));
    let rule = HolidayRule::MondayAfterEaster(MondayEasterRule);
    assert_eq!(rule.get_date(2024), d(2024, 4, 1));
    let rule = HolidayRule::LastWeekWeekday(LastWeekWeekdayRule::new(Weekday::Mon, Month::May));
    assert_eq!(rule.get_date(2024), d(2024, 5, 27));
    let rule = HolidayRule::OrdinalWeekWeekday(OrdinalWeekWeekdayRule::new(
        2,
        Weekday::Mon,
        Month::October,
    ));
    assert_eq!(rule.get_date(2024), d(2024, 10, 14));
}

#[test]
fn new_calendar_sorts_and_drops_repeats() {
    let cal = Calendar::new(
        None,
        Some(vec![d(2024, 7, 4), d(2024, 1, 1), d(2024, 7, 4), d(2023, 12, 25), d(2024, 1, 1)]),
    );
    assert_eq!(cal.holidays, vec![d(2023, 12, 25), d(2024, 1, 1), d(2024, 7, 4)]);
    assert!(cal.holiday_rules.is_empty());
    let empty = Calendar::new(None, None);
    assert!(empty.holidays.is_empty());
    assert!(empty.holiday_rules.is_empty());
}

#[test]
fn add_and_delete_holidays() {
    let mut cal = Calendar::new(None, Some(vec![d(2024, 7, 4)]));
    cal.add_holiday(d(2024, 1, 1));
    cal.add_holiday(d(2024, 12, 25));
    cal.add_holiday(d(2024, 7, 4));
    assert_eq!(cal.holidays, vec![d(2024, 1, 1), d(2024, 7, 4), d(2024, 12, 25)]);
    cal.add_holidays_from_vec(vec![d(2024, 3, 29), d(2024, 1, 1), d(2025, 1, 1)]);
    assert_eq!(
        cal.holidays,
        vec![d(2024, 1, 1), d(2024, 3, 29), d(2024, 7, 4), d(2024, 12, 25), d(2025, 1, 1)]
    );
    assert!(cal.is_holiday_from_inner_vec(d(2024, 3, 29)));
    assert!(!cal.is_holiday_from_inner_vec(d(2024, 3, 28)));
    assert!(cal.is_holiday(d(2024, 3, 29)));
    cal.delete_holidays();
    assert!(cal.holidays.is_empty());
    assert!(!cal.is_holiday(d(2024, 3, 29)));
}

#[test]
fn is_holiday_asks_the_rules_before_they_are_materialized() {
    let cal = get_ny_calendar(None, None, None);
    assert!(cal.holidays.is_empty());
    assert_eq!(cal.holiday_rules.len(), 12);
    assert!(cal.is_holiday(d(2024, 7, 4)));
    assert!(cal.is_holiday(d(2024, 3, 29)));
    assert!(cal.is_holiday(d(2025, 1, 20)));
    assert!(cal.is_holiday(d(2024, 11, 28)));
    assert!(!cal.is_holiday(d(2024, 7, 5)));
    assert!(!cal.is_holiday_from_inner_vec(d(2024, 7, 4)));
}

#[test]
fn ny_calendar_holidays_of_2024() {
    let cal = get_ny_calendar(None, Some(2024), Some(2024));
    assert_eq!(
        cal.holidays,
        vec![
            d(2024, 1, 1),
            d(2024, 1, 15),
            d(2024, 2, 19),
            d(2024, 3, 29),
            d(2024, 5, 27),
            d(2024, 6, 19),
            d(2024, 7, 4),
            d(2024, 9, 2),
            d(2024, 10, 14),
            d(2024, 11, 11),
            d(2024, 11, 28),
            d(2024, 12, 25),
        ]
    );
}

#[test]
fn ny_calendar_keeps_given_holidays() {
    let cal = get_ny_calendar(Some(vec![d(2024, 12, 24), d(2024, 7, 4)]), Some(2024), Some(2025));
    assert_eq!(cal.holidays.len(), 25);
    assert!(cal.is_holiday_from_inner_vec(d(2024, 12, 24)));
    assert!(cal.is_holiday_from_inner_vec(d(2025, 4, 18)));
    let mut i: usize = 1;
    while i < cal.holidays.len() {
        assert!(cal.holidays[i - 1] < cal.holidays[i]);
        i += 1;
    }
}

#[test]
fn materialized_holidays_agree_with_the_rules() {
    let plain = get_ny_calendar(None, None, None);
    let mut cal = get_ny_calendar(Some(vec![d(2024, 8, 8)]), None, None);
    cal.add_holidays_with_rules(2023, 2025);
    let mut day = d(2023, 1, 1);
    while day.year <= 2025 {
        assert_eq!(cal.is_holiday(day), cal.is_holiday_from_inner_vec(day));
        if plain.is_holiday(day) {
            assert!(cal.is_holiday_from_inner_vec(day));
        }
        day = day.add_days(1);
    }
    assert!(cal.is_holiday_from_inner_vec(d(2024, 8, 8)));
    assert!(!plain.is_holiday(d(2024, 8, 8)));
}

#[test]
fn add_holidays_with_rules_over_an_empty_range_adds_nothing() {
    let mut cal = get_ny_calendar(None, None, None);
    cal.add_holidays_with_rules(2025, 2024);
    assert!(cal.holidays.is_empty());
}

#[test]
fn combine_unites_holidays_and_rules() {
    let ny = get_ny_calendar(Some(vec![d(2024, 12, 24)]), None, None);
    let other = Calendar::new(
        Some(vec![HolidayRule::MondayAfterEaster(MondayEasterRule)]),
        Some(vec![d(2024, 8, 26), d(2024, 12, 24)]),
    );
    let both = ny.combine(other);
    assert_eq!(both.holidays, vec![d(2024, 8, 26), d(2024, 12, 24)]);
    assert_eq!(both.holiday_rules.len(), 13);
    assert_eq!(both.holiday_rules[12], HolidayRule::MondayAfterEaster(MondayEasterRule));
    assert_eq!(both.holiday_rules[0], HolidayRule::MonthDay(MonthDayRule::new(Month::January, 1)));
    assert!(both.is_holiday(d(2024, 4, 1)));
    assert!(both.is_holiday(d(2024, 7, 4)));
    assert!(both.is_holiday(d(2024, 8, 26)));
    assert!(!ny.is_holiday(d(2024, 4, 1)));
}
