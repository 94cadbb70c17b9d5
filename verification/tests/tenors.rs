use fin_dates::calendars::get_ny_calendar;
use fin_dates::date::CalendarDate;
use fin_dates::date_adjusting::{DateAdjustingMethod, Following, ModifiedFollowing};
use fin_dates::tenors::{Tenor, TenorUnit};

fn d(year: i32, month: u32, day: u32) -> CalendarDate {
    CalendarDate::from_ymd_opt(year, month, day).unwrap()
}

fn tenor(text: &str) -> Tenor {
    Tenor::new(text).unwrap()
}

#[test]
fn known_tenors() {
    assert_eq!(Tenor::new("1D"), Some(Tenor { value: 1, unit: TenorUnit::Day }));
    assert_eq!(Tenor::new("2BD"), Some(Tenor { value: 2, unit: TenorUnit::BusinessDay }));
    assert_eq!(Tenor::new("1BD"), Some(Tenor { value: 1, unit: TenorUnit::BusinessDay }));
    assert_eq!(Tenor::new("1W"), Some(Tenor { value: 1, unit: TenorUnit::Week }));
    assert_eq!(Tenor::new("3M"), Some(Tenor { value: 3, unit: TenorUnit::Month }));
    assert_eq!(Tenor::new("12M"), Some(Tenor { value: 12, unit: TenorUnit::Month }));
    assert_eq!(Tenor::new("1Y"), Some(Tenor { value: 12, unit: TenorUnit::Month }));
    assert_eq!(Tenor::new("18M"), Some(Tenor { value: 18, unit: TenorUnit::Month }));
    assert_eq!(Tenor::new("1Y6M"), Some(Tenor { value: 18, unit: TenorUnit::Month }));
    assert_eq!(Tenor::new("2Y"), Some(Tenor { value: 2, unit: TenorUnit::Year }));
    assert_eq!(Tenor::new("50Y"), Some(Tenor { value: 50, unit: TenorUnit::Year }));
}

#[test]
fn tenors_in_lower_case_and_with_white_space() {
    assert_eq!(Tenor::new("3m"), Some(Tenor { value: 3, unit: TenorUnit::Month }));
    assert_eq!(Tenor::new("1y"), Some(Tenor { value: 12, unit: TenorUnit::Month }));
    assert_eq!(Tenor::new("1y6m"), Some(Tenor { value: 18, unit: TenorUnit::Month }));
    assert_eq!(Tenor::new("2bd"), Some(Tenor { value: 2, unit: TenorUnit::BusinessDay }));
    assert_eq!(Tenor::new("  3M"), Some(Tenor { value: 3, unit: TenorUnit::Month }));
    assert_eq!(Tenor::new("3W \t\n"), Some(Tenor { value: 3, unit: TenorUnit::Week }));
    assert_eq!(Tenor::new(" 12m "), Some(Tenor { value: 12, unit: TenorUnit::Month }));
}

#[test]
fn parse_reads_upper_case_only() {
    assert_eq!(Tenor::parse("3M"), Some(Tenor { value: 3, unit: TenorUnit::Month }));
    assert_eq!(Tenor::parse("1Y"), Some(Tenor { value: 12, unit: TenorUnit::Month }));
    assert_eq!(Tenor::parse("3m"), None);
    assert_eq!(Tenor::parse(" 3M"), None);
    assert_eq!(Tenor::parse("3M "), None);
}

#[test]
fn tenors_outside_the_table() {
    assert_eq!(Tenor::new("7D"), Some(Tenor { value: 7, unit: TenorUnit::Day }));
    assert_eq!(Tenor::new("255W"), Some(Tenor { value: 255, unit: TenorUnit::Week }));
    assert_eq!(Tenor::new("100Y"), Some(Tenor { value: 100, unit: TenorUnit::Year }));
    assert_eq!(Tenor::new("007M"), Some(Tenor { value: 7, unit: TenorUnit::Month }));
    assert_eq!(Tenor::new("3B"), Some(Tenor { value: 3, unit: TenorUnit::BusinessDay }));
    assert_eq!(Tenor::new("10Y"), Some(Tenor { value: 10, unit: TenorUnit::Year }));
}

#[test]
fn texts_that_write_no_tenor() {
    assert_eq!(Tenor::new(""), None);
    assert_eq!(Tenor::new("   "), None);
    assert_eq!(Tenor::new("M"), None);
    assert_eq!(Tenor::new("3"), None);
    assert_eq!(Tenor::new("0D"), None);
    assert_eq!(Tenor::new("000W"), None);
    assert_eq!(Tenor::new("256D"), None);
    assert_eq!(Tenor::new("1000M"), None);
    assert_eq!(Tenor::new("99999999999999999999999Y"), None);
    assert_eq!(Tenor::new("3X"), None);
    assert_eq!(Tenor::new("-3M"), None);
    assert_eq!(Tenor::new("+3M"), None);
    assert_eq!(Tenor::new("3 M"), None);
    assert_eq!(Tenor::new("3.5M"), None);
    assert_eq!(Tenor::new("M3"), None);
    assert_eq!(Tenor::new("3MM"), None);
    assert_eq!(Tenor::new("3BD"), None);
    assert_eq!(Tenor::new("2Y6M"), None);
    assert_eq!(Tenor::new("2560D"), None);
    assert_eq!(Tenor::new("25a5D"), None);
    assert_eq!(Tenor::new("٣M"), None);
}

#[test]
fn one_year_from_the_leap_day_with_end_of_month_roll() {
    assert_eq!(tenor("1Y").add_to_date(d(2024, 2, 29), None, Some(true)), d(2025, 2, 28));
    assert_eq!(tenor("12m").add_to_date(d(2024, 2, 29), None, Some(true)), d(2025, 2, 28));
    assert_eq!(tenor("1Y").add_to_date(d(2024, 2, 29), None, Some(false)), d(2025, 2, 28));
    assert_eq!(tenor("1Y").add_to_date(d(2024, 2, 29), None, None), d(2025, 2, 28));
    assert_eq!(tenor("4Y").add_to_date(d(2024, 2, 29), None, None), d(2028, 2, 29));
}

#[test]
fn end_of_month_roll_forces_the_month_end() {
    assert_eq!(tenor("1Y").add_to_date(d(2023, 2, 28), None, Some(true)), d(2024, 2, 29));
    assert_eq!(tenor("1M").add_to_date(d(2023, 2, 28), None, Some(true)), d(2023, 3, 31));
    assert_eq!(tenor("1M").add_to_date(d(2024, 4, 30), None, Some(true)), d(2024, 5, 31));
    assert_eq!(tenor("1M").add_to_date(d(2024, 4, 29), None, Some(true)), d(2024, 5, 29));
    assert_eq!(tenor("1M").add_to_date(d(2024, 2, 28), None, Some(true)), d(2024, 3, 28));
    assert_eq!(tenor("1M").add_to_date(d(2024, 4, 30), None, None), d(2024, 5, 30));
    assert_eq!(tenor("1W").add_to_date(d(2024, 4, 30), None, Some(true)), d(2024, 5, 31));
}

#[test]
fn without_the_roll_the_28th_and_the_31st_are_kept() {
    assert_eq!(tenor("1Y").add_to_date(d(2023, 2, 28), None, Some(false)), d(2024, 2, 28));
    assert_eq!(tenor("1M").add_to_date(d(2023, 2, 28), None, Some(false)), d(2023, 3, 28));
    assert_eq!(tenor("1M").add_to_date(d(2024, 1, 31), None, Some(false)), d(2024, 2, 29));
    assert_eq!(tenor("1M").add_to_date(d(2023, 1, 31), None, Some(false)), d(2023, 2, 28));
    assert_eq!(tenor("1M").add_to_date(d(2024, 3, 31), None, Some(false)), d(2024, 4, 30));
    assert_eq!(tenor("2M").add_to_date(d(2024, 3, 31), None, Some(false)), d(2024, 5, 31));
    assert_eq!(tenor("1M").add_to_date(d(2024, 4, 30), None, Some(false)), d(2024, 5, 30));
    assert_eq!(tenor("1W").add_to_date(d(2024, 1, 28), None, Some(false)), d(2024, 2, 28));
    assert_eq!(tenor("1W").add_to_date(d(2024, 1, 28), None, None), d(2024, 2, 4));
}

#[test]
fn three_weeks_are_twenty_one_days() {
    let three_weeks = tenor("3W");
    let mut day = d(2023, 1, 1);
    while day.year < 2026 {
        let there = three_weeks.add_to_date(day, None, None);
        assert_eq!(there, day.add_days(21));
        assert_eq!(there.num_days_from_ce(), day.num_days_from_ce() + 21);
        day = day.add_days(1);
    }
    assert_eq!(three_weeks.add_to_date(d(2024, 2, 29), None, None), d(2024, 3, 21));
    assert_eq!(three_weeks.add_to_date(d(2023, 2, 28), None, None), d(2023, 3, 21));
    assert_eq!(tenor("255W").add_to_date(d(2024, 1, 1), None, None), d(2028, 11, 20));
}

#[test]
fn days_months_and_years() {
    assert_eq!(tenor("2D").add_to_date(d(2024, 2, 28), None, None), d(2024, 3, 1));
    assert_eq!(tenor("255D").add_to_date(d(2024, 1, 1), None, None), d(2024, 9, 12));
    assert_eq!(tenor("3M").add_to_date(d(2024, 11, 30), None, None), d(2025, 2, 28));
    assert_eq!(tenor("18M").add_to_date(d(2024, 8, 31), None, None), d(2026, 2, 28));
    assert_eq!(tenor("1Y6M").add_to_date(d(2024, 8, 31), None, None), d(2026, 2, 28));
    assert_eq!(tenor("30Y").add_to_date(d(2024, 5, 12), None, None), d(2054, 5, 12));
    assert_eq!(tenor("255Y").add_to_date(d(2024, 5, 12), None, None), d(2279, 5, 12));
}

#[test]
fn the_adjusting_method_moves_the_result_onto_a_business_day() {
    let cal = get_ny_calendar(None, Some(2000), Some(2100));
    let mf = DateAdjustingMethod::ModifiedFollowing(ModifiedFollowing::new(&cal));
    assert_eq!(tenor("1y").add_to_date(d(2024, 5, 31), Some(&mf), None), d(2025, 5, 30));
    assert_eq!(tenor("1y").add_to_date(d(2023, 3, 23), Some(&mf), None), d(2024, 3, 25));
    assert_eq!(tenor("12m").add_to_date(d(2024, 2, 29), Some(&mf), None), d(2025, 2, 28));
    assert_eq!(tenor("3w").add_to_date(d(2024, 2, 29), Some(&mf), None), d(2024, 3, 21));
    assert_eq!(tenor("3w").add_to_date(d(2024, 3, 31), Some(&mf), None), d(2024, 4, 22));
    assert_eq!(tenor("1y").add_to_date(d(2024, 3, 31), Some(&mf), None), d(2025, 3, 31));
    assert_eq!(tenor("1M").add_to_date(d(2024, 5, 4), Some(&mf), None), d(2024, 6, 4));
    assert_eq!(tenor("1M").add_to_date(d(2024, 5, 29), Some(&mf), None), d(2024, 6, 28));
    let f = DateAdjustingMethod::Following(Following::new(&cal));
    assert_eq!(tenor("1M").add_to_date(d(2024, 5, 29), Some(&f), None), d(2024, 7, 1));
    assert_eq!(tenor("1M").add_to_date(d(2024, 5, 31), Some(&f), Some(true)), d(2024, 7, 1));
}

#[test]
fn business_day_tenors_step_through_the_calendar() {
    let cal = get_ny_calendar(None, None, None);
    let f = DateAdjustingMethod::Following(Following::new(&cal));
    assert_eq!(tenor("2BD").add_to_date(d(2024, 3, 28), Some(&f), None), d(2024, 4, 2));
    assert_eq!(tenor("1BD").add_to_date(d(2024, 7, 3), Some(&f), None), d(2024, 7, 5));
    assert_eq!(tenor("5B").add_to_date(d(2024, 7, 1), Some(&f), None), d(2024, 7, 9));
}
