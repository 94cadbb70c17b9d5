use fin_dates::date::CalendarDate;
use fin_dates::day_counting::{
    ActualCounter, DayCounter, Days30Backend, Days30BondCounter, Days30Counter, Days30ECounter,
    Days30EISDACounter, Days30UCounter,
};
use fin_dates::time_fractions::{ActualActualISDA, YearFractionParts};

fn d(year: i32, month: u32, day: u32) -> CalendarDate {
    CalendarDate::from_ymd_opt(year, month, day).unwrap()
}

fn fraction(p: YearFractionParts) -> f64 {
    let mut total: f64 = p.start_days as f64 / p.start_year_days as f64;
    total += p.end_days as f64 / p.end_year_days as f64;
    total + p.full_years as f64
}

#[test]
fn actual_counts_calendar_days() {
    let ac = ActualCounter;
    assert_eq!(ac.day_count(d(2024, 1, 1), d(2024, 3, 1)), 60);
    assert_eq!(ac.day_count(d(2023, 1, 1), d(2023, 3, 1)), 59);
    assert_eq!(ac.day_count(d(2023, 1, 1), d(2024, 1, 1)), 365);
    assert_eq!(ac.day_count(d(2024, 1, 1), d(2025, 1, 1)), 366);
    assert_eq!(ac.day_count(d(-262143, 1, 1), d(262142, 12, 31)), 191491528);
}

#[test]
fn actual_is_zero_on_one_date_and_changes_sign_with_the_order() {
    let ac = ActualCounter;
    let dates = [d(2024, 2, 29), d(1999, 12, 31), d(2030, 7, 15), d(1, 1, 1), d(-50, 3, 3)];
    for a in dates {
        assert_eq!(ac.day_count(a, a), 0);
        for b in dates {
            assert_eq!(ac.day_count(a, b), -ac.day_count(b, a));
        }
    }
}

#[test]
fn actual_vector_counts_each_end() {
    let ac = ActualCounter;
    let ends = vec![d(2024, 5, 13), d(2024, 5, 12), d(2024, 11, 12), d(2023, 5, 12)];
    assert_eq!(ac.day_count_vector(d(2024, 5, 12), &ends), vec![1, 0, 184, -366]);
    assert_eq!(ac.day_count_vector(d(2024, 5, 12), &Vec::new()), Vec::<i32>::new());
}

#[test]
fn bond_rule() {
    let b = Days30BondCounter;
    assert_eq!(b.get_d1(d(2024, 1, 31), d(2024, 3, 31)), 30);
    assert_eq!(b.get_d2(d(2024, 1, 31), d(2024, 3, 31)), 30);
    assert_eq!(b.get_d1(d(2024, 1, 15), d(2024, 3, 31)), 15);
    assert_eq!(b.get_d2(d(2024, 1, 15), d(2024, 3, 31)), 31);
    assert_eq!(b.get_d2(d(2024, 1, 30), d(2024, 3, 31)), 30);
    assert_eq!(b.get_d2(d(2024, 1, 29), d(2024, 3, 31)), 31);
    let c = Days30Counter { backend: Days30Backend::Bond(Days30BondCounter) };
    assert_eq!(c.day_count(d(2024, 1, 31), d(2024, 3, 31)), 60);
    assert_eq!(c.day_count(d(2024, 1, 15), d(2024, 3, 31)), 76);
    assert_eq!(c.day_count(d(2024, 3, 31), d(2024, 1, 15)), -75);
    assert_eq!(c.day_count(d(2023, 12, 31), d(2025, 1, 1)), 361);
}

#[test]
fn e_rule_counts_as_the_bond_rule() {
    let e = Days30ECounter;
    assert_eq!(e.get_d1(d(2024, 1, 31), d(2024, 3, 31)), 30);
    assert_eq!(e.get_d2(d(2024, 1, 31), d(2024, 3, 31)), 30);
    assert_eq!(e.get_d2(d(2024, 1, 15), d(2024, 3, 31)), 31);
    let c = Days30Counter { backend: Days30Backend::E(Days30ECounter) };
    assert_eq!(c.day_count(d(2024, 5, 12), d(2024, 11, 12)), 180);
    assert_eq!(c.day_count(d(2024, 1, 15), d(2024, 3, 31)), 76);
    assert_eq!(c.day_count(d(2024, 2, 29), d(2024, 3, 31)), 32);
}

#[test]
fn u_rule_counts_the_end_of_february_as_the_30th() {
    let u = Days30UCounter;
    assert_eq!(u.get_d1(d(2024, 2, 29), d(2024, 3, 31)), 30);
    assert_eq!(u.get_d1(d(2024, 2, 28), d(2024, 3, 31)), 28);
    assert_eq!(u.get_d1(d(2023, 2, 28), d(2024, 3, 31)), 30);
    assert_eq!(u.get_d1(d(2023, 1, 31), d(2024, 3, 31)), 30);
    assert_eq!(u.get_d2(d(2024, 2, 29), d(2024, 3, 31)), 30);
    assert_eq!(u.get_d2(d(2023, 2, 28), d(2024, 2, 29)), 30);
    assert_eq!(u.get_d2(d(2023, 2, 27), d(2024, 2, 29)), 29);
    assert_eq!(u.get_d2(d(2023, 1, 31), d(2024, 3, 31)), 30);
    assert_eq!(u.get_d2(d(2023, 1, 30), d(2024, 3, 31)), 30);
    assert_eq!(u.get_d2(d(2023, 1, 29), d(2024, 3, 31)), 31);
    let c = Days30Counter { backend: Days30Backend::U(Days30UCounter) };
    assert_eq!(c.day_count(d(2024, 2, 29), d(2024, 3, 31)), 30);
    assert_eq!(c.day_count(d(2023, 2, 28), d(2024, 2, 29)), 360);
    assert_eq!(c.day_count(d(2023, 1, 29), d(2023, 3, 31)), 62);
}

#[test]
fn eisda_rule_counts_every_month_end_as_the_30th() {
    let e = Days30EISDACounter;
    assert_eq!(e.get_d1(d(2024, 2, 29), d(2024, 3, 31)), 30);
    assert_eq!(e.get_d2(d(2024, 2, 29), d(2024, 3, 31)), 30);
    assert_eq!(e.get_d1(d(2024, 2, 28), d(2024, 3, 30)), 28);
    assert_eq!(e.get_d2(d(2024, 2, 28), d(2024, 3, 30)), 30);
    assert_eq!(e.get_d1(d(2024, 4, 30), d(2024, 3, 30)), 30);
    assert_eq!(e.get_d2(d(2024, 4, 30), d(2023, 2, 28)), 30);
    let c = Days30Counter { backend: Days30Backend::EISDA(Days30EISDACounter) };
    assert_eq!(c.day_count(d(2024, 2, 29), d(2024, 3, 31)), 30);
    assert_eq!(c.day_count(d(2024, 2, 28), d(2024, 3, 30)), 32);
    assert_eq!(c.day_count(d(2024, 1, 31), d(2024, 2, 29)), 30);
}

#[test]
fn days30_vector_counts_each_end() {
    let c = Days30Counter { backend: Days30Backend::E(Days30ECounter) };
    let ends = vec![d(2024, 11, 12), d(2025, 5, 12), d(2024, 5, 31)];
    assert_eq!(c.day_count_vector(d(2024, 5, 12), &ends), vec![180, 360, 19]);
}

#[test]
fn day_counter_dispatches_to_its_variant() {
    let actual = DayCounter::Actual(ActualCounter);
    let thirty = DayCounter::Days30(Days30Counter { backend: Days30Backend::Bond(Days30BondCounter) });
    assert_eq!(actual.day_count(d(2024, 1, 31), d(2024, 3, 31)), 60);
    assert_eq!(thirty.day_count(d(2024, 1, 31), d(2024, 3, 31)), 60);
    assert_eq!(actual.day_count(d(2023, 1, 31), d(2023, 3, 31)), 59);
    let ends = vec![d(2023, 3, 31), d(2023, 2, 1)];
    assert_eq!(actual.day_count_vector(d(2023, 1, 31), &ends), vec![59, 1]);
    assert_eq!(thirty.day_count_vector(d(2023, 1, 31), &ends), vec![60, 1]);
}

#[test]
fn isda_parts_within_one_year() {
    let isda = ActualActualISDA::new();
    let p = isda.year_fraction_parts(d(2023, 1, 1), d(2023, 12, 31));
    assert_eq!(
        p,
        YearFractionParts {
            start_days: 364,
            start_year_days: 365,
            end_days: 0,
            end_year_days: 365,
            full_years: 0
        }
    );
    assert!((fraction(p) - 364.0 / 365.0).abs() < 1e-15);
    let p = isda.year_fraction_parts(d(2024, 1, 1), d(2024, 12, 31));
    assert_eq!(p.start_days, 365);
    assert_eq!(p.start_year_days, 366);
    let p = isda.year_fraction_parts(d(2024, 3, 1), d(2024, 2, 1));
    assert_eq!(p.start_days, -29);
}

#[test]
fn isda_parts_across_years() {
    let isda = ActualActualISDA::new();
    let p = isda.year_fraction_parts(d(2023, 6, 15), d(2025, 6, 15));
    assert_eq!(
        p,
        YearFractionParts {
            start_days: 199,
            start_year_days: 365,
            end_days: 165,
            end_year_days: 365,
            full_years: 1
        }
    );
    assert_eq!(fraction(p), 199.0 / 365.0 + 165.0 / 365.0 + 1.0);
    let p = isda.year_fraction_parts(d(2023, 12, 31), d(2024, 1, 1));
    assert_eq!(
        p,
        YearFractionParts {
            start_days: 0,
            start_year_days: 365,
            end_days: 0,
            end_year_days: 366,
            full_years: 0
        }
    );
    let p = isda.year_fraction_parts(d(2024, 5, 12), d(2034, 5, 12));
    assert_eq!(p.start_days, 233);
    assert_eq!(p.start_year_days, 366);
    assert_eq!(p.end_days, 131);
    assert_eq!(p.end_year_days, 365);
    assert_eq!(p.full_years, 9);
    let p = isda.year_fraction_parts(d(2025, 6, 15), d(2023, 6, 15));
    assert_eq!(p.full_years, 0);
    assert_eq!(p.start_days, 199);
    assert_eq!(p.end_days, 165);
}
