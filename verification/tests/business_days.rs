use fin_dates::calendars::{get_ny_calendar, Calendar};
use fin_dates::date::CalendarDate;
use fin_dates::date_adjusting::{
    DateAdjustingMethod, Following, ModifiedFollowing, ModifiedPreceding, Preceding,
};

fn d(year: i32, month: u32, day: u32) -> CalendarDate {
    CalendarDate::from_ymd_opt(year, month, day).unwrap()
}

#[test]
fn business_days_skip_weekends() {
    let cal = Calendar::new(None, None);
    assert_eq!(cal.add_business_days(d(2024, 6, 28), 1), d(2024, 7, 1));
    assert_eq!(cal.add_business_days(d(2024, 6, 29), 1), d(2024, 7, 1));
    assert_eq!(cal.add_business_days(d(2024, 6, 30), 1), d(2024, 7, 1));
    assert_eq!(cal.add_business_days(d(2024, 7, 1), 1), d(2024, 7, 2));
    assert_eq!(cal.add_business_days(d(2024, 7, 1), 0), d(2024, 7, 1));
    assert_eq!(cal.add_business_days(d(2024, 7, 1), 5), d(2024, 7, 8));
    assert_eq!(cal.substract_business_days(d(2024, 7, 1), 1), d(2024, 6, 28));
    assert_eq!(cal.substract_business_days(d(2024, 6, 30), 1), d(2024, 6, 28));
    assert_eq!(cal.substract_business_days(d(2024, 6, 29), 1), d(2024, 6, 28));
    assert_eq!(cal.substract_business_days(d(2024, 6, 28), 1), d(2024, 6, 27));
    assert_eq!(cal.substract_business_days(d(2024, 7, 8), 5), d(2024, 7, 1));
}

#[test]
fn business_days_skip_holidays() {
    let cal = get_ny_calendar(None, None, None);
    assert_eq!(cal.add_business_days(d(2024, 7, 3), 1), d(2024, 7, 5));
    assert_eq!(cal.add_business_days(d(2024, 3, 28), 1), d(2024, 4, 1));
    assert_eq!(cal.add_business_days(d(2024, 3, 28), 2), d(2024, 4, 2));
    assert_eq!(cal.add_business_days(d(2024, 8, 30), 1), d(2024, 9, 3));
    assert_eq!(cal.substract_business_days(d(2024, 4, 1), 1), d(2024, 3, 28));
    assert_eq!(cal.substract_business_days(d(2024, 9, 3), 1), d(2024, 8, 30));
    assert_eq!(cal.substract_business_days(d(2024, 7, 5), 2), d(2024, 7, 2));
    assert_eq!(cal.add_business_day(d(2024, 12, 24)), d(2024, 12, 26));
    assert_eq!(cal.substract_business_day(d(2025, 1, 2)), d(2024, 12, 31));
}

#[test]
fn a_holiday_friday_is_followed_by_monday() {
    let cal = Calendar::new(None, Some(vec![d(2024, 7, 5)]));
    assert_eq!(cal.add_business_days(d(2024, 7, 4), 1), d(2024, 7, 8));
    let cal = Calendar::new(None, Some(vec![d(2024, 7, 8)]));
    assert_eq!(cal.substract_business_days(d(2024, 7, 9), 1), d(2024, 7, 5));
}

#[test]
fn is_business_day_excludes_weekends_and_holidays() {
    let cal = get_ny_calendar(None, None, None);
    assert!(cal.is_business_day(d(2024, 7, 3)));
    assert!(!cal.is_business_day(d(2024, 7, 4)));
    assert!(!cal.is_business_day(d(2024, 7, 6)));
    assert!(!cal.is_business_day(d(2024, 7, 7)));
}

#[test]
fn add_then_subtract_returns_to_the_preceding_business_day() {
    let cal = get_ny_calendar(None, Some(2024), Some(2024));
    let preceding = Preceding::new(&cal);
    let mut day = d(2024, 2, 1);
    while day.month < 12 {
        let mut n: u32 = 1;
        while n <= 7 {
            let there = cal.add_business_days(day, n);
            let back = cal.substract_business_days(there, n);
            assert_eq!(back, preceding.adjust(day));
            assert!(cal.is_business_day(back));
            assert!(back <= day);
            assert_eq!(back == day, cal.is_business_day(day));
            n += 1;
        }
        day = day.add_days(1);
    }
    assert_eq!(
        cal.substract_business_days(cal.add_business_days(d(2024, 7, 6), 3), 3),
        d(2024, 7, 5)
    );
}

#[test]
fn following_and_preceding() {
    let cal = get_ny_calendar(None, None, None);
    let f = Following::new(&cal);
    let p = Preceding::new(&cal);
    assert_eq!(f.adjust(d(2024, 6, 29)), d(2024, 7, 1));
    assert_eq!(f.adjust(d(2024, 7, 4)), d(2024, 7, 5));
    assert_eq!(f.adjust(d(2024, 7, 3)), d(2024, 7, 3));
    assert_eq!(f.adjust(d(2024, 3, 29)), d(2024, 4, 1));
    assert_eq!(p.adjust(d(2024, 6, 29)), d(2024, 6, 28));
    assert_eq!(p.adjust(d(2024, 9, 2)), d(2024, 8, 30));
    assert_eq!(p.adjust(d(2024, 9, 3)), d(2024, 9, 3));
    assert_eq!(p.adjust(d(2024, 4, 1)), d(2024, 4, 1));
}

#[test]
fn modified_following_stays_in_the_month() {
    let cal = get_ny_calendar(None, None, None);
    let mf = ModifiedFollowing::new(&cal);
    let f = Following::new(&cal);
    let p = Preceding::new(&cal);
    assert_eq!(mf.adjust(d(2024, 6, 29)), d(2024, 6, 28));
    assert_eq!(mf.adjust(d(2024, 3, 31)), d(2024, 3, 28));
    assert_eq!(mf.adjust(d(2024, 6, 22)), d(2024, 6, 24));
    assert_eq!(mf.adjust(d(2025, 5, 31)), d(2025, 5, 30));
    assert_eq!(mf.adjust(d(2024, 6, 27)), d(2024, 6, 27));
    let mut day = d(2024, 1, 1);
    while day.year == 2024 {
        let m = mf.adjust(day);
        assert_eq!((m.year, m.month), (day.year, day.month));
        let following = f.adjust(day);
        if following.month != day.month {
            assert_eq!(m, p.adjust(day));
        } else {
            assert_eq!(m, following);
        }
        day = day.add_days(1);
    }
}

#[test]
fn modified_preceding_stays_in_the_month() {
    let cal = get_ny_calendar(None, None, None);
    let mp = ModifiedPreceding::new(&cal);
    assert_eq!(mp.adjust(d(2024, 9, 1)), d(2024, 9, 3));
    assert_eq!(mp.adjust(d(2024, 6, 1)), d(2024, 6, 3));
    assert_eq!(mp.adjust(d(2024, 6, 8)), d(2024, 6, 7));
    assert_eq!(mp.adjust(d(2024, 6, 7)), d(2024, 6, 7));
    assert_eq!(mp.adjust(d(2024, 1, 1)), d(2024, 1, 2));
}

#[test]
fn adjusting_method_dispatches_to_its_variant() {
    let cal = get_ny_calendar(None, None, None);
    let day = d(2024, 6, 29);
    assert_eq!(DateAdjustingMethod::Following(Following::new(&cal)).adjust(day), d(2024, 7, 1));
    assert_eq!(DateAdjustingMethod::Preceding(Preceding::new(&cal)).adjust(day), d(2024, 6, 28));
    assert_eq!(
        DateAdjustingMethod::ModifiedFollowing(ModifiedFollowing::new(&cal)).adjust(day),
        d(2024, 6, 28)
    );
    assert_eq!(
        DateAdjustingMethod::ModifiedPreceding(ModifiedPreceding::new(&cal)).adjust(d(2024, 9, 1)),
        d(2024, 9, 3)
    );
    let method = DateAdjustingMethod::Following(Following::new(&cal));
    assert_eq!(method.get_calendar().holiday_rules.len(), 12);
}
