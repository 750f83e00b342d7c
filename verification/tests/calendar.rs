use jz::calendar::{days_in_month, month_key, Date, MAX_YEAR, MIN_YEAR};

fn date(year: i32, month: u32, day: u32) -> Date {
    Date::from_ymd(year, month, day).unwrap()
}

#[test]
fn days_in_month_of_each_month() {
    let lengths = [31, 28, 31, 30, 31, 30, 31, 31, 30, 31, 30, 31];
    for m in 1..=12u32 {
        assert_eq!(days_in_month(2023, m), lengths[(m - 1) as usize], "month {}", m);
    }
}

#[test]
fn days_in_month_february_in_leap_years() {
    assert_eq!(days_in_month(2024, 2), 29);
    assert_eq!(days_in_month(2000, 2), 29);
    assert_eq!(days_in_month(1900, 2), 28);
    assert_eq!(days_in_month(2100, 2), 28);
    assert_eq!(days_in_month(2023, 2), 28);
    assert_eq!(days_in_month(0, 2), 29);
    assert_eq!(days_in_month(-4, 2), 29);
    assert_eq!(days_in_month(-100, 2), 28);
    assert_eq!(days_in_month(-400, 2), 29);
    assert_eq!(days_in_month(-1, 2), 28);
}

#[test]
fn days_in_month_of_no_month() {
    assert_eq!(days_in_month(2024, 0), 30);
    assert_eq!(days_in_month(2024, 13), 30);
    assert_eq!(days_in_month(2024, u32::MAX), 30);
}

#[test]
fn from_ymd_takes_the_days_that_exist() {
    for year in [-401, -400, -100, -4, -1, 0, 1, 4, 100, 400, 1900, 1999, 2000, 2023, 2024, 2100, 9999, 10000] {
        for month in 0..=14u32 {
            for day in 0..=33u32 {
                let exists = (1..=12).contains(&month) && day >= 1 && day <= days_in_month(year, month);
                let made = Date::from_ymd(year, month, day);
                assert_eq!(made.is_some(), exists, "{}-{}-{}", year, month, day);
                if let Some(d) = made {
                    assert_eq!((d.year(), d.month(), d.day()), (year, month, day));
                }
            }
        }
    }
}

#[test]
fn from_ymd_keeps_to_the_years_of_the_calendar() {
    assert!(Date::from_ymd(MAX_YEAR, 12, 31).is_some());
    assert!(Date::from_ymd(MAX_YEAR + 1, 1, 1).is_none());
    assert!(Date::from_ymd(MIN_YEAR, 1, 1).is_some());
    assert!(Date::from_ymd(MIN_YEAR - 1, 12, 31).is_none());
    assert!(Date::from_ymd(i32::MAX, 1, 1).is_none());
    assert!(Date::from_ymd(i32::MIN, 1, 1).is_none());
    assert!(Date::from_ymd(2024, u32::MAX, 1).is_none());
    assert!(Date::from_ymd(2024, 1, u32::MAX).is_none());
}

#[test]
fn iso_text_of_dates() {
    assert_eq!(date(2024, 3, 5).iso(), "2024-03-05");
    assert_eq!(date(2024, 12, 31).iso(), "2024-12-31");
    assert_eq!(date(999, 1, 1).iso(), "0999-01-01");
    assert_eq!(date(5, 10, 9).iso(), "0005-10-09");
    assert_eq!(date(0, 1, 1).iso(), "0000-01-01");
    assert_eq!(date(9999, 1, 1).iso(), "9999-01-01");
    assert_eq!(date(10000, 1, 1).iso(), "+10000-01-01");
    assert_eq!(date(-1, 1, 1).iso(), "-0001-01-01");
    assert_eq!(date(-12345, 6, 7).iso(), "-12345-06-07");
    assert_eq!(date(MAX_YEAR, 12, 31).iso(), "+262142-12-31");
    assert_eq!(date(MIN_YEAR, 1, 1).iso(), "-262143-01-01");
}

#[test]
fn month_key_text() {
    assert_eq!(month_key(2024, 3), "2024-03");
    assert_eq!(month_key(2024, 12), "2024-12");
    assert_eq!(month_key(999, 1), "999-01");
    assert_eq!(month_key(0, 0), "0-00");
    assert_eq!(month_key(-5, 7), "-5-07");
    assert_eq!(month_key(2024, 123), "2024-123");
    assert_eq!(month_key(i32::MIN, u32::MAX), "-2147483648-4294967295");
    assert_eq!(month_key(i32::MAX, 99), "2147483647-99");
}

#[test]
fn month_key_starts_the_dates_of_the_month() {
    for month in 1..=12u32 {
        let date = Date::from_ymd(2025, month, 1).unwrap();
        assert!(date.iso().starts_with(&month_key(2025, month)));
    }
}

#[test]
fn picked_keeps_a_day_that_exists() {
    let today = date(2024, 3, 15);
    assert_eq!(today.picked(2025, 7, 4), date(2025, 7, 4));
}

#[test]
fn picked_takes_the_day_back_to_the_end_of_the_month() {
    let today = date(2024, 3, 31);
    assert_eq!(today.picked(2024, 2, 31), date(2024, 2, 29));
    assert_eq!(today.picked(2023, 2, 31), date(2023, 2, 28));
    assert_eq!(today.picked(2024, 4, 31), date(2024, 4, 30));
}

#[test]
fn picked_stays_where_there_is_no_date() {
    let today = date(2024, 3, 15);
    assert_eq!(today.picked(2024, 13, 1), today);
    assert_eq!(today.picked(2024, 0, 1), today);
    assert_eq!(today.picked(2024, 5, 0), today);
    assert_eq!(today.picked(MAX_YEAR + 1, 5, 1), today);
}

#[test]
fn dates_compare_by_their_day() {
    assert_eq!(date(2024, 3, 5), date(2024, 3, 5));
    assert_ne!(date(2024, 3, 5), date(2024, 3, 6));
    assert_ne!(date(2024, 3, 5), date(2023, 3, 5));
}
