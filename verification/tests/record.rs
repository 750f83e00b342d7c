use jz::record::{
    format_duration, format_hours, is_canonical, is_listed_before, is_text_below, Record,
};

#[test]
fn from_row_reads_the_flag() {
    let row = |flag: Option<i32>| {
        Record::from_row(7, "2024-03-15".to_string(), "Alice".to_string(), 1_250, Some(15), Some("Go".to_string()), flag)
    };
    assert!(!row(None).settled);
    assert!(!row(Some(0)).settled);
    assert!(row(Some(1)).settled);
    assert!(row(Some(-1)).settled);
    assert!(row(Some(i32::MIN)).settled);
}

#[test]
fn from_row_keeps_the_columns() {
    let r = Record::from_row(7, "2024-03-15".to_string(), "Alice".to_string(), 1_250, Some(15), Some("Go".to_string()), Some(1));
    assert_eq!(r.id, 7);
    assert_eq!(r.date, "2024-03-15");
    assert_eq!(r.boss, "Alice");
    assert_eq!(r.income, 1_250);
    assert_eq!(r.duration, Some(15));
    assert_eq!(r.game.as_deref(), Some("Go"));
    let r = Record::from_row(8, String::new(), String::new(), -1, None, None, None);
    assert_eq!(r.duration, None);
    assert_eq!(r.game, None);
}

#[test]
fn duplicate_is_the_same_record() {
    let r = Record::from_row(7, "2024-03-15".to_string(), "Alice".to_string(), 1_250, Some(15), Some("Go".to_string()), Some(1));
    let d = r.duplicate();
    assert_eq!(format!("{:?}", d), format!("{:?}", r));
}

#[test]
fn format_duration_of_whole_hours() {
    assert_eq!(format_duration(Some(10)), "1h");
    assert_eq!(format_duration(Some(20)), "2h");
    assert_eq!(format_duration(Some(1_000)), "100h");
}

#[test]
fn format_duration_of_parts_of_hours() {
    assert_eq!(format_duration(Some(15)), "1.5h");
    assert_eq!(format_duration(Some(1)), "0.1h");
    assert_eq!(format_duration(Some(129)), "12.9h");
    assert_eq!(format_duration(Some(u32::MAX)), "429496729.5h");
}

#[test]
fn format_duration_of_no_time() {
    assert_eq!(format_duration(None), "-");
    assert_eq!(format_duration(Some(0)), "-");
}

#[test]
fn format_hours_has_one_decimal() {
    assert_eq!(format_hours(0), "0.0h");
    assert_eq!(format_hours(5), "0.5h");
    assert_eq!(format_hours(20), "2.0h");
    assert_eq!(format_hours(125), "12.5h");
    assert_eq!(format_hours(u128::MAX), "34028236692093846346337460743176821145.5h");
}

fn entry(id: i64, date: &str) -> Record {
    Record::from_row(id, date.to_string(), "A".to_string(), 100, None, None, None)
}

fn chars(s: &str) -> Vec<char> {
    s.chars().collect()
}

#[test]
fn texts_are_ordered_by_their_characters() {
    for (a, b) in [
        ("", "a"),
        ("a", "b"),
        ("a", "ab"),
        ("ab", "b"),
        ("2023-12-31", "2024-01-01"),
        ("2024-01-01", "2024-01-02"),
        ("2024-01", "2024-01-01"),
        ("Z", "a"),
        ("z", "é"),
        ("é", "万"),
        ("\u{ffff}", "\u{10000}"),
    ] {
        assert!(is_text_below(&chars(a), &chars(b)), "{:?} {:?}", a, b);
        assert!(!is_text_below(&chars(b), &chars(a)), "{:?} {:?}", b, a);
        assert!(a < b);
    }
    for a in ["", "a", "2024-01-01"] {
        assert!(!is_text_below(&chars(a), &chars(a)));
    }
}

#[test]
fn later_dates_and_higher_numbers_are_listed_first() {
    assert!(is_listed_before(&entry(1, "2024-03-02"), &entry(2, "2024-03-01")));
    assert!(!is_listed_before(&entry(2, "2024-03-01"), &entry(1, "2024-03-02")));
    assert!(is_listed_before(&entry(2, "2024-03-01"), &entry(1, "2024-03-01")));
    assert!(!is_listed_before(&entry(1, "2024-03-01"), &entry(2, "2024-03-01")));
    assert!(!is_listed_before(&entry(1, "2024-03-01"), &entry(1, "2024-03-01")));
}

#[test]
fn lists_in_the_order_of_the_store() {
    assert!(is_canonical(&Vec::new()));
    assert!(is_canonical(&vec![entry(1, "2024-03-01")]));
    assert!(is_canonical(&vec![
        entry(9, "2024-03-02"),
        entry(7, "2024-03-02"),
        entry(8, "2024-03-01"),
        entry(3, "2023-12-31"),
    ]));
}

#[test]
fn lists_out_of_order() {
    assert!(!is_canonical(&vec![entry(7, "2024-03-02"), entry(9, "2024-03-02")]));
    assert!(!is_canonical(&vec![entry(7, "2024-03-02"), entry(7, "2024-03-02")]));
    assert!(!is_canonical(&vec![entry(9, "2024-03-01"), entry(7, "2024-03-02")]));
    assert!(!is_canonical(&vec![
        entry(9, "2024-03-03"),
        entry(8, "2024-03-02"),
        entry(7, "2024-03-03"),
    ]));
}
