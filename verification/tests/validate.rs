use jz::calendar::Date;
use jz::validate::{validate, Draft, ValidationError, DEFAULT_CEILING};

fn day() -> Date {
    Date::from_ymd(2024, 3, 5).unwrap()
}

fn check(boss: &str, income: &str, duration: &str, game: &str) -> Result<Draft, ValidationError> {
    validate(&day(), boss, income, duration, game, false, DEFAULT_CEILING)
}

fn fault(boss: &str, income: &str, duration: &str) -> ValidationError {
    check(boss, income, duration, "").unwrap_err()
}

#[test]
fn both_missing() {
    let e = fault("", "", "");
    assert_eq!(e, ValidationError::MissingBoth);
    assert!(e.boss_error());
    assert!(e.income_error());
    assert_eq!(e.message(DEFAULT_CEILING), "请输入老板名称和收入金额");
}

#[test]
fn boss_missing() {
    let e = fault("   ", "100", "");
    assert_eq!(e, ValidationError::MissingBoss);
    assert!(e.boss_error());
    assert!(!e.income_error());
    assert_eq!(e.message(DEFAULT_CEILING), "请输入老板名称");
}

#[test]
fn amount_invalid() {
    let e = fault("Alice", "abc", "");
    assert_eq!(e, ValidationError::InvalidAmount);
    assert!(!e.boss_error());
    assert!(e.income_error());
    assert_eq!(e.message(DEFAULT_CEILING), "请输入有效金额");
}

#[test]
fn amount_over_ceiling() {
    let e = fault("Alice", "200000", "");
    assert_eq!(e, ValidationError::OverCeiling);
    assert!(!e.boss_error());
    assert!(e.income_error());
    assert_eq!(e.message(DEFAULT_CEILING), "单笔金额不能超过 ¥100000");
    assert_eq!(e.message(500), "单笔金额不能超过 ¥500");
}

#[test]
fn duration_invalid() {
    for text in ["abc", "0", "0.0", "-1", "1h", "."] {
        let e = fault("Alice", "100", text);
        assert_eq!(e, ValidationError::InvalidDuration, "{:?}", text);
        assert!(!e.boss_error());
        assert!(!e.income_error());
        assert_eq!(e.message(DEFAULT_CEILING), "请输入有效时长");
    }
    assert_eq!(fault("Alice", "100", "99999999999"), ValidationError::InvalidDuration);
}

#[test]
fn amounts_that_are_no_amount() {
    for text in ["", " ", "0", "0.00", "-5", "-0.01", "0.004", "1e-3", "inf", "NaN", "12a", "1,000", "¥5"] {
        assert_eq!(fault("Alice", text, ""), ValidationError::InvalidAmount, "{:?}", text);
        assert_eq!(fault("", text, ""), ValidationError::MissingBoth, "{:?}", text);
    }
}

#[test]
fn the_ceiling_itself_is_taken() {
    assert_eq!(check("Alice", "100000", "", "").unwrap().income, 10_000_000);
    assert_eq!(check("Alice", "100000.00", "", "").unwrap().income, 10_000_000);
    assert_eq!(check("Alice", "100000.004", "", "").unwrap().income, 10_000_000);
    assert_eq!(fault("Alice", "100000.005", ""), ValidationError::OverCeiling);
    assert_eq!(fault("Alice", "100000.01", ""), ValidationError::OverCeiling);
    assert_eq!(fault("Alice", "99999999999999999999999999", ""), ValidationError::OverCeiling);
    assert_eq!(
        validate(&day(), "Alice", "50.01", "", "", false, 50).unwrap_err(),
        ValidationError::OverCeiling
    );
    assert_eq!(validate(&day(), "Alice", "50", "", "", false, 50).unwrap().income, 5_000);
    assert_eq!(
        validate(&day(), "Alice", "0.01", "", "", false, 0).unwrap_err(),
        ValidationError::OverCeiling
    );
    assert_eq!(
        validate(&day(), "Alice", "42949672.95", "", "", false, u32::MAX).unwrap().income,
        4_294_967_295
    );
}

#[test]
fn the_rules_are_held_in_order() {
    // A missing boss comes before the ceiling, and the ceiling before the time.
    assert_eq!(fault("", "200000", "abc"), ValidationError::MissingBoss);
    assert_eq!(fault("Alice", "200000", "abc"), ValidationError::OverCeiling);
    assert_eq!(fault("", "abc", "abc"), ValidationError::MissingBoth);
}

#[test]
fn a_draft_is_what_was_typed_made_regular() {
    let d = validate(&day(), "  Alice ", " 1234.5 ", " 1.25 ", "  Go  ", true, DEFAULT_CEILING).unwrap();
    assert_eq!(d.date, "2024-03-05");
    assert_eq!(d.boss, "Alice");
    assert_eq!(d.income, 123_450);
    assert_eq!(d.duration, Some(13));
    assert_eq!(d.game.as_deref(), Some("Go"));
    assert!(d.settled);
}

#[test]
fn empty_fields_become_absent() {
    let d = check("Alice", "5", "", "").unwrap();
    assert_eq!(d.duration, None);
    assert_eq!(d.game, None);
    assert!(!d.settled);
    let d = check("Alice", "5", "  \t", " \u{3000} ").unwrap();
    assert_eq!(d.duration, None);
    assert_eq!(d.game, None);
}

#[test]
fn amounts_are_rounded_to_the_fen() {
    assert_eq!(check("Alice", "0.01", "", "").unwrap().income, 1);
    assert_eq!(check("Alice", "0.005", "", "").unwrap().income, 1);
    assert_eq!(check("Alice", "12.344", "", "").unwrap().income, 1_234);
    assert_eq!(check("Alice", "12.345", "", "").unwrap().income, 1_235);
    assert_eq!(check("Alice", "+7", "", "").unwrap().income, 700);
    assert_eq!(check("Alice", ".5", "", "").unwrap().income, 50);
    assert_eq!(check("Alice", "5.", "", "").unwrap().income, 500);
    assert_eq!(check("Alice", "1e3", "", "").unwrap().income, 100_000);
    assert_eq!(check("Alice", "1.5E2", "", "").unwrap().income, 15_000);
    assert_eq!(check("Alice", "125e-2", "", "").unwrap().income, 125);
    assert_eq!(fault("Alice", "1e6", ""), ValidationError::OverCeiling);
}

#[test]
fn times_are_rounded_to_the_tenth() {
    assert_eq!(check("Alice", "5", "2", "").unwrap().duration, Some(20));
    assert_eq!(check("Alice", "5", "1.5", "").unwrap().duration, Some(15));
    assert_eq!(check("Alice", "5", "1.24", "").unwrap().duration, Some(12));
    assert_eq!(check("Alice", "5", "1.25", "").unwrap().duration, Some(13));
    assert_eq!(check("Alice", "5", "0.05", "").unwrap().duration, Some(1));
    assert_eq!(check("Alice", "5", "0.04", "").unwrap().duration, Some(0));
    assert_eq!(check("Alice", "5", "429496729.5", "").unwrap().duration, Some(u32::MAX));
    assert_eq!(fault("Alice", "5", "429496729.55"), ValidationError::InvalidDuration);
}
