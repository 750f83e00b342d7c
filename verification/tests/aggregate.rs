use jz::aggregate::{
    boss_balance, boss_balances, day_balance, day_work, month_balance, records_in_month,
    running_balances, summarize, total_balance, DayWork,
};
use jz::calendar::Date;
use jz::record::{is_canonical, Record};

fn record(id: i64, date: &str, boss: &str, income: i64) -> Record {
    Record {
        id,
        date: date.to_string(),
        boss: boss.to_string(),
        income,
        duration: None,
        game: None,
        settled: false,
    }
}

fn ledger() -> Vec<Record> {
    vec![
        record(6, "2024-04-01", "Alice", 5_000),
        record(5, "2024-03-15", "Bob", 12_050),
        record(4, "2024-03-15", "Alice", 3_000),
        record(3, "2024-03-02", "Carol", 2_000),
        record(2, "2023-03-15", "Bob", 1_000),
        record(1, "2023-02-28", "alice", 700),
    ]
}

#[test]
fn total_balance_sums_all() {
    assert_eq!(total_balance(&ledger()), 23_750);
    assert_eq!(total_balance(&Vec::new()), 0);
}

#[test]
fn total_balance_beyond_64_bits() {
    let records = vec![
        record(1, "2024-01-01", "A", i64::MAX),
        record(2, "2024-01-01", "A", i64::MAX),
        record(3, "2024-01-01", "A", 2),
    ];
    assert_eq!(total_balance(&records), 2 * (i64::MAX as i128) + 2);
    let records = vec![record(1, "2024-01-01", "A", i64::MIN), record(2, "2024-01-01", "A", i64::MIN)];
    assert_eq!(total_balance(&records), 2 * (i64::MIN as i128));
}

#[test]
fn day_balance_takes_the_exact_date() {
    let records = ledger();
    assert_eq!(day_balance(&records, "2024-03-15"), 15_050);
    assert_eq!(day_balance(&records, "2024-03-02"), 2_000);
    assert_eq!(day_balance(&records, "2024-03-1"), 0);
    assert_eq!(day_balance(&records, "2024-03"), 0);
    assert_eq!(day_balance(&records, ""), 0);
}

#[test]
fn month_balance_takes_the_prefix() {
    let records = ledger();
    assert_eq!(month_balance(&records, "2024-03"), 17_050);
    assert_eq!(month_balance(&records, "2024-04"), 5_000);
    assert_eq!(month_balance(&records, "2024-05"), 0);
    assert_eq!(month_balance(&records, "2024"), 22_050);
    assert_eq!(month_balance(&records, "2024-03-15"), 15_050);
    assert_eq!(month_balance(&records, ""), 23_750);
}

#[test]
fn boss_balance_takes_the_exact_name() {
    let records = ledger();
    assert_eq!(boss_balance(&records, "Alice"), 8_000);
    assert_eq!(boss_balance(&records, "alice"), 700);
    assert_eq!(boss_balance(&records, "Bob"), 13_050);
    assert_eq!(boss_balance(&records, "Dave"), 0);
}

#[test]
fn boss_balances_one_line_for_each_boss() {
    let table = boss_balances(&ledger());
    let lines: Vec<(&str, i128)> = table.iter().map(|l| (l.boss.as_str(), l.balance)).collect();
    assert_eq!(lines, vec![("Alice", 8_000), ("Bob", 13_050), ("Carol", 2_000), ("alice", 700)]);
    assert!(boss_balances(&Vec::new()).is_empty());
}

#[test]
fn boss_balances_add_up_to_the_total() {
    let records = ledger();
    let table = boss_balances(&records);
    let sum: i128 = table.iter().map(|l| l.balance).sum();
    assert_eq!(sum, total_balance(&records));
    for line in &table {
        assert_eq!(line.balance, boss_balance(&records, &line.boss));
    }
}

#[test]
fn a_scope_has_the_total_of_its_records() {
    let records = ledger();
    let march = records_in_month(&records, "2024-03");
    assert_eq!(march.len(), 3);
    assert_eq!(total_balance(&march), month_balance(&records, "2024-03"));
    let ids: Vec<i64> = march.iter().map(|r| r.id).collect();
    assert_eq!(ids, vec![5, 4, 3]);
    assert!(is_canonical(&records));
    assert!(is_canonical(&march));
}

#[test]
fn running_balances_are_suffix_sums() {
    let records = vec![
        record(3, "2024-03-03", "A", 3_000),
        record(2, "2024-03-02", "B", 2_000),
        record(1, "2024-03-01", "C", 1_000),
    ];
    assert_eq!(running_balances(&records), vec![6_000, 3_000, 1_000]);
}

#[test]
fn running_balances_of_few_records() {
    assert_eq!(running_balances(&Vec::new()), Vec::<i128>::new());
    assert_eq!(running_balances(&vec![record(1, "2024-03-01", "C", -5)]), vec![-5]);
    let records = vec![record(2, "2024-03-02", "A", i64::MAX), record(1, "2024-03-01", "A", i64::MAX)];
    assert_eq!(running_balances(&records), vec![2 * (i64::MAX as i128), i64::MAX as i128]);
}

#[test]
fn running_balances_start_with_the_total() {
    let records = ledger();
    let running = running_balances(&records);
    assert_eq!(running[0], total_balance(&records));
    assert_eq!(*running.last().unwrap(), 700);
}

#[test]
fn summarize_gives_all_balances() {
    let records = ledger();
    let today = Date::from_ymd(2024, 3, 15).unwrap();
    let b = summarize(&records, &today, 2024, 4);
    assert_eq!(b.total_balance, 23_750);
    assert_eq!(b.day_balance, 15_050);
    assert_eq!(b.month_balance, 5_000);
    assert_eq!(b.boss_balances.len(), 4);
    assert_eq!(b.boss_balances[1].boss, "Bob");
    assert_eq!(b.boss_balances[1].balance, 13_050);
}

#[test]
fn day_work_counts_entries_and_time() {
    let mut records = ledger();
    records[1].duration = Some(15);
    records[2].duration = Some(u32::MAX);
    records[3].duration = Some(40);
    assert_eq!(
        day_work(&records, "2024-03-15"),
        DayWork { entries: 2, tenths: 15 + u32::MAX as u128 }
    );
    assert_eq!(day_work(&records, "2024-03-02"), DayWork { entries: 1, tenths: 40 });
    assert_eq!(day_work(&records, "2024-04-01"), DayWork { entries: 1, tenths: 0 });
    assert_eq!(day_work(&records, "2024-03"), DayWork { entries: 0, tenths: 0 });
    assert_eq!(day_work(&Vec::new(), "2024-03-15"), DayWork { entries: 0, tenths: 0 });
}
