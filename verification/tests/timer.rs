use jz::timer::{format_clock, Phase, Timer};

const SECOND: u64 = 1_000;

#[test]
fn a_session_counts_its_stretches() {
    let mut t = Timer::new();
    t.start(10 * SECOND);
    assert_eq!(t.phase(), Phase::Running);
    t.pause(15 * SECOND);
    assert_eq!(t.phase(), Phase::Paused);
    assert_eq!(t.elapsed(100 * SECOND), 5 * SECOND);
    t.resume(60 * SECOND);
    assert_eq!(t.phase(), Phase::Running);
    t.stop(63 * SECOND);
    assert_eq!(t.phase(), Phase::Ended);
    assert_eq!(t.elapsed(200 * SECOND), 8 * SECOND);
    assert_eq!(t.accumulated(), 8 * SECOND);
    t.reset();
    assert_eq!(t.phase(), Phase::Initial);
    assert_eq!(t.elapsed(300 * SECOND), 0);
}

#[test]
fn pause_before_start_does_nothing() {
    let mut t = Timer::new();
    t.pause(5 * SECOND);
    assert_eq!(t.phase(), Phase::Initial);
    assert_eq!(t.elapsed(9 * SECOND), 0);
    assert_eq!(t.start_instant(), None);
}

#[test]
fn initial_takes_only_a_start() {
    let mut t = Timer::new();
    t.resume(1);
    t.stop(2);
    t.reset();
    assert_eq!(t.phase(), Phase::Initial);
    assert_eq!(t.accumulated(), 0);
    t.start(3);
    assert_eq!(t.phase(), Phase::Running);
    assert_eq!(t.start_instant(), Some(3));
}

#[test]
fn ended_takes_only_a_reset() {
    let mut t = Timer::new();
    t.start(0);
    t.stop(7);
    t.start(8);
    t.pause(9);
    t.resume(10);
    t.stop(11);
    assert_eq!(t.phase(), Phase::Ended);
    assert_eq!(t.elapsed(12), 7);
    t.reset();
    assert_eq!(t.phase(), Phase::Initial);
}

#[test]
fn running_derives_elapsed_from_the_reading() {
    let mut t = Timer::new();
    t.start(100);
    assert_eq!(t.elapsed(100), 0);
    assert_eq!(t.elapsed(130), 30);
    assert_eq!(t.accumulated(), 0);
    t.start(120);
    t.resume(125);
    t.reset();
    assert_eq!(t.elapsed(130), 30);
    t.pause(150);
    assert_eq!(t.start_instant(), None);
    t.resume(1_000);
    assert_eq!(t.start_instant(), Some(1_000));
    assert_eq!(t.elapsed(1_010), 60);
}

#[test]
fn stop_while_paused_keeps_the_count() {
    let mut t = Timer::new();
    t.start(0);
    t.pause(40);
    t.stop(90);
    assert_eq!(t.phase(), Phase::Ended);
    assert_eq!(t.elapsed(500), 40);
}

#[test]
fn readings_that_run_backwards_count_for_nothing() {
    let mut t = Timer::new();
    t.start(100);
    assert_eq!(t.elapsed(50), 0);
    t.pause(50);
    assert_eq!(t.accumulated(), 0);
    t.resume(20);
    assert_eq!(t.start_instant(), Some(100));
    t.stop(130);
    assert_eq!(t.accumulated(), 30);
}

#[test]
fn the_whole_range_of_readings() {
    let mut t = Timer::new();
    t.start(0);
    t.pause(u64::MAX);
    assert_eq!(t.accumulated(), u64::MAX);
    t.resume(u64::MAX);
    t.stop(u64::MAX);
    assert_eq!(t.elapsed(0), u64::MAX);
}

#[test]
fn format_clock_shows_hours_minutes_seconds() {
    assert_eq!(format_clock(0), "00:00:00");
    assert_eq!(format_clock(8), "00:00:08");
    assert_eq!(format_clock(59), "00:00:59");
    assert_eq!(format_clock(60), "00:01:00");
    assert_eq!(format_clock(3_599), "00:59:59");
    assert_eq!(format_clock(3_600), "01:00:00");
    assert_eq!(format_clock(3_661), "01:01:01");
    assert_eq!(format_clock(99 * 3_600 + 59 * 60 + 59), "99:59:59");
    assert_eq!(format_clock(100 * 3_600), "100:00:00");
    assert_eq!(format_clock(u64::MAX), "5124095576030431:00:15");
}
