use quake_tools::timer::{refresh_tick, TimerState};

#[test]
fn fresh_timer_has_full_budget_and_is_idle() {
    let t = TimerState::new(35);
    assert!(!t.is_running());
    assert_eq!(t.time_left(0), 35);
    assert_eq!(t.time_left(123_456_789), 35);

    let z = TimerState::new(0);
    assert!(!z.is_running());
    assert_eq!(z.time_left(5_000), 0);
}

#[test]
fn start_sets_running() {
    let mut t = TimerState::new(35);
    t.start(1_000);
    assert!(t.is_running());
    assert_eq!(t.time_left(1_000), 35);
}

#[test]
fn second_start_does_not_restart() {
    let mut t = TimerState::new(25);
    t.start(1_000);
    // 4 seconds in, the countdown is under way
    assert_eq!(t.time_left(5_000), 21);
    // a second start while running must not reset time_left to 25
    t.start(5_000);
    assert_eq!(t.time_left(5_000), 21);
    // at exactly 25 s from the first start the timer is spent; had the
    // second start restarted it, 4 s of budget would remain here
    assert_eq!(t.time_left(26_000), 0);
}

#[test]
fn reset_returns_any_timer_to_full_idle() {
    let mut running = TimerState::new(35);
    running.start(2_000);
    assert!(running.is_running());
    running.reset();
    assert!(!running.is_running());
    assert_eq!(running.time_left(999_999), 35);

    let mut idle = TimerState::new(35);
    idle.reset();
    assert!(!idle.is_running());
    assert_eq!(idle.time_left(0), 35);
}

#[test]
fn time_left_counts_down_and_saturates() {
    let mut t = TimerState::new(35);
    t.start(0);
    assert_eq!(t.time_left(0), 35);
    assert_eq!(t.time_left(10_000), 25);
    assert_eq!(t.time_left(34_000), 1);
    assert_eq!(t.time_left(35_000), 0);
    assert_eq!(t.time_left(40_000), 0);
    assert_eq!(t.time_left(u64::MAX), 0);
}

#[test]
fn sub_second_elapsed_time_is_truncated() {
    let mut t = TimerState::new(25);
    t.start(1_000);
    // 24.9 s in: 24 whole seconds elapsed, so 1 s is left, not 0
    assert_eq!(t.time_left(25_900), 1);
    assert_eq!(t.time_left(26_000), 0);
}

#[test]
fn red_armor_expiry_is_detected_by_the_refresh_tick() {
    let t0: u64 = 1_000;
    let mut t = TimerState::new(25);
    t.start(t0);
    assert_eq!(t.time_left(t0 + 24_900), 1);
    assert_eq!(t.time_left(t0 + 25_000), 0);
    // the tick observing zero on a running timer resets it
    let d = refresh_tick(&mut t, t0 + 25_000);
    assert_eq!(d.remaining, 0);
    assert!(!d.active);
    assert!(d.warning);
    assert!(d.critical);
    assert!(!t.is_running());
    assert_eq!(t.time_left(t0 + 25_000), 25);
}

#[test]
fn refresh_tick_leaves_unexpired_timers_alone() {
    let mut t = TimerState::new(35);
    t.start(0);
    let d = refresh_tick(&mut t, 15_000);
    assert_eq!(d.remaining, 20);
    assert!(d.active);
    assert!(t.is_running());

    let mut idle = TimerState::new(35);
    let d = refresh_tick(&mut idle, 15_000);
    assert_eq!(d.remaining, 35);
    assert!(!d.active);
    assert!(!idle.is_running());
}

#[test]
fn warning_and_critical_boundaries() {
    // remaining 11: neither flag; 10: warning only; 6: warning only;
    // 5: both; 0: both
    let cases: [(u32, bool, bool); 5] = [
        (11, false, false),
        (10, true, false),
        (6, true, false),
        (5, true, true),
        (0, true, true),
    ];
    for (remaining, warning, critical) in cases {
        let mut t = TimerState::new(30);
        t.start(0);
        let now = u64::from(30 - remaining) * 1_000;
        let d = refresh_tick(&mut t, now);
        assert_eq!(d.remaining, remaining);
        assert_eq!(d.warning, warning, "warning at {remaining}");
        assert_eq!(d.critical, critical, "critical at {remaining}");
    }
}
