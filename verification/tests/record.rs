use bandmeter::record::{next_tick, period_start, RECORD_PERIOD_SECS};

#[test]
fn ticks_align_to_minutes() {
    assert_eq!(RECORD_PERIOD_SECS, 60);
    assert_eq!(next_tick(1_700_000_005), (35, 1_699_999_980));
    assert_eq!(next_tick(120), (60, 120));
    assert_eq!(next_tick(179), (1, 120));
    assert_eq!(period_start(1_700_000_059), 1_700_000_040);
}

#[test]
fn negative_times_round_toward_zero() {
    assert_eq!(period_start(-7), 0);
    assert_eq!(next_tick(-7), (67, 0));
    assert_eq!(period_start(-61), -60);
}
