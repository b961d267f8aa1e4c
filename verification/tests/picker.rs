use bandmeter::picker::{dial_bearing_degrees, dial_label, hour_disabled, hour_selected, on_outer_ring};

#[test]
fn dial_labels() {
    assert_eq!(dial_label(0), "00");
    assert_eq!(dial_label(7), "7");
    assert_eq!(dial_label(12), "12");
    assert_eq!(dial_label(23), "23");
}

#[test]
fn dial_layout() {
    assert!(on_outer_ring(0));
    assert!(on_outer_ring(11));
    assert!(!on_outer_ring(12));
    assert!(!on_outer_ring(23));
    assert_eq!(dial_bearing_degrees(0), 0);
    assert_eq!(dial_bearing_degrees(3), 90);
    assert_eq!(dial_bearing_degrees(12), 0);
    assert_eq!(dial_bearing_degrees(23), 330);
}

#[test]
fn future_hours_of_today_are_disabled() {
    assert!(hour_disabled(true, 15, 14));
    assert!(!hour_disabled(true, 14, 14));
    assert!(!hour_disabled(false, 23, 0));
    assert!(hour_selected(true, 9, 9));
    assert!(!hour_selected(false, 9, 9));
    assert!(!hour_selected(true, 8, 9));
}
