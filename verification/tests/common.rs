use bandmeter::common::{try_handle_event, Addr, Direction};

#[test]
fn probe_reports_ipv4_traffic() {
    let ev = try_handle_event(1500, 2, [127, 0, 0, 1], [0; 16], (4242u64 << 32) | 17, Direction::Recv).unwrap();
    assert_eq!(ev.direction, Direction::Recv);
    assert_eq!(ev.pid, 4242);
    assert_eq!(ev.bytes, 1500);
    assert!(matches!(ev.raddr, Addr::Addr4([127, 0, 0, 1])));
}

#[test]
fn probe_reports_ipv6_traffic() {
    let mut o = [0u8; 16];
    o[15] = 1;
    let ev = try_handle_event(3, 10, [0; 4], o, 7u64 << 32, Direction::Send).unwrap();
    assert_eq!(ev.direction, Direction::Send);
    assert_eq!(ev.pid, 7);
    assert!(matches!(ev.raddr, Addr::Addr6(a) if a == o));
}

#[test]
fn probe_ignores_failures_and_other_families() {
    assert!(try_handle_event(0, 2, [1; 4], [0; 16], 0, Direction::Send).is_none());
    assert!(try_handle_event(-11, 2, [1; 4], [0; 16], 0, Direction::Send).is_none());
    assert!(try_handle_event(i32::MAX, 2, [1; 4], [0; 16], 0, Direction::Send).is_none());
    assert!(try_handle_event(10, 1, [1; 4], [0; 16], 0, Direction::Send).is_none());
}
