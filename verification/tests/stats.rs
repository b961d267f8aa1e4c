use bandmeter::common::{Addr, Direction, Event};
use bandmeter::stats::{clean_exe_path, Stats, TrafficStatKey};

fn key(exe: Option<&str>, octets: [u8; 4]) -> TrafficStatKey {
    TrafficStatKey::new(exe.map(String::from), &Addr::Addr4(octets))
}

fn event(direction: Direction, bytes: usize) -> Event {
    Event { direction, raddr: Addr::Addr4([0; 4]), pid: 1, bytes }
}

#[test]
fn key_holds_address_text() {
    let k = key(Some("/usr/bin/curl"), [10, 0, 0, 2]);
    assert_eq!(k.exe.as_deref(), Some("/usr/bin/curl"));
    assert_eq!(k.raddr, "10.0.0.2");
}

#[test]
fn updates_accumulate_per_program_and_peer() {
    let mut stats = Stats::new();
    stats.update(key(Some("/usr/bin/curl"), [10, 0, 0, 2]), &event(Direction::Recv, 100));
    stats.update(key(Some("/usr/bin/curl"), [10, 0, 0, 2]), &event(Direction::Send, 7));
    stats.update(key(Some("/usr/bin/curl"), [10, 0, 0, 2]), &event(Direction::Recv, 50));
    stats.update(key(None, [10, 0, 0, 2]), &event(Direction::Send, 3));
    stats.update(key(Some("/usr/bin/curl"), [10, 0, 0, 3]), &event(Direction::Recv, 1));
    let rows = stats.flush(1_700_000_040);
    assert_eq!(rows.len(), 3);
    assert_eq!(rows[0].exe.as_deref(), Some("/usr/bin/curl"));
    assert_eq!(rows[0].raddr, "10.0.0.2");
    assert_eq!((rows[0].send, rows[0].recv), (7, 150));
    assert_eq!(rows[1].exe, None);
    assert_eq!((rows[1].send, rows[1].recv), (3, 0));
    assert_eq!(rows[2].raddr, "10.0.0.3");
    assert_eq!((rows[2].send, rows[2].recv), (0, 1));
    assert!(rows.iter().all(|r| r.timestamp == 1_700_000_040));
    assert!(stats.flush(1_700_000_100).is_empty());
}

#[test]
fn fits_guards_overflow() {
    let mut stats = Stats::new();
    let k = key(Some("/bin/x"), [1, 2, 3, 4]);
    assert!(stats.fits(&k, Direction::Recv, u64::MAX));
    stats.update(key(Some("/bin/x"), [1, 2, 3, 4]), &event(Direction::Recv, 10));
    assert!(!stats.fits(&k, Direction::Recv, u64::MAX - 5));
    assert!(stats.fits(&k, Direction::Send, u64::MAX));
}

#[test]
fn flushed_counts_are_stored_as_signed() {
    let mut stats = Stats::new();
    stats.update(key(None, [1, 1, 1, 1]), &event(Direction::Send, usize::MAX));
    let rows = stats.flush(0);
    assert_eq!(rows[0].send, usize::MAX as u64 as i64);
}

#[test]
fn exe_paths_lose_deleted_marks() {
    assert_eq!(clean_exe_path("/usr/bin/firefox"), "/usr/bin/firefox");
    assert_eq!(clean_exe_path("/usr/bin/firefox (deleted)"), "/usr/bin/firefox");
    assert_eq!(clean_exe_path("/tmp/a (deleted) (deleted)"), "/tmp/a");
    assert_eq!(clean_exe_path(" (deleted)"), "");
    assert_eq!(clean_exe_path("/tmp/a (deleted)x"), "/tmp/a (deleted)x");
}
