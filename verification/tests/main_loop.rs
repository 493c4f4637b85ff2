use adapter::heartbeat::{heartbeat_line, HbBuf};
use adapter::supervisor::{Supervisor, Turn};

#[test]
fn heartbeat_lines() {
    assert_eq!(heartbeat_line(0).as_bytes(), b"GBA-FW hb #0\r\n");
    assert_eq!(heartbeat_line(1234567).as_bytes(), b"GBA-FW hb #1234567\r\n");
    assert_eq!(heartbeat_line(u32::MAX).as_bytes(), b"GBA-FW hb #4294967295\r\n");
}

#[test]
fn long_lines_are_cut() {
    let mut line = HbBuf::new();
    line.write_str("0123456789012345678901234567890123456");
    line.write_decimal(98765);
    assert_eq!(line.as_bytes(), b"0123456789012345678901234567890123456987");
    line.write_str("x");
    assert_eq!(line.as_bytes().len(), 40);
}

#[test]
fn idle_link_is_fed_for_ever() {
    let mut s = Supervisor::new(0, 7);
    for t in 0..100u64 {
        assert!(s.turn(t * 10_000_000, 7).feed);
    }
}

#[test]
fn stopped_link_is_left_to_the_watchdog() {
    let mut s = Supervisor::new(0, 0);
    assert!(s.turn(100, 1).feed);
    assert!(s.turn(100 + 3_999_999, 1).feed);
    assert!(!s.turn(100 + 4_000_000, 1).feed);
    assert!(!s.turn(100 + 9_000_000, 1).feed);
    assert!(s.turn(100 + 9_000_001, 2).feed);
}

#[test]
fn reports_and_heartbeats_come_on_time() {
    let mut s = Supervisor::new(1000, 0);
    assert_eq!(s.turn(1000 + 299_999, 0), Turn { feed: true, dump: false, beat: None });
    assert_eq!(s.turn(1000 + 300_000, 0), Turn { feed: true, dump: true, beat: None });
    assert_eq!(s.turn(1000 + 300_001, 0), Turn { feed: true, dump: false, beat: None });
    assert_eq!(s.turn(1000 + 1_000_000, 0), Turn { feed: true, dump: true, beat: Some(0) });
    assert_eq!(s.turn(1000 + 1_999_999, 0), Turn { feed: true, dump: true, beat: None });
    assert_eq!(s.turn(1000 + 2_000_000, 0), Turn { feed: true, dump: false, beat: Some(1) });
}

#[test]
fn clock_may_wrap_around() {
    let start = u64::MAX - 10;
    let mut s = Supervisor::new(start, 0);
    assert_eq!(s.turn(start.wrapping_add(999_999), 0).beat, None);
    assert_eq!(s.turn(start.wrapping_add(1_000_000), 0).beat, Some(0));
}

#[test]
fn heartbeat_numbers_wrap_around() {
    let mut s = Supervisor::new(0, 0);
    s.beats = u32::MAX;
    assert_eq!(s.turn(1_000_000, 0).beat, Some(u32::MAX));
    assert_eq!(s.turn(2_000_000, 0).beat, Some(0));
}
