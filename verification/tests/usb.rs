use adapter::relay::{ring_pop, RING_SZ};
use adapter::ring::Ring;
use adapter::serial_usb::{check_bootsel, poll, send_only32, tx_pop, tx_push, Bootsel, TXR};

#[test]
fn words_are_queued_little_endian() {
    let mut ring: Ring<TXR> = Ring::new();
    send_only32(&mut ring, &[0x01020304, 0xA0B0C0D0]);
    for b in [4u8, 3, 2, 1, 0xD0, 0xC0, 0xB0, 0xA0] {
        assert_eq!(tx_pop(&mut ring), Some(b));
    }
    assert_eq!(tx_pop(&mut ring), None);
}

#[test]
fn full_queue_drops_the_rest() {
    let mut ring: Ring<TXR> = Ring::new();
    let words: Vec<u32> = (0..600).collect();
    send_only32(&mut ring, &words);
    tx_push(&mut ring, 0xEE);
    let mut n = 0usize;
    while let Some(b) = tx_pop(&mut ring) {
        assert_eq!(b, words[n / 4].to_le_bytes()[n % 4]);
        n += 1;
    }
    assert_eq!(n, 2047);
}

#[test]
fn poll_hands_out_chunks() {
    let mut ring: Ring<TXR> = Ring::new();
    for i in 0..130u32 {
        tx_push(&mut ring, i as u8);
    }
    let mut chunk = [0u8; 64];
    assert_eq!(poll(&mut ring, &mut chunk), 64);
    assert_eq!(chunk[63], 63);
    assert_eq!(poll(&mut ring, &mut chunk), 64);
    assert_eq!(chunk[0], 64);
    assert_eq!(poll(&mut ring, &mut chunk), 2);
    assert_eq!(&chunk[..2], &[128, 129]);
    assert_eq!(poll(&mut ring, &mut chunk), 0);
}

#[test]
fn magic_asks_for_a_reboot() {
    let mut watch = Bootsel::new();
    let mut ring: Ring<RING_SZ> = Ring::new();
    assert!(check_bootsel(&mut watch, &mut ring, &[0xAA, 0x55, 0x7F, 0x00, 0x7F, 1, 2]));
    for b in [0xAAu8, 0x55, 0x7F, 0x00] {
        assert_eq!(ring_pop(&mut ring), Some(b));
    }
    assert_eq!(ring_pop(&mut ring), None);
}

#[test]
fn scan_says_what_goes_to_the_relay() {
    let mut watch = Bootsel::new();
    assert_eq!(watch.scan(&[1, 0xAA, 0x55]), (3, false));
    assert_eq!(watch.scan(&[]), (0, false));
    assert_eq!(watch.scan(&[0x7F, 0x00, 0x7F, 9]), (2, true));
}

#[test]
fn magic_is_found_across_reads_and_after_false_starts() {
    let mut watch = Bootsel::new();
    let mut ring: Ring<RING_SZ> = Ring::new();
    assert!(!check_bootsel(&mut watch, &mut ring, &[1, 0xAA, 0xAA, 0x55, 0xAA, 0x55, 0x7F]));
    assert!(!check_bootsel(&mut watch, &mut ring, &[0x00]));
    assert!(check_bootsel(&mut watch, &mut ring, &[0x7F]));
}

#[test]
fn other_bytes_go_to_the_relay() {
    let mut watch = Bootsel::new();
    let mut ring: Ring<RING_SZ> = Ring::new();
    let read = [0xAA, 0x55, 0x7F, 0x00, 0x00, 0x42];
    assert!(!check_bootsel(&mut watch, &mut ring, &read));
    for b in read {
        assert_eq!(ring_pop(&mut ring), Some(b));
    }
    assert_eq!(ring_pop(&mut ring), None);
}

#[test]
fn watch_agrees_with_a_search() {
    let magic = [0xAAu8, 0x55, 0x7F, 0x00, 0x7F];
    let alphabet = [0xAAu8, 0x55, 0x7F, 0x00];
    let mut seed = 1u32;
    for _ in 0..2000 {
        let mut stream = Vec::new();
        for _ in 0..24 {
            seed = seed.wrapping_mul(1664525).wrapping_add(1013904223);
            stream.push(alphabet[(seed >> 24) as usize % 4]);
        }
        let mut watch = Bootsel::new();
        let mut ring: Ring<RING_SZ> = Ring::new();
        let found = stream.windows(5).any(|w| w == magic);
        assert_eq!(check_bootsel(&mut watch, &mut ring, &stream), found);
    }
}
