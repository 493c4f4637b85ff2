use adapter::relay::{
    get_peer, peer_id, poll, poll_bytes, ring_pop, take_slot, usb_push, Relay, RING_SZ, T_BOOTSEL, T_NO_PEER,
    T_PEER, T_RECV_SLOT,
};
use adapter::ring::Ring;
use adapter::words::words_to_bytes;

fn frame(kind: u8, payload: &[u8]) -> Vec<u8> {
    let mut f = vec![0xAA, 0x55, kind, payload.len() as u8];
    f.extend_from_slice(payload);
    let sum = f[2..].iter().fold(0u8, |a, b| a ^ b);
    f.push(sum);
    f
}

fn peer_frame() -> Vec<u8> {
    frame(T_PEER, &words_to_bytes(&[0xCAFE0001, 1, 2, 3, 4, 5, 0x80000006]))
}

#[test]
fn starts_with_nothing() {
    let mut relay = Relay::new();
    let mut out = [7u32; 8];
    assert_eq!(get_peer(&relay, &mut out), 0);
    assert_eq!(peer_id(&relay), None);
    assert_eq!(take_slot(&mut relay, &mut out), 0);
    assert_eq!(out, [7; 8]);
}

#[test]
fn announced_peer_is_listed_and_cleared() {
    let mut relay = Relay::new();
    assert!(!relay.feed(&peer_frame()));
    let mut out = [7u32; 8];
    assert_eq!(get_peer(&relay, &mut out), 7);
    assert_eq!(out, [0xCAFE0001, 1, 2, 3, 4, 5, 0x80000006, 7]);
    assert_eq!(peer_id(&relay), Some(0xCAFE0001));
    assert!(!relay.feed(&[0xAA, 0x55, T_NO_PEER, 0, 0]));
    assert_eq!(get_peer(&relay, &mut out), 0);
    assert_eq!(peer_id(&relay), None);
}

#[test]
fn peer_needs_room_for_seven_words() {
    let mut relay = Relay::new();
    relay.feed(&peer_frame());
    let mut small = [7u32; 6];
    assert_eq!(get_peer(&relay, &mut small), 0);
    assert_eq!(small, [7; 6]);
    let mut exact = [0u32; 7];
    assert_eq!(get_peer(&relay, &mut exact), 7);
}

#[test]
fn peer_frame_of_another_length_is_ignored() {
    let mut relay = Relay::new();
    relay.feed(&frame(T_PEER, &[1; 24]));
    assert_eq!(peer_id(&relay), None);
    relay.feed(&frame(T_PEER, &[1; 32]));
    assert_eq!(peer_id(&relay), None);
}

#[test]
fn slot_is_taken_once() {
    let mut relay = Relay::new();
    relay.feed(&frame(T_RECV_SLOT, &words_to_bytes(&[10, 11, 12])));
    let mut out = [0u32; 8];
    assert_eq!(take_slot(&mut relay, &mut out), 3);
    assert_eq!(out, [10, 11, 12, 0, 0, 0, 0, 0]);
    assert_eq!(take_slot(&mut relay, &mut out), 0);
}

#[test]
fn newer_slot_replaces_an_untaken_one() {
    let mut relay = Relay::new();
    relay.feed(&frame(T_RECV_SLOT, &words_to_bytes(&[1, 2, 3, 4])));
    relay.feed(&frame(T_RECV_SLOT, &words_to_bytes(&[5])));
    let mut out = [0u32; 8];
    assert_eq!(take_slot(&mut relay, &mut out), 1);
    assert_eq!(out[0], 5);
}

#[test]
fn long_slots_are_cut_to_the_latch_and_to_the_reader() {
    let mut relay = Relay::new();
    let words: Vec<u32> = (100..115).collect();
    relay.feed(&frame(T_RECV_SLOT, &words_to_bytes(&words)));
    let mut out = [0u32; 20];
    assert_eq!(take_slot(&mut relay, &mut out), 14);
    assert_eq!(&out[..14], &words[..14]);
    assert_eq!(out[14], 0);
    relay.feed(&frame(T_RECV_SLOT, &words_to_bytes(&words[..14])));
    let mut small = [0u32; 8];
    assert_eq!(take_slot(&mut relay, &mut small), 8);
    assert_eq!(&small[..], &words[..8]);
    assert_eq!(take_slot(&mut relay, &mut small), 0);
}

#[test]
fn bytes_beyond_whole_words_are_no_word() {
    let mut relay = Relay::new();
    relay.feed(&frame(T_RECV_SLOT, &[1, 0, 0, 0, 2, 0, 0]));
    let mut out = [9u32; 4];
    assert_eq!(take_slot(&mut relay, &mut out), 1);
    assert_eq!(out, [1, 9, 9, 9]);
}

#[test]
fn wrong_checksum_changes_nothing() {
    let mut relay = Relay::new();
    let mut bad = peer_frame();
    *bad.last_mut().unwrap() ^= 1;
    assert!(!relay.feed(&bad));
    assert_eq!(peer_id(&relay), None);
    assert!(!relay.feed(&peer_frame()));
    assert_eq!(peer_id(&relay), Some(0xCAFE0001));
}

#[test]
fn noise_and_stray_first_bytes_are_skipped() {
    let mut relay = Relay::new();
    relay.feed(&[0x00, 0x55, 0x13, 0xFF, 0xAA, 0x01, 0xAA]);
    relay.feed(&peer_frame());
    assert_eq!(peer_id(&relay), Some(0xCAFE0001));
}

#[test]
fn stream_may_be_cut_anywhere() {
    let f = peer_frame();
    for cut in 0..=f.len() {
        let mut relay = Relay::new();
        relay.feed(&f[..cut]);
        assert_eq!(peer_id(&relay).is_some(), cut == f.len());
        relay.feed(&f[cut..]);
        assert_eq!(peer_id(&relay), Some(0xCAFE0001));
    }
}

#[test]
fn overlong_frame_is_passed_over_whole() {
    let mut relay = Relay::new();
    relay.feed(&peer_frame());
    relay.feed(&frame(T_RECV_SLOT, &words_to_bytes(&[42])));
    assert!(!relay.feed(&[0xAA, 0x55, T_NO_PEER, 61, 61]));
    assert_eq!(peer_id(&relay), Some(0xCAFE0001));
    assert!(!relay.feed(&[0u8; 61]));
    for kind in [T_NO_PEER, T_PEER, T_RECV_SLOT, T_BOOTSEL] {
        for len in [61usize, 62, 200, 255] {
            let mut inner = frame(T_NO_PEER, &[]);
            inner.extend_from_slice(&[0xAA, 0x55, 0x7F, 0x00, 0x7F]);
            inner.resize(len, 0xAA);
            assert!(!relay.feed(&frame(kind, &inner)));
            assert_eq!(peer_id(&relay), Some(0xCAFE0001));
        }
    }
    let mut out = [0u32; 8];
    assert_eq!(take_slot(&mut relay, &mut out), 1);
    assert_eq!(out[0], 42);
    relay.feed(&frame(T_NO_PEER, &[]));
    assert_eq!(peer_id(&relay), None);
}

#[test]
fn overlong_length_asks_for_nothing() {
    let mut relay = Relay::new();
    relay.feed(&frame(T_RECV_SLOT, &words_to_bytes(&[42])));
    relay.feed(&[0xAA, 0x55, T_RECV_SLOT, 0x3D, 0x3F]);
    let mut out = [0u32; 8];
    assert_eq!(take_slot(&mut relay, &mut out), 1);
    let mut relay = Relay::new();
    assert!(!relay.feed(&[0xAA, 0x55, T_BOOTSEL, 0x3D, 0x42]));
}

#[test]
fn slices_are_polled_in_order() {
    let mut relay = Relay::new();
    let f = peer_frame();
    assert!(!poll_bytes(&mut relay, &f[..7], &f[7..]));
    assert_eq!(peer_id(&relay), Some(0xCAFE0001));
    assert!(poll_bytes(&mut relay, &[0xAA, 0x55, 0x7F, 0x00, 0x7F], &frame(T_NO_PEER, &[])));
    assert_eq!(peer_id(&relay), Some(0xCAFE0001));
}

#[test]
fn lengths_other_than_the_listed_ones() {
    let mut relay = Relay::new();
    relay.feed(&peer_frame());
    relay.feed(&frame(T_NO_PEER, &[1, 2, 3]));
    assert_eq!(peer_id(&relay), None);
    relay.feed(&frame(T_RECV_SLOT, &words_to_bytes(&[42])));
    relay.feed(&frame(T_RECV_SLOT, &[1, 2, 3]));
    let mut out = [9u32; 8];
    assert_eq!(take_slot(&mut relay, &mut out), 0);
    assert!(relay.feed(&frame(T_BOOTSEL, &[1])));
}

#[test]
fn longest_payload_is_sixty_bytes() {
    let mut relay = Relay::new();
    relay.feed(&frame(T_RECV_SLOT, &[1; 60]));
    let mut out = [0u32; 14];
    assert_eq!(take_slot(&mut relay, &mut out), 14);
    assert_eq!(out, [0x01010101; 14]);
}

#[test]
fn unknown_types_are_ignored() {
    let mut relay = Relay::new();
    relay.feed(&peer_frame());
    assert!(!relay.feed(&frame(0x33, &[1, 2, 3])));
    assert_eq!(peer_id(&relay), Some(0xCAFE0001));
}

#[test]
fn bootloader_frame_asks_for_a_reboot() {
    let mut relay = Relay::new();
    assert!(!relay.feed(&[0xAA, 0x55, T_BOOTSEL, 0x00]));
    assert!(relay.byte(0x7F));
    assert!(!relay.feed(&[0xAA, 0x55, T_BOOTSEL, 0x00, 0x7E]));
}

#[test]
fn poll_runs_uart_bytes_before_ring_bytes() {
    let mut relay = Relay::new();
    let mut ring: Ring<RING_SZ> = Ring::new();
    let f = peer_frame();
    for &b in &f[10..] {
        usb_push(&mut ring, b);
    }
    assert!(!poll(&mut relay, &mut ring, &f[..10]));
    assert_eq!(peer_id(&relay), Some(0xCAFE0001));
    assert_eq!(ring_pop(&mut ring), None);
}

#[test]
fn poll_takes_a_bounded_number_of_ring_bytes() {
    let mut relay = Relay::new();
    let mut ring: Ring<RING_SZ> = Ring::new();
    for i in 0..200u32 {
        usb_push(&mut ring, i as u8);
    }
    assert!(!poll(&mut relay, &mut ring, &[]));
    assert_eq!(ring_pop(&mut ring), Some(128));
}

#[test]
fn poll_reports_a_reboot_from_either_source() {
    let magic = [0xAA, 0x55, 0x7F, 0x00, 0x7F];
    let mut relay = Relay::new();
    let mut ring: Ring<RING_SZ> = Ring::new();
    assert!(poll(&mut relay, &mut ring, &magic));
    for &b in &magic {
        usb_push(&mut ring, b);
    }
    assert!(poll(&mut relay, &mut ring, &[]));
}

#[test]
fn usb_ring_drops_what_does_not_fit() {
    let mut ring: Ring<RING_SZ> = Ring::new();
    for i in 0..600u32 {
        usb_push(&mut ring, i as u8);
    }
    let mut n = 0u32;
    while let Some(b) = ring_pop(&mut ring) {
        assert_eq!(b, n as u8);
        n += 1;
    }
    assert_eq!(n, 511);
}

#[test]
fn parser_recovers_from_a_lost_byte() {
    for lost in 0..peer_frame().len() {
        let mut relay = Relay::new();
        let mut f = peer_frame();
        f.remove(lost);
        relay.feed(&f);
        relay.feed(&[0u8; 259]);
        relay.feed(&frame(T_NO_PEER, &[]));
        relay.feed(&peer_frame());
        assert_eq!(peer_id(&relay), Some(0xCAFE0001));
    }
}
