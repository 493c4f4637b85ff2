use adapter::ring::{pop_run, pop_slot, push_run, push_slot, slot_at, Ring, Run};
use adapter::uart_link::send32;
use adapter::words::{word_from_bytes, words_to_bytes};

#[test]
fn words_become_little_endian_bytes() {
    assert_eq!(
        words_to_bytes(&[0x01234567, 0xAABBCCDD]),
        vec![0x67, 0x45, 0x23, 0x01, 0xDD, 0xCC, 0xBB, 0xAA]
    );
    assert_eq!(words_to_bytes(&[]), Vec::<u8>::new());
}

#[test]
fn words_are_read_back() {
    let words = [0u32, 1, 0xFFFF_FFFF, 0x8000_0000, 0x0102_0304];
    let bytes = words_to_bytes(&words);
    for (k, w) in words.iter().enumerate() {
        assert_eq!(word_from_bytes(&bytes, 4 * k), *w);
    }
    assert_eq!(word_from_bytes(&[9, 0x78, 0x56, 0x34, 0x12, 9], 1), 0x12345678);
}

#[test]
fn uart_gets_little_endian_words() {
    assert_eq!(send32(&[0x9966_0110, 7]), vec![0x10, 0x01, 0x66, 0x99, 7, 0, 0, 0]);
}

#[test]
fn slots_wrap_and_keep_one_free() {
    assert_eq!(push_slot(0, 0, 4), Some(1));
    assert_eq!(push_slot(3, 1, 4), Some(0));
    assert_eq!(push_slot(3, 0, 4), None);
    assert_eq!(push_slot(0, 1, 4), None);
    assert_eq!(pop_slot(0, 0, 4), None);
    assert_eq!(pop_slot(2, 1, 4), Some(2));
    assert_eq!(pop_slot(0, 3, 4), Some(0));
}

#[test]
fn ring_is_first_in_first_out_and_drops_when_full() {
    let mut ring: Ring<4> = Ring::new();
    assert_eq!(ring.pop(), None);
    for b in 1..=5u8 {
        ring.push(b);
    }
    assert_eq!(ring.pop(), Some(1));
    ring.push(6);
    assert_eq!(ring.pop(), Some(2));
    assert_eq!(ring.pop(), Some(3));
    assert_eq!(ring.pop(), Some(6));
    assert_eq!(ring.pop(), None);
}

#[test]
fn ring_survives_many_rounds() {
    let mut ring: Ring<7> = Ring::new();
    for round in 0..100u32 {
        for i in 0..5u32 {
            ring.push((round * 5 + i) as u8);
        }
        for i in 0..5u32 {
            assert_eq!(ring.pop(), Some((round * 5 + i) as u8));
        }
    }
}

#[test]
fn ring_of_one_slot_holds_nothing() {
    let mut ring: Ring<1> = Ring::new();
    ring.push(1);
    assert_eq!(ring.pop(), None);
}

#[test]
fn runs_wrap_and_stop_at_the_room_and_at_the_bytes() {
    assert_eq!(slot_at(2, 1, 4), 3);
    assert_eq!(slot_at(3, 2, 4), 1);
    assert_eq!(push_run(0, 0, 4, 2), Run { len: 2, next: 2 });
    assert_eq!(push_run(3, 2, 4, 9), Run { len: 2, next: 1 });
    assert_eq!(push_run(1, 2, 4, 9), Run { len: 0, next: 1 });
    assert_eq!(pop_run(1, 3, 4, 9), Run { len: 2, next: 1 });
    assert_eq!(pop_run(1, 3, 4, 1), Run { len: 1, next: 0 });
    assert_eq!(pop_run(3, 3, 4, 9), Run { len: 0, next: 3 });
}

#[test]
fn extend_keeps_what_fits_in_order() {
    let mut ring: Ring<5> = Ring::new();
    ring.extend(&[1, 2, 3]);
    assert_eq!(ring.pop(), Some(1));
    assert_eq!(ring.pop(), Some(2));
    ring.extend(&[4, 5, 6, 7, 8]);
    for b in [3u8, 4, 5, 6] {
        assert_eq!(ring.pop(), Some(b));
    }
    assert_eq!(ring.pop(), None);
    ring.extend(&[]);
    assert_eq!(ring.pop(), None);
}

#[test]
fn drain_stops_at_the_buffer_or_the_end() {
    let mut ring: Ring<8> = Ring::new();
    for b in 1..=5u8 {
        ring.push(b);
    }
    let mut out = [9u8; 3];
    assert_eq!(ring.drain(&mut out), 3);
    assert_eq!(out, [1, 2, 3]);
    assert_eq!(ring.drain(&mut out), 2);
    assert_eq!(out, [4, 5, 3]);
    assert_eq!(ring.drain(&mut out), 0);
    assert_eq!(out, [4, 5, 3]);
}

/// A producer that works with an old copy of the consumer's index loses nothing but room.
#[test]
fn lagging_producer_overwrites_nothing() {
    let size: usize = 4;
    let mut buf = [0u8; 4];
    let (mut head, mut tail) = (0usize, 0usize);
    for b in [1u8, 2] {
        buf[head] = b;
        head = push_slot(head, tail, size).unwrap();
    }
    let seen_tail = tail;
    tail = pop_slot(head, tail, size).unwrap();
    let next = push_slot(head, seen_tail, size).unwrap();
    buf[head] = 3;
    head = next;
    assert_eq!(push_slot(head, seen_tail, size), None);
    assert!(push_slot(head, tail, size).is_some());
    assert_eq!(buf[tail], 2);
    tail = pop_slot(head, tail, size).unwrap();
    assert_eq!(buf[tail], 3);
    tail = pop_slot(head, tail, size).unwrap();
    assert_eq!(pop_slot(head, tail, size), None);
}
