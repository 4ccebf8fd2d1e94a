//! The reorder buffer.

use mikall::media::jitter::{JitterBuffer, Popped};

fn frame(n: u8) -> Vec<u8> {
    vec![n]
}

#[test]
fn in_order_stream_flows() {
    let mut jb = JitterBuffer::new(3);
    for n in 0..5u64 {
        jb.push(n, frame(n as u8));
    }
    for n in 0..5u8 {
        assert_eq!(jb.pop_next(), Popped::Frame(frame(n)));
    }
    assert_eq!(jb.pop_next(), Popped::Waiting);
}

#[test]
fn reordered_frames_come_out_in_order() {
    let mut jb = JitterBuffer::new(3);
    jb.push(1, frame(1));
    jb.push(0, frame(0));
    jb.push(2, frame(2));
    assert_eq!(jb.pop_next(), Popped::Frame(frame(0)));
    assert_eq!(jb.pop_next(), Popped::Frame(frame(1)));
    assert_eq!(jb.pop_next(), Popped::Frame(frame(2)));
}

#[test]
fn loss_is_concealed_after_window() {
    let mut jb = JitterBuffer::new(2);
    jb.push(0, frame(0));
    assert_eq!(jb.pop_next(), Popped::Frame(frame(0)));
    // frame 1 lost; 2 and 3 arrive
    jb.push(2, frame(2));
    jb.push(3, frame(3));
    assert_eq!(jb.pop_next(), Popped::Missing); // 1 concealed
    assert_eq!(jb.pop_next(), Popped::Frame(frame(2)));
    assert_eq!(jb.pop_next(), Popped::Frame(frame(3)));
    assert_eq!(jb.concealed(), 1);
}

#[test]
fn late_frames_are_dropped() {
    let mut jb = JitterBuffer::new(2);
    jb.push(0, frame(0));
    assert_eq!(jb.pop_next(), Popped::Frame(frame(0)));
    jb.push(0, frame(0)); // duplicate of already-played frame
    assert_eq!(jb.dropped_late(), 1);
    assert_eq!(jb.pop_next(), Popped::Waiting);
}

#[test]
fn waits_within_reorder_window() {
    let mut jb = JitterBuffer::new(3);
    jb.push(0, frame(0));
    assert_eq!(jb.pop_next(), Popped::Frame(frame(0)));
    jb.push(2, frame(2)); // 1 might still arrive
    assert_eq!(jb.pop_next(), Popped::Waiting);
    jb.push(1, frame(1)); // it does
    assert_eq!(jb.pop_next(), Popped::Frame(frame(1)));
    assert_eq!(jb.pop_next(), Popped::Frame(frame(2)));
}

#[test]
fn a_jump_beyond_the_window_is_given_up_slot_by_slot() {
    let mut jb = JitterBuffer::new(0);
    jb.push(5, frame(5));
    assert_eq!(jb.pop_next(), Popped::Frame(frame(5)));
    jb.push(8, frame(8));
    assert_eq!(jb.pop_next(), Popped::Missing);
    assert_eq!(jb.pop_next(), Popped::Missing);
    assert_eq!(jb.pop_next(), Popped::Frame(frame(8)));
    assert_eq!(jb.pop_next(), Popped::Waiting);
    assert_eq!((jb.concealed(), jb.dropped_late()), (2, 0));
    jb.push(u64::MAX, frame(9));
    assert!(jb.has_room());
}

#[test]
fn every_slot_comes_once() {
    let mut jb = JitterBuffer::new(2);
    let mut slots: Vec<Option<u8>> = Vec::new();
    for counter in [12u64, 10, 13, 12, 11, 16, 10, 18, 17, 19] {
        jb.push(counter, vec![counter as u8]);
        loop {
            match jb.pop_next() {
                Popped::Frame(f) => slots.push(Some(f[0])),
                Popped::Missing => slots.push(None),
                Popped::Waiting => break,
            }
        }
    }
    let expected: Vec<Option<u8>> = (12..=19)
        .map(|n| if n == 14 || n == 15 { None } else { Some(n) })
        .collect();
    assert_eq!(slots, expected);
    assert_eq!(jb.concealed(), 2);
    assert_eq!(jb.dropped_late(), 4);
}
