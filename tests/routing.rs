use fanout::{channel, Receiver};
use std::sync::mpsc::{RecvError, RecvTimeoutError, SendError, TryRecvError};
use std::time::{Duration, Instant};

fn take(rx: &Receiver<i32>) -> Option<i32> {
    match rx.try_recv() {
        Ok(v) => Some(v),
        Err(TryRecvError::Empty) => None,
        Err(TryRecvError::Disconnected) => panic!("link closed while the sender lives"),
    }
}

#[test]
fn scenario_rotation_and_pruning() {
    let (mut s, r0) = channel::<i32>();
    let r1 = s.new_receiver();
    assert_eq!(s.send(1), Ok(()));
    assert_eq!(take(&r1), Some(1));
    assert_eq!(take(&r0), None);
    assert_eq!(s.send(2), Ok(()));
    assert_eq!(take(&r0), Some(2));
    assert_eq!(take(&r1), None);
    drop(r1);
    assert_eq!(s.send(3), Ok(()));
    assert_eq!(take(&r0), Some(3));
    assert_eq!(s.send(4), Ok(()));
    assert_eq!(take(&r0), Some(4));
}

#[test]
fn single_receiver_gets_everything() {
    let (mut s, r0) = channel::<i32>();
    for v in 0..5 {
        assert_eq!(s.send(v), Ok(()));
    }
    for v in 0..5 {
        assert_eq!(take(&r0), Some(v));
    }
    assert_eq!(take(&r0), None);
}

#[test]
fn round_robin_hands_one_value_to_each() {
    let (mut s, r0) = channel::<i32>();
    let r1 = s.new_receiver();
    let r2 = s.new_receiver();
    for v in 10..13 {
        assert_eq!(s.send(v), Ok(()));
    }
    // The walk starts one past the cursor, which stands at the first link.
    assert_eq!(take(&r1), Some(10));
    assert_eq!(take(&r2), Some(11));
    assert_eq!(take(&r0), Some(12));
    for rx in [&r0, &r1, &r2] {
        assert_eq!(take(rx), None);
    }
    // The next lap keeps the same order.
    for v in 13..16 {
        assert_eq!(s.send(v), Ok(()));
    }
    assert_eq!(take(&r1), Some(13));
    assert_eq!(take(&r2), Some(14));
    assert_eq!(take(&r0), Some(15));
}

#[test]
fn no_value_lost_or_duplicated() {
    let (mut s, r0) = channel::<i32>();
    let r1 = s.new_receiver();
    let r2 = s.new_receiver();
    let r3 = s.new_receiver();
    for v in 0..40 {
        assert_eq!(s.send(v), Ok(()));
    }
    let mut got: Vec<i32> = Vec::new();
    let mut per: Vec<usize> = Vec::new();
    for rx in [&r0, &r1, &r2, &r3] {
        let mut n = 0usize;
        while let Some(v) = take(rx) {
            got.push(v);
            n += 1;
        }
        per.push(n);
    }
    got.sort();
    assert_eq!(got, (0..40).collect::<Vec<i32>>());
    assert_eq!(per, vec![10, 10, 10, 10]);
}

#[test]
fn receiver_added_mid_lap_comes_last() {
    let (mut s, r0) = channel::<i32>();
    let r1 = s.new_receiver();
    assert_eq!(s.send(1), Ok(()));
    let r2 = s.new_receiver();
    assert_eq!(s.send(2), Ok(()));
    assert_eq!(s.send(3), Ok(()));
    assert_eq!(s.send(4), Ok(()));
    assert_eq!(take(&r1), Some(1));
    assert_eq!(take(&r2), Some(2));
    assert_eq!(take(&r0), Some(3));
    assert_eq!(take(&r1), Some(4));
}

#[test]
fn dropped_receiver_is_skipped_and_never_targeted_again() {
    let (mut s, r0) = channel::<i32>();
    let r1 = s.new_receiver();
    let r2 = s.new_receiver();
    drop(r1);
    // The walk would reach r1 first; r1 is pruned and r2 takes the value.
    assert_eq!(s.send(1), Ok(()));
    assert_eq!(take(&r2), Some(1));
    assert_eq!(take(&r0), None);
    for v in 2..8 {
        assert_eq!(s.send(v), Ok(()));
    }
    let mut from0 = Vec::new();
    let mut from2 = Vec::new();
    while let Some(v) = take(&r0) {
        from0.push(v);
    }
    while let Some(v) = take(&r2) {
        from2.push(v);
    }
    assert_eq!(from0, vec![2, 4, 6]);
    assert_eq!(from2, vec![3, 5, 7]);
}

#[test]
fn several_dead_links_in_a_row_wrap_to_the_front() {
    let (mut s, r0) = channel::<i32>();
    let r1 = s.new_receiver();
    let r2 = s.new_receiver();
    drop(r1);
    drop(r2);
    assert_eq!(s.send(5), Ok(()));
    assert_eq!(take(&r0), Some(5));
    assert_eq!(s.send(6), Ok(()));
    assert_eq!(take(&r0), Some(6));
}

#[test]
fn all_receivers_dropped_gives_the_value_back() {
    let (mut s, r0) = channel::<String>();
    let r1 = s.new_receiver();
    drop(r0);
    drop(r1);
    assert_eq!(s.send("a".to_string()), Err(SendError("a".to_string())));
    assert_eq!(s.send("b".to_string()), Err(SendError("b".to_string())));
    assert_eq!(s.send("c".to_string()), Err(SendError("c".to_string())));
}

#[test]
fn new_receiver_after_exhaustion_receives() {
    let (mut s, r0) = channel::<i32>();
    drop(r0);
    assert_eq!(s.send(1), Err(SendError(1)));
    assert_eq!(s.send(2), Err(SendError(2)));
    let r1 = s.new_receiver();
    assert_eq!(s.send(3), Ok(()));
    assert_eq!(take(&r1), Some(3));
    let r2 = s.new_receiver();
    assert_eq!(s.send(4), Ok(()));
    assert_eq!(s.send(5), Ok(()));
    assert_eq!(take(&r2), Some(4));
    assert_eq!(take(&r1), Some(5));
}

#[test]
fn recv_timeout_times_out_without_taking_a_value() {
    let (mut s, r0) = channel::<i32>();
    let begin = Instant::now();
    assert_eq!(r0.recv_timeout(Duration::from_millis(100)), Err(RecvTimeoutError::Timeout));
    let waited = begin.elapsed();
    assert!(waited >= Duration::from_millis(100));
    assert!(waited < Duration::from_millis(2000));
    assert_eq!(s.send(42), Ok(()));
    assert_eq!(r0.recv(), Ok(42));
}

#[test]
fn recv_timeout_returns_a_waiting_value() {
    let (mut s, r0) = channel::<i32>();
    assert_eq!(s.send(9), Ok(()));
    assert_eq!(r0.recv_timeout(Duration::from_millis(100)), Ok(9));
}

#[test]
fn closed_link_is_told_from_an_empty_one() {
    let (mut s, r0) = channel::<i32>();
    assert_eq!(r0.try_recv(), Err(TryRecvError::Empty));
    assert_eq!(s.send(1), Ok(()));
    drop(s);
    assert_eq!(r0.try_recv(), Ok(1));
    assert_eq!(r0.try_recv(), Err(TryRecvError::Disconnected));
    assert_eq!(r0.recv(), Err(RecvError));
    assert_eq!(
        r0.recv_timeout(Duration::from_millis(10)),
        Err(RecvTimeoutError::Disconnected)
    );
}

#[test]
fn values_buffered_before_the_sender_goes_are_still_received() {
    let (mut s, r0) = channel::<i32>();
    let r1 = s.new_receiver();
    for v in 1..5 {
        assert_eq!(s.send(v), Ok(()));
    }
    drop(s);
    assert_eq!(r0.recv(), Ok(2));
    assert_eq!(r0.recv(), Ok(4));
    assert_eq!(r0.recv(), Err(RecvError));
    assert_eq!(r1.recv(), Ok(1));
    assert_eq!(r1.recv(), Ok(3));
    assert_eq!(r1.recv(), Err(RecvError));
}

#[test]
fn sequence_ends_when_the_sender_is_gone_and_stays_ended() {
    let (mut s, r0) = channel::<i32>();
    for v in 1..4 {
        assert_eq!(s.send(v), Ok(()));
    }
    drop(s);
    let mut it = r0.into_iter();
    assert_eq!(it.next(), Some(1));
    assert_eq!(it.next(), Some(2));
    assert_eq!(it.next(), Some(3));
    assert_eq!(it.next(), None);
    assert_eq!(it.next(), None);
}

#[test]
fn settle_on_acceptance_keeps_links_and_cursor() {
    let (mut s, r0) = channel::<i32>();
    let r1 = s.new_receiver();
    assert_eq!(s.settle(Ok(())), Ok(None));
    // The cursor still stands on the first link, so the walk starts at r1.
    assert_eq!(s.send(1), Ok(()));
    assert_eq!(take(&r1), Some(1));
    assert_eq!(take(&r0), None);
}

#[test]
fn settle_on_refusal_prunes_the_link_under_the_cursor() {
    let (mut s, r0) = channel::<i32>();
    let r1 = s.new_receiver();
    assert_eq!(s.settle(Err(SendError(5))), Ok(Some(5)));
    // The first link is gone: r1 is the only one left and takes every value.
    assert_eq!(s.send(6), Ok(()));
    assert_eq!(s.send(7), Ok(()));
    assert_eq!(take(&r1), Some(6));
    assert_eq!(take(&r1), Some(7));
    // Pruning dropped the producer end of r0's link.
    assert_eq!(r0.try_recv(), Err(TryRecvError::Disconnected));
}

#[test]
fn settle_on_refusal_of_the_last_link_gives_the_error_back() {
    let (mut s, r0) = channel::<i32>();
    assert_eq!(s.settle(Err(SendError(7))), Err(SendError(7)));
    assert_eq!(s.send(8), Err(SendError(8)));
    assert_eq!(r0.try_recv(), Err(TryRecvError::Disconnected));
}

#[test]
fn settle_at_the_end_wraps_the_cursor_to_the_front() {
    let (mut s, r0) = channel::<i32>();
    let r1 = s.new_receiver();
    let r2 = s.new_receiver();
    assert_eq!(s.send(1), Ok(()));
    assert_eq!(s.send(2), Ok(()));
    // The cursor now stands on r2, the last link.
    assert_eq!(take(&r1), Some(1));
    assert_eq!(take(&r2), Some(2));
    assert_eq!(s.settle(Err(SendError(3))), Ok(Some(3)));
    // r2's link is gone and the cursor is back at r0: the walk starts at r1.
    assert_eq!(s.send(4), Ok(()));
    assert_eq!(take(&r1), Some(4));
    assert_eq!(s.send(5), Ok(()));
    assert_eq!(take(&r0), Some(5));
}
