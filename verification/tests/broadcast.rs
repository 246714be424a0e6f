use arena_collections::broadcast::{chk_msg_counts, send_all};
use arena_collections::single::{delivered, send_to, MessageBus, SEND_TIMEOUT_MS};
use crossbeam_channel::{bounded, SendTimeoutError};

#[test]
fn counts_match_when_all_equal_expected() {
    assert!(chk_msg_counts(&vec![10, 10, 10], 10));
    assert!(chk_msg_counts(&vec![], 10));
}

#[test]
fn counts_do_not_match_when_one_differs() {
    assert!(!chk_msg_counts(&vec![10, 9, 10], 10));
    assert!(!chk_msg_counts(&vec![10, 10, 11], 10));
    assert!(!chk_msg_counts(&vec![0], 10));
}

#[test]
fn send_all_without_senders() {
    assert!(send_all(&vec![], &("this is the msg".to_string(), 1)));
}

#[test]
fn send_all_reaches_every_channel() {
    let (t1, r1) = bounded(1);
    let (t2, r2) = bounded(1);
    assert!(send_all(&vec![t1, t2], &("this is the msg".to_string(), 7)));
    assert_eq!(r1.try_recv(), Ok(("this is the msg".to_string(), 7)));
    assert_eq!(r2.try_recv(), Ok(("this is the msg".to_string(), 7)));
}

#[test]
fn send_all_stops_at_the_first_full_channel() {
    let (t1, r1) = bounded(1);
    let (t2, r2) = bounded(1);
    assert!(send_to(&t1, ("first".to_string(), 1)));
    assert!(!send_all(&vec![t1, t2], &("second".to_string(), 2)));
    assert_eq!(r1.try_recv(), Ok(("first".to_string(), 1)));
    assert!(r1.try_recv().is_err());
    assert!(r2.try_recv().is_err());
}

#[test]
fn send_to_reports_a_full_channel() {
    let (t, r) = bounded(1);
    assert!(send_to(&t, ("a".to_string(), 1)));
    assert!(!send_to(&t, ("b".to_string(), 2)));
    assert_eq!(r.try_recv(), Ok(("a".to_string(), 1)));
    assert!(send_to(&t, ("c".to_string(), 3)));
}

#[test]
fn send_to_reports_a_closed_channel() {
    let (t, r) = bounded(1);
    drop(r);
    assert!(!send_to(&t, ("a".to_string(), 1)));
}

#[test]
fn delivered_tells_the_outcomes_apart() {
    assert!(delivered(&Ok(())));
    assert!(!delivered(&Err(SendTimeoutError::Timeout(("a".to_string(), 1)))));
    assert!(!delivered(&Err(SendTimeoutError::Disconnected(("a".to_string(), 1)))));
}

#[test]
fn send_waits_a_tenth_of_a_second() {
    assert_eq!(SEND_TIMEOUT_MS, 100);
}

#[test]
fn bus_hands_out_its_receiving_end() {
    let mb = MessageBus::new(2);
    let r1 = mb.get_recvr();
    let r2 = mb.get_recvr();
    assert!(mb.send(("x".to_string(), 1)));
    assert!(mb.send(("y".to_string(), 2)));
    assert_eq!(r1.try_recv(), Ok(("x".to_string(), 1)));
    assert_eq!(r2.try_recv(), Ok(("y".to_string(), 2)));
    assert!(r1.try_recv().is_err());
}

#[test]
fn bus_without_room_takes_nothing() {
    let mb = MessageBus::new(0);
    assert!(!mb.send(("x".to_string(), 1)));
}
