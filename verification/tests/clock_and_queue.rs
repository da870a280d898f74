use total_order_multicast::master_types::LamportClock;
use total_order_multicast::message_queue::MessageQueue;
use total_order_multicast::worker_types::BroadcastMessage;
use std::cmp::Ordering;

fn msg(worker_id: u8, sequence_number: i64, content: u8) -> BroadcastMessage {
    BroadcastMessage { worker_id, sequence_number, content, deliverable: false }
}

#[test]
fn clock_starts_at_zero() {
    let c = LamportClock::new();
    assert_eq!(c.time(), 0);
}

#[test]
fn clock_increment_adds_one() {
    let mut c = LamportClock::new();
    c.increment();
    c.increment();
    assert_eq!(c.time(), 2);
}

#[test]
fn clock_adjust_moves_past_later_incoming_time() {
    let mut c = LamportClock::new();
    c.adjust(5);
    assert_eq!(c.time(), 6);
}

#[test]
fn clock_adjust_with_older_time_ticks_once() {
    let mut c = LamportClock { time: 10 };
    c.adjust(2);
    assert_eq!(c.time(), 11);
    let mut d = LamportClock { time: 10 };
    d.increment();
    assert_eq!(c, d);
}

#[test]
fn clocks_are_ordered_by_time() {
    let a = LamportClock { time: 3 };
    let b = LamportClock { time: 7 };
    assert!(a < b);
    assert_eq!(a.cmp(&b), Ordering::Less);
}

#[test]
fn broadcast_messages_compare_by_sequence_number_only() {
    let a = msg(1, 42, 3);
    let b = msg(2, 42, 9);
    let c = msg(0, 50, 3);
    assert!(a == b);
    assert!(a != c);
    assert_eq!(a.partial_cmp(&c), Some(Ordering::Less));
    assert_eq!(c.partial_cmp(&a), Some(Ordering::Greater));
    assert_eq!(a.partial_cmp(&b), Some(Ordering::Equal));
}

#[test]
fn queue_peeks_lowest_sequence_number() {
    let mut q = MessageQueue::new();
    assert!(q.is_empty());
    assert!(q.peek().is_none());
    q.push(msg(1, 30, 1));
    q.push(msg(1, 10, 2));
    q.push(msg(1, 20, 3));
    assert_eq!(q.len(), 3);
    assert_eq!(q.peek().unwrap().sequence_number, 10);
}

#[test]
fn queue_pops_in_order_of_sequence_number() {
    let mut q = MessageQueue::new();
    for s in [5i64, -3, 12, 0, 7] {
        q.push(msg(0, s, 0));
    }
    let mut out = Vec::new();
    while let Some(m) = q.pop() {
        out.push(m.sequence_number);
    }
    assert_eq!(out, vec![-3, 0, 5, 7, 12]);
    assert!(q.pop().is_none());
}

#[test]
fn queue_keeps_arrival_order_among_equal_sequence_numbers() {
    let mut q = MessageQueue::new();
    q.push(msg(0, 4, 1));
    q.push(msg(0, 4, 2));
    q.push(msg(0, 1, 3));
    assert_eq!(q.pop().unwrap().content, 3);
    assert_eq!(q.pop().unwrap().content, 1);
    assert_eq!(q.pop().unwrap().content, 2);
}
