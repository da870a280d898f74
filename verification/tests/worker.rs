use total_order_multicast::errors::WorkerError;
use total_order_multicast::master_types::{LamportClock, MasterMessage};
use total_order_multicast::worker_types::{BroadcastMessage, Worker, WorkerResponse};

fn msg(worker_id: u8, sequence_number: i64, content: u8) -> BroadcastMessage {
    BroadcastMessage { worker_id, sequence_number, content, deliverable: false }
}

fn accepted(time: u64, m: BroadcastMessage) -> MasterMessage {
    MasterMessage::AcceptedProposalBroadcast { logical_time: LamportClock { time }, broadcast_message: m }
}

const NOW: u128 = 1_700_000_000_000;

#[test]
fn new_worker_is_empty() {
    let w = Worker::new(3);
    assert_eq!(w.worker_id(), 3);
    assert_eq!(w.state(), (0, 0));
    assert_eq!(w.undelivered_len(), 0);
    assert_eq!(w.deliverable_len(), 0);
    assert_eq!(w.delivered_len(), 0);
    assert!(w.next_proposal().is_none());
}

#[test]
fn sequence_number_formula() {
    let w = Worker::new(2);
    assert_eq!(w.generate_sequence_number(1000, 3), 1_000_203);
    assert_eq!(w.generate_sequence_number(NOW, 0), 1_700_000_000_000_200);
}

#[test]
fn sequence_number_of_a_timestamp_beyond_i128_wraps() {
    let w = Worker::new(0);
    assert_eq!(w.generate_sequence_number(u128::MAX, 5), -1000 + 5);
}

#[test]
fn initialize_fills_ten_messages() {
    let mut w = Worker::new(4);
    assert!(w.initialize_message_queue(NOW).is_ok());
    assert_eq!(w.undelivered_len(), 10);
    let first = w.next_proposal().unwrap();
    assert_eq!(first.sequence_number, 1_700_000_000_000_400);
    assert_eq!(first.worker_id, 4);
    assert!(first.content <= 25);
    assert!(!first.deliverable);
}

#[test]
fn initialized_messages_have_increasing_sequence_numbers_and_random_contents() {
    let mut w = Worker::new(2);
    w.initialize_message_queue(NOW).unwrap();
    let mut seqs = Vec::new();
    let mut contents = Vec::new();
    for i in 0..10u64 {
        let m = w.next_proposal().unwrap();
        seqs.push(m.sequence_number);
        contents.push(m.content);
        assert!(m.content <= 25);
        // Accept the front as this worker's own message so that it leaves the queue.
        w.handle_master_message(accepted(i, m)).unwrap();
    }
    let expected: Vec<i64> = (0..10).map(|i| 1_700_000_000_000_200 + i).collect();
    assert_eq!(seqs, expected);
    assert!(contents.iter().any(|c| *c != contents[0]));
    assert_eq!(w.undelivered_len(), 0);
    assert_eq!(w.delivered_len(), 10);
    let mut state = (0u8, 0u8);
    for c in contents {
        state = (state.1, (state.0 + c) % 100);
    }
    assert_eq!(w.state(), state);
}

#[test]
fn initialize_fails_when_first_sequence_number_is_too_large() {
    let mut w = Worker::new(0);
    let r = w.initialize_message_queue(100_000_000_000_000_000);
    assert_eq!(r, Err(WorkerError::SequenceNumberOverflow { index: 0 }));
    assert_eq!(w.undelivered_len(), 0);
}

#[test]
fn initialize_keeps_messages_before_the_first_overflow() {
    // 9_223_372_036_854_775 * 1000 + 8 * 100 + i fits an i64 for i <= 7 only.
    let mut w = Worker::new(8);
    let r = w.initialize_message_queue(9_223_372_036_854_775);
    assert_eq!(r, Err(WorkerError::SequenceNumberOverflow { index: 8 }));
    assert_eq!(w.undelivered_len(), 8);
    assert_eq!(w.next_proposal().unwrap().sequence_number, i64::MAX - 7);
}

#[test]
fn rfp_proposes_lowest_undelivered_message() {
    let mut w = Worker::new(1);
    w.initialize_message_queue(NOW).unwrap();
    let r = w.handle_master_message(MasterMessage::Rfp { master_clock: LamportClock { time: 9 } });
    match r {
        Ok(WorkerResponse::RfpResponse(rr)) => {
            assert_eq!(rr.proposed_message.logical_time.time, 9);
            assert_eq!(rr.proposed_message.worker_id, 1);
            assert_eq!(rr.proposed_message.proposal.sequence_number, 1_700_000_000_000_100);
        },
        _ => panic!("expected a proposal"),
    }
    assert_eq!(w.undelivered_len(), 10);
}

#[test]
fn rfp_on_empty_queue_reports_empty() {
    let mut w = Worker::new(1);
    let r = w.handle_master_message(MasterMessage::Rfp { master_clock: LamportClock { time: 0 } });
    assert!(matches!(r, Ok(WorkerResponse::MessageQueueEmpty)));
}

#[test]
fn accepted_own_proposal_leaves_queue_and_is_delivered() {
    let mut w = Worker::new(1);
    w.initialize_message_queue(NOW).unwrap();
    let front = w.next_proposal().unwrap();
    let r = w.handle_master_message(accepted(0, front));
    assert!(matches!(
        r,
        Ok(WorkerResponse::StateUpdateConfirmed { worker_id: 1, logical_time: LamportClock { time: 0 } })
    ));
    assert_eq!(w.undelivered_len(), 9);
    let delivered = w.delivered_at(0).unwrap();
    assert_eq!(delivered.sequence_number, front.sequence_number);
    assert!(delivered.deliverable);
    assert_eq!(w.deliverable_len(), 0);
    assert_eq!(w.state(), (0, front.content));
}

#[test]
fn fresh_worker_queues_a_later_logical_time() {
    let mut w = Worker::new(1);
    let r = w.handle_master_message(accepted(1, msg(2, 10, 7)));
    assert!(r.is_ok());
    assert_eq!(w.delivered_len(), 0);
    assert_eq!(w.deliverable_at(1).unwrap().sequence_number, 10);
    assert_eq!(w.state(), (0, 0));
}

#[test]
fn accepted_foreign_proposal_keeps_own_queue() {
    let mut w = Worker::new(1);
    w.initialize_message_queue(NOW).unwrap();
    let r = w.handle_master_message(accepted(5, msg(2, 77, 3)));
    assert!(r.is_ok());
    assert_eq!(w.undelivered_len(), 10);
    assert_eq!(w.deliverable_at(5).unwrap().sequence_number, 77);
}

#[test]
fn foreign_proposal_with_own_sequence_number_keeps_own_queue() {
    let mut w = Worker::new(1);
    w.initialize_message_queue(NOW).unwrap();
    let front = w.next_proposal().unwrap();
    let foreign = msg(2, front.sequence_number, 9);
    w.handle_master_message(accepted(0, foreign)).unwrap();
    assert_eq!(w.undelivered_len(), 10);
    assert_eq!(w.next_proposal().unwrap().content, front.content);
    let delivered = w.delivered_at(0).unwrap();
    assert_eq!(delivered.worker_id, 2);
    assert_eq!(delivered.content, 9);
    assert!(!delivered.deliverable);
}

#[test]
fn next_logical_time_is_delivered_and_updates_state() {
    let mut w = Worker::new(1);
    w.handle_master_message(accepted(0, msg(2, 10, 30))).unwrap();
    assert_eq!(w.delivered_at(0).unwrap().content, 30);
    assert_eq!(w.state(), (0, 30));
    w.handle_master_message(accepted(1, msg(2, 11, 90))).unwrap();
    assert_eq!(w.state(), (30, 90));
    w.handle_master_message(accepted(2, msg(2, 12, 85))).unwrap();
    // (30 + 85) % 100 == 15
    assert_eq!(w.state(), (90, 15));
    assert_eq!(w.delivered_len(), 3);
}

#[test]
fn waiting_messages_are_delivered_in_order_once_the_gap_closes() {
    let mut w = Worker::new(0);
    w.handle_master_message(accepted(0, msg(1, 1, 0))).unwrap();
    w.handle_master_message(accepted(2, msg(2, 3, 7))).unwrap();
    assert_eq!(w.delivered_len(), 1);
    assert_eq!(w.deliverable_len(), 1);
    w.handle_master_message(accepted(1, msg(1, 2, 5))).unwrap();
    assert!(w.delivered_at(0).is_some());
    assert!(w.delivered_at(1).is_some());
    assert!(w.delivered_at(2).is_some());
    assert_eq!(w.deliverable_len(), 0);
    assert_eq!(w.state(), (5, 7));
}

#[test]
fn out_of_order_arrivals_are_delivered_in_logical_time_order() {
    let mut w = Worker::new(0);
    w.handle_master_message(accepted(3, msg(1, 4, 40))).unwrap();
    w.handle_master_message(accepted(1, msg(1, 2, 20))).unwrap();
    w.handle_master_message(accepted(2, msg(1, 3, 30))).unwrap();
    assert_eq!(w.delivered_len(), 0);
    assert_eq!(w.deliverable_len(), 3);
    w.handle_master_message(accepted(0, msg(1, 1, 10))).unwrap();
    assert_eq!(w.delivered_len(), 4);
    assert_eq!(w.deliverable_len(), 0);
    // (0,0) -> (0,10) -> (10,20) -> (20,40) -> (40,60)
    assert_eq!(w.state(), (40, 60));
}

#[test]
fn an_already_delivered_logical_time_is_queued_and_not_delivered() {
    let mut w = Worker::new(0);
    w.handle_master_message(accepted(0, msg(1, 1, 10))).unwrap();
    let r = w.handle_master_message(accepted(0, msg(1, 9, 50)));
    assert!(r.is_ok());
    assert_eq!(w.delivered_len(), 1);
    assert_eq!(w.delivered_at(0).unwrap().content, 10);
    assert_eq!(w.deliverable_len(), 1);
    assert_eq!(w.deliverable_at(0).unwrap().content, 50);
    assert_eq!(w.state(), (0, 10));
    // Delivery goes on at time 1; the message queued under 0 stays queued.
    w.handle_master_message(accepted(1, msg(1, 2, 20))).unwrap();
    assert_eq!(w.delivered_len(), 2);
    assert_eq!(w.deliverable_len(), 1);
    assert_eq!(w.state(), (10, 20));
}

#[test]
fn own_front_taken_out_is_marked_deliverable() {
    let mut w = Worker::new(1);
    w.initialize_message_queue(NOW).unwrap();
    let front = w.next_proposal().unwrap();
    w.handle_master_message(accepted(3, front)).unwrap();
    let waiting = w.deliverable_at(3).unwrap();
    assert_eq!(waiting.sequence_number, front.sequence_number);
    assert!(waiting.deliverable);
    assert_eq!(w.undelivered_len(), 9);
}

#[test]
fn rfp_leaves_the_worker_unchanged() {
    let mut w = Worker::new(1);
    w.initialize_message_queue(NOW).unwrap();
    let rfp = MasterMessage::Rfp { master_clock: LamportClock { time: 4 } };
    let a = w.handle_master_message(rfp).unwrap();
    let b = w.handle_master_message(rfp).unwrap();
    match (a, b) {
        (WorkerResponse::RfpResponse(x), WorkerResponse::RfpResponse(y)) => {
            assert_eq!(x.proposed_message.proposal.sequence_number, y.proposed_message.proposal.sequence_number);
            assert_eq!(x.proposed_message.proposal.content, y.proposed_message.proposal.content);
        },
        _ => panic!("expected proposals"),
    }
    assert_eq!(w.undelivered_len(), 10);
    assert_eq!(w.state(), (0, 0));
}
