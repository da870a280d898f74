use total_order_multicast::errors::{MasterInternalError, ProposalHandlingErrors};
use total_order_multicast::master_types::{
    ActiveWorkerStates, LamportClock, Master, MasterMessage, WorkerId, WorkerState,
};
use total_order_multicast::worker_types::{BroadcastMessage, Proposal, RfpResponse, WorkerResponse};

fn proposal(time: u64, worker_id: u8, sequence_number: i64) -> WorkerResponse {
    WorkerResponse::RfpResponse(RfpResponse {
        proposed_message: Proposal {
            logical_time: LamportClock { time },
            worker_id,
            proposal: BroadcastMessage { worker_id, sequence_number, content: worker_id, deliverable: false },
        },
    })
}

fn sorted_ids(v: Vec<WorkerId>) -> Vec<u8> {
    let mut ids: Vec<u8> = v.into_iter().map(|w| w.0).collect();
    ids.sort();
    ids
}

#[test]
fn new_master_knows_its_workers_in_start_state() {
    let m = Master::new(4);
    assert_eq!(m.worker_count(), 4);
    assert_eq!(m.response_count(), 0);
    assert_eq!(m.logical_clock().time(), 0);
    for i in 0..4u8 {
        assert_eq!(m.worker_state(WorkerId(i)), Some(WorkerState::Start));
    }
    assert_eq!(m.worker_state(WorkerId(4)), None);
    assert!(m.check_active_workers().is_empty());
    assert!(m.check_non_active_workers().is_empty());
}

#[test]
fn worker_lists_follow_tracked_states() {
    let mut m = Master::new(5);
    m.track_worker_status(WorkerId(1), WorkerState::Active(ActiveWorkerStates::EmptyMessageQueue));
    m.track_worker_status(WorkerId(4), WorkerState::Active(ActiveWorkerStates::ProcessingQueuedMessages));
    m.track_worker_status(WorkerId(2), WorkerState::PossibleFault);
    m.track_worker_status(WorkerId(3), WorkerState::Dead);
    assert_eq!(sorted_ids(m.check_active_workers()), vec![1, 4]);
    assert_eq!(sorted_ids(m.check_possible_fault_workers()), vec![2]);
    assert_eq!(sorted_ids(m.check_dead_workers()), vec![3]);
    let mut non_active = m.check_non_active_workers();
    non_active.sort_by_key(|p| p.0 .0);
    assert_eq!(non_active, vec![(WorkerId(2), WorkerState::PossibleFault), (WorkerId(3), WorkerState::Dead)]);
}

#[test]
fn tracking_an_unknown_worker_adds_it() {
    let mut m = Master::new(2);
    m.track_worker_status(WorkerId(9), WorkerState::Dead);
    assert_eq!(m.worker_count(), 3);
    assert_eq!(sorted_ids(m.check_dead_workers()), vec![9]);
}

#[test]
fn proposals_are_processed_once_every_worker_answered() {
    let mut m = Master::new(3);
    assert!(m.handle_worker_response(proposal(0, 0, 50)).is_none());
    assert!(m.handle_worker_response(proposal(0, 1, 20)).is_none());
    let r = m.handle_worker_response(proposal(0, 2, 35));
    match r {
        Some(Ok(MasterMessage::AcceptedProposalBroadcast { logical_time, broadcast_message })) => {
            assert_eq!(logical_time.time, 0);
            assert_eq!(broadcast_message.sequence_number, 20);
            assert_eq!(broadcast_message.worker_id, 1);
        },
        _ => panic!("expected an accepted proposal"),
    }
    assert_eq!(m.response_count(), 3);
}

#[test]
fn equal_sequence_numbers_go_to_the_lower_worker_id() {
    let mut m = Master::new(3);
    m.handle_worker_response(proposal(4, 2, 7));
    m.handle_worker_response(proposal(5, 1, 7));
    let r = m.handle_worker_response(proposal(6, 0, 9));
    match r {
        Some(Ok(MasterMessage::AcceptedProposalBroadcast { logical_time, broadcast_message })) => {
            assert_eq!(broadcast_message.worker_id, 1);
            assert_eq!(logical_time.time, 5);
        },
        _ => panic!("expected an accepted proposal"),
    }
}

#[test]
fn accepted_proposal_does_not_depend_on_arrival_order() {
    let mut a = Master::new(3);
    let mut b = Master::new(3);
    a.handle_worker_response(proposal(0, 0, 3));
    a.handle_worker_response(proposal(0, 1, 3));
    let ra = a.handle_worker_response(proposal(0, 2, 8));
    b.handle_worker_response(proposal(0, 2, 8));
    b.handle_worker_response(proposal(0, 1, 3));
    let rb = b.handle_worker_response(proposal(0, 0, 3));
    match (ra, rb) {
        (
            Some(Ok(MasterMessage::AcceptedProposalBroadcast { broadcast_message: x, .. })),
            Some(Ok(MasterMessage::AcceptedProposalBroadcast { broadcast_message: y, .. })),
        ) => {
            assert_eq!(x.worker_id, 0);
            assert_eq!(y.worker_id, 0);
            assert_eq!(x.sequence_number, y.sequence_number);
        },
        _ => panic!("expected accepted proposals"),
    }
}

#[test]
fn no_proposal_is_an_error() {
    let m = Master::new(2);
    assert_eq!(
        m.process_proposals().err(),
        Some(MasterInternalError::ProposalError(ProposalHandlingErrors::ProposalProcessingError))
    );
}

#[test]
fn responses_without_proposal_end_in_an_error() {
    let mut m = Master::new(1);
    m.handle_worker_response(WorkerResponse::MessageQueueEmpty);
    assert_eq!(m.response_count(), 0);
    assert_eq!(
        m.process_proposals().err(),
        Some(MasterInternalError::ProposalError(ProposalHandlingErrors::ProposalProcessingError))
    );
}

#[test]
fn confirmed_update_marks_known_worker_active() {
    let mut m = Master::new(2);
    let r = m.handle_worker_response(WorkerResponse::StateUpdateConfirmed {
        worker_id: 1,
        logical_time: LamportClock { time: 3 },
    });
    assert!(r.is_none());
    assert_eq!(
        m.worker_state(WorkerId(1)),
        Some(WorkerState::Active(ActiveWorkerStates::ProcessingQueuedMessages))
    );
    assert_eq!(sorted_ids(m.check_active_workers()), vec![1]);
}

#[test]
fn confirmed_update_from_unknown_worker_is_ignored() {
    let mut m = Master::new(2);
    m.handle_worker_response(WorkerResponse::StateUpdateConfirmed { worker_id: 7, logical_time: LamportClock { time: 3 } });
    assert_eq!(m.worker_count(), 2);
    assert_eq!(m.worker_state(WorkerId(7)), None);
}

#[test]
fn other_responses_change_nothing() {
    let mut m = Master::new(2);
    assert!(m.handle_worker_response(WorkerResponse::NoResponse).is_none());
    assert!(m.handle_worker_response(WorkerResponse::MessageQueueEmpty).is_none());
    assert_eq!(m.response_count(), 0);
    assert!(m.check_active_workers().is_empty());
}

#[test]
fn rfp_delay_is_a_jitter_between_25_and_99() {
    let mut draws = Vec::new();
    for _ in 0..50 {
        let d = Master::rfp_delay_millis();
        assert!((25..100).contains(&d));
        draws.push(d);
    }
    assert!(draws.iter().any(|d| *d != draws[0]));
}

#[test]
fn rfp_carries_the_master_clock() {
    let m = Master::new(1);
    match m.rfp_message() {
        MasterMessage::Rfp { master_clock } => assert_eq!(master_clock.time, 0),
        _ => panic!("expected a request for proposals"),
    }
}

#[test]
fn worker_state_helpers() {
    let mut s = WorkerState::default();
    assert_eq!(s, WorkerState::Start);
    assert_eq!(s.possible_fault(), WorkerState::PossibleFault);
    assert_eq!(s.dead_worker_shutdown(), WorkerState::Dead);
    assert_eq!(s, WorkerState::Start);
}
