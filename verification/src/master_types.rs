use vstd::prelude::*;
use crate::worker_types::{BroadcastMessage, WorkerResponse, Proposal, RfpResponse};
use crate::errors::{MasterInternalError, ProposalHandlingErrors};
use crate::randomness::random_in_range;
use std::collections::HashMap;
use vstd::std_specs::iter::IteratorSpec;

verus! {

/// A Lamport logical clock.
#[derive(Clone, Copy, Debug, PartialEq, Eq, Structural, PartialOrd, Ord, Hash)]
pub struct LamportClock {
    pub time: u64,
}

impl LamportClock {
    /// A clock at time 0.
    pub fn new() -> (c: Self)
        ensures
            c.time == 0,
    {
        LamportClock { time: 0 }
    }

    /// Advances the clock by one tick (a local event).
    pub fn increment(&mut self)
        requires
            old(self).time < u64::MAX,
        ensures
            final(self).time == old(self).time + 1,
    {
        self.time = self.time + 1;
    }

    /// Merges a received timestamp: the new time is one past the larger of
    /// the local and the incoming time.
    pub fn adjust(&mut self, incoming_time: u64)
        requires
            old(self).time < u64::MAX,
            incoming_time < u64::MAX,
        ensures
            final(self).time == max_time(old(self).time as int, incoming_time as int) + 1,
            final(self).time > old(self).time,
            final(self).time > incoming_time,
    {
        let larger = if self.time >= incoming_time { self.time } else { incoming_time };
        self.time = larger + 1;
    }

    /// The current time.
    pub fn time(&self) -> (t: u64)
        ensures
            t == self.time,
    {
        self.time
    }
}

/// The larger of two times.
pub open spec fn max_time(a: int, b: int) -> int {
    if a >= b { a } else { b }
}

/// Merging a timestamp that is not ahead of the local time advances the
/// clock exactly as a local tick does; merging one that is ahead moves the
/// clock one past it.
pub proof fn lemma_adjust_ticks_past_the_later_time(local: u64, incoming: u64)
    ensures
        incoming <= local ==> max_time(local as int, incoming as int) + 1 == local + 1,
        incoming > local ==> max_time(local as int, incoming as int) + 1 == incoming + 1,
{
}

/// What the master sends the workers.
#[derive(Clone, Copy, Debug)]
pub enum MasterMessage {
    /// A request for proposals, stamped with the master's clock.
    Rfp { master_clock: LamportClock },
    /// The proposal the master accepted, stamped with the logical time at
    /// which every worker is to deliver it.
    AcceptedProposalBroadcast { logical_time: LamportClock, broadcast_message: BroadcastMessage },
}

/// A worker's id.
#[derive(Clone, Copy, Debug, Hash, PartialEq, Eq, Structural)]
pub struct WorkerId(pub u8);

/// What the master knows of a worker.
#[derive(Clone, Copy, Debug, Hash, PartialEq, Eq, Structural)]
pub enum WorkerState {
    Start,
    Active(ActiveWorkerStates),
    PossibleFault,
    Dead,
}

impl Default for WorkerState {
    fn default() -> (s: Self)
        ensures
            s == WorkerState::Start,
    {
        WorkerState::Start
    }
}

impl WorkerState {
    /// The state of a worker that may have failed.
    pub fn possible_fault(&mut self) -> (s: Self)
        ensures
            s == WorkerState::PossibleFault,
            *final(self) == *old(self),
    {
        WorkerState::PossibleFault
    }

    /// The state of a worker that was shut down as dead.
    pub fn dead_worker_shutdown(&mut self) -> (s: Self)
        ensures
            s == WorkerState::Dead,
            *final(self) == *old(self),
    {
        WorkerState::Dead
    }
}

/// What an active worker is doing.
#[derive(Clone, Copy, Debug, Hash, PartialEq, Eq, Structural)]
pub enum ActiveWorkerStates {
    ProcessingQueuedMessages,
    EmptyMessageQueue,
}

/// Whether proposal `a` comes before proposal `b`: it has the lower
/// sequence number, or the same one from a worker with a lower id.
pub open spec fn precedes(a: BroadcastMessage, b: BroadcastMessage) -> bool {
    ||| a.sequence_number < b.sequence_number
    ||| (a.sequence_number == b.sequence_number && a.worker_id < b.worker_id)
}

/// The index of the first proposal that no other proposal precedes.
pub open spec fn lowest_index(s: Seq<(LamportClock, BroadcastMessage)>) -> int
    decreases s.len(),
{
    if s.len() <= 1 {
        0
    } else {
        let k = lowest_index(s.drop_last());
        if precedes(s.last().1, s[k].1) {
            s.len() - 1
        } else {
            k
        }
    }
}

/// The proposals among the workers' responses, in the order received: the
/// logical time and the message of each request-for-proposals answer.
pub open spec fn rfp_proposals(s: Seq<Option<WorkerResponse>>) -> Seq<(LamportClock, BroadcastMessage)>
    decreases s.len(),
{
    if s.len() == 0 {
        Seq::empty()
    } else {
        let rest = rfp_proposals(s.drop_last());
        match s.last() {
            Some(WorkerResponse::RfpResponse(r)) => rest.push(
                (r.proposed_message.logical_time, r.proposed_message.proposal),
            ),
            _ => rest,
        }
    }
}

/// What the master makes of the responses: the broadcast of the first
/// proposal that no other precedes, or an error when there is none.
pub open spec fn accepted_broadcast(s: Seq<Option<WorkerResponse>>) -> Result<MasterMessage, MasterInternalError> {
    let p = rfp_proposals(s);
    if p.len() == 0 {
        Err(MasterInternalError::ProposalError(ProposalHandlingErrors::ProposalProcessingError))
    } else {
        let best = p[lowest_index(p)];
        Ok(MasterMessage::AcceptedProposalBroadcast { logical_time: best.0, broadcast_message: best.1 })
    }
}

/// What the master knows: each worker's state, the responses received
/// since the last request for proposals, and its logical clock.
pub struct MasterView {
    pub worker_states: Map<u8, WorkerState>,
    pub worker_response: Seq<Option<WorkerResponse>>,
    pub logical_clock: LamportClock,
}

/// The ids of the workers whose state satisfies `pick`.
pub open spec fn workers_where(m: Map<u8, WorkerState>, pick: spec_fn(WorkerState) -> bool) -> Set<u8> {
    m.dom().filter(|k: u8| pick(m[k]))
}

/// The ids in a list of worker ids.
pub open spec fn ids(r: Seq<WorkerId>) -> Seq<u8> {
    r.map_values(|w: WorkerId| w.0)
}

/// The ids in a list of workers with their states.
pub open spec fn pair_ids(r: Seq<(WorkerId, WorkerState)>) -> Seq<u8> {
    r.map_values(|p: (WorkerId, WorkerState)| p.0.0)
}

/// Whether a worker state is active.
pub open spec fn is_active(s: WorkerState) -> bool {
    s is Active
}

/// Whether a worker state is a possible fault.
pub open spec fn is_possible_fault(s: WorkerState) -> bool {
    s is PossibleFault
}

/// Whether a worker state is dead.
pub open spec fn is_dead(s: WorkerState) -> bool {
    s is Dead
}

/// Whether a worker state is neither start nor active.
pub open spec fn is_non_active(s: WorkerState) -> bool {
    s is PossibleFault || s is Dead
}

/// The master: it asks the workers for proposals, accepts the lowest one
/// and keeps track of the workers' states.
pub struct Master {
    worker_states: HashMap<u8, WorkerState>,
    worker_response: Vec<Option<WorkerResponse>>,
    logical_clock: LamportClock,
}

impl View for Master {
    type V = MasterView;

    closed spec fn view(&self) -> MasterView {
        MasterView {
            worker_states: self.worker_states@,
            worker_response: self.worker_response@,
            logical_clock: self.logical_clock,
        }
    }
}

/// The proposal that [`lowest_index`] picks is one that no proposal
/// precedes, and every proposal before it comes after it: it is the first
/// of the lowest proposals.
pub proof fn lemma_lowest_index_is_first_lowest(s: Seq<(LamportClock, BroadcastMessage)>)
    requires
        s.len() > 0,
    ensures
        0 <= lowest_index(s) < s.len(),
        forall|j: int| 0 <= j < s.len() ==> !precedes(#[trigger] s[j].1, s[lowest_index(s)].1),
        forall|j: int| 0 <= j < lowest_index(s) ==> precedes(s[lowest_index(s)].1, #[trigger] s[j].1),
    decreases s.len(),
{
    if s.len() > 1 {
        let t = s.drop_last();
        lemma_lowest_index_is_first_lowest(t);
        let k = lowest_index(t);
        let n = s.len() - 1;
        assert(t[k] == s[k]);
        if precedes(s[n].1, s[k].1) {
            assert(lowest_index(s) == n);
            assert forall|j: int| 0 <= j < s.len() implies !precedes(#[trigger] s[j].1, s[n].1) by {
                if j < n {
                    assert(t[j] == s[j]);
                    assert(!precedes(t[j].1, t[k].1));
                }
            }
            assert forall|j: int| 0 <= j < n implies precedes(s[n].1, #[trigger] s[j].1) by {
                assert(t[j] == s[j]);
                assert(!precedes(t[j].1, t[k].1));
            }
        } else {
            assert(lowest_index(s) == k);
            assert forall|j: int| 0 <= j < s.len() implies !precedes(#[trigger] s[j].1, s[k].1) by {
                if j < n {
                    assert(t[j] == s[j]);
                    assert(!precedes(t[j].1, t[k].1));
                }
            }
            assert forall|j: int| 0 <= j < k implies precedes(s[k].1, #[trigger] s[j].1) by {
                assert(t[j] == s[j]);
                assert(precedes(t[k].1, t[j].1));
            }
        }
    }
}

/// Which proposal the master accepts does not depend on the order in which
/// the proposals arrived: two lists holding the same proposals give accepted
/// messages with the same sequence number and the same worker id.
pub proof fn lemma_accepted_proposal_independent_of_order(
    s1: Seq<(LamportClock, BroadcastMessage)>,
    s2: Seq<(LamportClock, BroadcastMessage)>,
)
    requires
        s1.len() > 0,
        s1.to_set() == s2.to_set(),
    ensures
        s2.len() > 0,
        s1[lowest_index(s1)].1.sequence_number == s2[lowest_index(s2)].1.sequence_number,
        s1[lowest_index(s1)].1.worker_id == s2[lowest_index(s2)].1.worker_id,
{
    assert(s1.to_set().contains(s1[0]));
    assert(s2.contains(s1[0]));
    lemma_lowest_index_is_first_lowest(s1);
    lemma_lowest_index_is_first_lowest(s2);
    let a = s1[lowest_index(s1)];
    let b = s2[lowest_index(s2)];
    assert(s1.to_set().contains(a));
    assert(s2.to_set().contains(a));
    assert(s2.to_set().contains(b));
    assert(s1.to_set().contains(b));
    let ia = choose|i: int| 0 <= i < s2.len() && s2[i] == a;
    let ib = choose|i: int| 0 <= i < s1.len() && s1[i] == b;
    assert(!precedes(s2[ia].1, b.1));
    assert(!precedes(s1[ib].1, a.1));
}

/// Which worker states a listing of workers picks.
#[derive(Clone, Copy)]
enum Selection {
    Active,
    PossibleFault,
    Dead,
    NonActive,
}

/// Whether `sel` picks state `s`.
spec fn selects(sel: Selection, s: WorkerState) -> bool {
    match sel {
        Selection::Active => is_active(s),
        Selection::PossibleFault => is_possible_fault(s),
        Selection::Dead => is_dead(s),
        Selection::NonActive => is_non_active(s),
    }
}

/// Whether `id` is the id of one of the first `n` entries, with a state
/// that `sel` picks.
spec fn came_from(id: u8, entries: Seq<(u8, WorkerState)>, n: int, sel: Selection) -> bool {
    exists|i: int| 0 <= i < n && entries[i].0 == id && selects(sel, entries[i].1)
}

fn selection_picks(sel: Selection, s: &WorkerState) -> (b: bool)
    ensures
        b == selects(sel, *s),
{
    match sel {
        Selection::Active => match s {
            WorkerState::Active(_) => true,
            _ => false,
        },
        Selection::PossibleFault => match s {
            WorkerState::PossibleFault => true,
            _ => false,
        },
        Selection::Dead => match s {
            WorkerState::Dead => true,
            _ => false,
        },
        Selection::NonActive => match s {
            WorkerState::PossibleFault | WorkerState::Dead => true,
            _ => false,
        },
    }
}

/// A worker is non-active exactly when it may have failed or is dead.
pub proof fn lemma_non_active_is_fault_or_dead(m: Map<u8, WorkerState>)
    ensures
        workers_where(m, |s: WorkerState| is_non_active(s)) == workers_where(m, |s: WorkerState| is_possible_fault(s)).union(
            workers_where(m, |s: WorkerState| is_dead(s)),
        ),
        workers_where(m, |s: WorkerState| is_active(s)).disjoint(workers_where(m, |s: WorkerState| is_non_active(s))),
{
    assert(workers_where(m, |s: WorkerState| is_non_active(s)) =~= workers_where(m, |s: WorkerState| is_possible_fault(s)).union(
        workers_where(m, |s: WorkerState| is_dead(s)),
    ));
}

/// Once a known worker has confirmed a state update, the master lists it
/// among the active workers and no longer among the non-active ones.
pub proof fn lemma_confirmed_worker_is_active(m: Map<u8, WorkerState>, id: u8)
    requires
        m.contains_key(id),
    ensures
        ({
            let m2 = m.insert(id, WorkerState::Active(ActiveWorkerStates::ProcessingQueuedMessages));
            &&& workers_where(m2, |s: WorkerState| is_active(s)).contains(id)
            &&& !workers_where(m2, |s: WorkerState| is_non_active(s)).contains(id)
        }),
{
}

/// Whether response `o` answers a request for proposals with proposal `p`.
pub open spec fn answers_with(o: Option<WorkerResponse>, p: Proposal) -> bool {
    o == Some(WorkerResponse::RfpResponse(RfpResponse { proposed_message: p }))
}

/// Whether some response in `s` answers a request for proposals.
pub open spec fn has_proposal(s: Seq<Option<WorkerResponse>>) -> bool {
    exists|j: int, p: Proposal| 0 <= j < s.len() && #[trigger] answers_with(s[j], p)
}

/// Whether some response in `s` carries a proposal with message `m`
/// stamped `t`.
pub open spec fn is_received(s: Seq<Option<WorkerResponse>>, t: LamportClock, m: BroadcastMessage) -> bool {
    exists|j: int, p: Proposal|
        0 <= j < s.len() && #[trigger] answers_with(s[j], p) && p.logical_time == t && p.proposal == m
}

/// The proposals gathered from the responses are exactly the proposals the
/// responses carry: each one comes, stamp and message unchanged, from some
/// response, and every response's proposal is among them.
proof fn lemma_rfp_proposals_are_received(s: Seq<Option<WorkerResponse>>)
    ensures
        forall|i: int| 0 <= i < rfp_proposals(s).len() ==> is_received(s, #[trigger] rfp_proposals(s)[i].0, rfp_proposals(s)[i].1),
        forall|j: int, p: Proposal| 0 <= j < s.len() && #[trigger] answers_with(s[j], p) ==>
            rfp_proposals(s).contains((p.logical_time, p.proposal)),
    decreases s.len(),
{
    if s.len() > 0 {
        let t = s.drop_last();
        lemma_rfp_proposals_are_received(t);
        let ps = rfp_proposals(s);
        let pt = rfp_proposals(t);
        assert forall|i: int| 0 <= i < ps.len() implies is_received(s, #[trigger] ps[i].0, ps[i].1) by {
            if i < pt.len() {
                assert(ps[i] == pt[i]);
                assert(is_received(t, pt[i].0, pt[i].1));
                let (j, p) = choose|j: int, p: Proposal|
                    0 <= j < t.len() && #[trigger] answers_with(t[j], p) && p.logical_time == pt[i].0 && p.proposal == pt[i].1;
                assert(s[j] == t[j]);
                assert(answers_with(s[j], p));
            } else {
                match s.last() {
                    Some(WorkerResponse::RfpResponse(r)) => {
                        assert(answers_with(s[s.len() - 1], r.proposed_message));
                    },
                    _ => {},
                }
            }
        }
        assert forall|j: int, p: Proposal| 0 <= j < s.len() && #[trigger] answers_with(s[j], p) implies
            ps.contains((p.logical_time, p.proposal)) by {
            if j < t.len() {
                assert(t[j] == s[j]);
                assert(answers_with(t[j], p));
                let k = choose|k: int| 0 <= k < pt.len() && pt[k] == (p.logical_time, p.proposal);
                assert(ps[k] == pt[k]);
            } else {
                assert(ps[ps.len() - 1] == (p.logical_time, p.proposal));
            }
        }
    } else {
        assert(rfp_proposals(s).len() == 0);
    }
}

/// What the master accepts from the responses `s`: it fails exactly when no
/// response carries a proposal; otherwise it broadcasts the message of one
/// of the received proposals, every field of it, stamped with that
/// proposal's own logical time, and no received proposal precedes it (lower
/// sequence number, or the same one from a lower worker id).
pub proof fn lemma_accepted_broadcast_is_lowest_received(s: Seq<Option<WorkerResponse>>)
    ensures
        accepted_broadcast(s) is Err <==> !has_proposal(s),
        accepted_broadcast(s) is Ok ==> accepted_broadcast(s) matches Ok(MasterMessage::AcceptedProposalBroadcast { .. }),
        accepted_broadcast(s) matches Ok(MasterMessage::AcceptedProposalBroadcast { logical_time, broadcast_message }) ==> {
            &&& is_received(s, logical_time, broadcast_message)
            &&& forall|j: int, p: Proposal|
                0 <= j < s.len() && #[trigger] answers_with(s[j], p) ==> !precedes(p.proposal, broadcast_message)
        },
{
    lemma_rfp_proposals_are_received(s);
    let ps = rfp_proposals(s);
    if ps.len() == 0 {
        if has_proposal(s) {
            let (j, p) = choose|j: int, p: Proposal| 0 <= j < s.len() && #[trigger] answers_with(s[j], p);
            assert(ps.contains((p.logical_time, p.proposal)));
        }
    } else {
        assert(is_received(s, ps[0].0, ps[0].1));
        lemma_lowest_index_is_first_lowest(ps);
        let k = lowest_index(ps);
        assert(is_received(s, ps[k].0, ps[k].1));
        assert forall|j: int, p: Proposal| 0 <= j < s.len() && #[trigger] answers_with(s[j], p) implies !precedes(p.proposal, ps[k].1) by {
            let i = choose|i: int| 0 <= i < ps.len() && ps[i] == (p.logical_time, p.proposal);
            assert(!precedes(ps[i].1, ps[k].1));
        }
    }
}

impl Master {
    /// A master for `num_workers` workers, with ids `0..num_workers`, all in
    /// the start state; no responses yet and the clock at 0.
    pub fn new(num_workers: u8) -> (m: Self)
        ensures
            m@.worker_states == Map::new(|k: u8| k < num_workers, |k: u8| WorkerState::Start),
            m@.worker_response == Seq::<Option<WorkerResponse>>::empty(),
            m@.logical_clock.time == 0,
    {
        let mut worker_map: HashMap<u8, WorkerState> = HashMap::new();
        for i in 0..num_workers
            invariant
                worker_map@ == Map::new(|k: u8| k < i, |k: u8| WorkerState::Start),
        {
            worker_map.insert(i, WorkerState::default());
            proof {
                assert(worker_map@ =~= Map::new(|k: u8| k < i + 1, |k: u8| WorkerState::Start));
            }
        }
        Master {
            worker_states: worker_map,
            worker_response: Vec::new(),
            logical_clock: LamportClock::new(),
        }
    }

    /// The proposals among the responses received, in order.
    fn filter_broadcast_propsals(&self) -> (r: Result<Vec<(LamportClock, BroadcastMessage)>, MasterInternalError>)
        ensures
            r matches Ok(v) && v@ == rfp_proposals(self@.worker_response),
    {
        let mut filtered: Vec<(LamportClock, BroadcastMessage)> = Vec::new();
        let n = self.worker_response.len();
        for i in 0..n
            invariant
                n == self.worker_response@.len(),
                filtered@ == rfp_proposals(self.worker_response@.take(i as int)),
        {
            proof {
                assert(self.worker_response@.take(i + 1).drop_last() =~= self.worker_response@.take(i as int));
            }
            match &self.worker_response[i] {
                Some(WorkerResponse::RfpResponse(rfp_response)) => {
                    filtered.push(
                        (rfp_response.proposed_message.logical_time, rfp_response.proposed_message.proposal),
                    );
                },
                _ => {},
            }
        }
        proof {
            assert(self.worker_response@.take(n as int) =~= self.worker_response@);
        }
        Ok(filtered)
    }

    /// Accepts, among the proposals received, the first one that no other
    /// precedes, and builds its broadcast; fails when there is no proposal.
    pub fn process_proposals(&self) -> (r: Result<MasterMessage, MasterInternalError>)
        ensures
            r == accepted_broadcast(self@.worker_response),
            r is Err <==> rfp_proposals(self@.worker_response).len() == 0,
            r matches Ok(MasterMessage::AcceptedProposalBroadcast { logical_time, broadcast_message }) ==> {
                let p = rfp_proposals(self@.worker_response);
                &&& p.contains((logical_time, broadcast_message))
                &&& forall|j: int| 0 <= j < p.len() ==> !precedes(#[trigger] p[j].1, broadcast_message)
            },
            r is Err <==> !has_proposal(self@.worker_response),
            r is Ok ==> r matches Ok(MasterMessage::AcceptedProposalBroadcast { .. }),
            r matches Ok(MasterMessage::AcceptedProposalBroadcast { logical_time, broadcast_message }) ==> {
                let s = self@.worker_response;
                &&& is_received(s, logical_time, broadcast_message)
                &&& forall|j: int, p: Proposal|
                    0 <= j < s.len() && #[trigger] answers_with(s[j], p) ==> !precedes(p.proposal, broadcast_message)
            },
    {
        proof {
            lemma_accepted_broadcast_is_lowest_received(self@.worker_response);
        }
        let proposals = self.filter_broadcast_propsals()?;
        if proposals.len() == 0 {
            return Err(MasterInternalError::ProposalError(ProposalHandlingErrors::ProposalProcessingError));
        }
        let mut best: usize = 0;
        for i in 1..proposals.len()
            invariant
                1 <= proposals@.len(),
                best < i,
                best as int == lowest_index(proposals@.take(i as int)),
        {
            proof {
                let t = proposals@.take(i + 1);
                assert(t.drop_last() =~= proposals@.take(i as int));
                assert(t[best as int] == proposals@[best as int]);
            }
            let cur = &proposals[i].1;
            let low = &proposals[best].1;
            if cur.sequence_number < low.sequence_number || (cur.sequence_number == low.sequence_number
                && cur.worker_id < low.worker_id) {
                best = i;
            }
        }
        proof {
            assert(proposals@.take(proposals@.len() as int) =~= proposals@);
            if proposals@.len() == 1 {
                assert(proposals@.take(1) =~= proposals@);
            }
        }
        proof {
            lemma_lowest_index_is_first_lowest(proposals@);
        }
        let (lamport_clock, broadcast_message) = proposals[best];
        Ok(MasterMessage::AcceptedProposalBroadcast { logical_time: lamport_clock, broadcast_message })
    }

    /// Records the state of a worker.
    pub fn track_worker_status(&mut self, worker_id: WorkerId, state: WorkerState)
        ensures
            final(self)@ == (MasterView { worker_states: old(self)@.worker_states.insert(worker_id.0, state), ..old(self)@ }),
    {
        self.worker_states.insert(worker_id.0, state);
    }

    /// Handles a worker's response. A proposal is recorded, and once as many
    /// responses are in as there are workers the proposals are processed and
    /// the result is returned. A confirmed state update marks a known worker
    /// as active and processing its queue. Anything else changes nothing.
    pub fn handle_worker_response(&mut self, event: WorkerResponse) -> (r: Option<Result<MasterMessage, MasterInternalError>>)
        ensures
            match event {
                WorkerResponse::RfpResponse(msg) => {
                    let responses = old(self)@.worker_response.push(Some(WorkerResponse::RfpResponse(msg)));
                    &&& final(self)@ == (MasterView { worker_response: responses, ..old(self)@ })
                    &&& responses.len() == old(self)@.worker_states.len() ==> r == Some(accepted_broadcast(responses))
                    &&& responses.len() == old(self)@.worker_states.len() ==> {
                        &&& (r matches Some(Err(_))) <==> !has_proposal(responses)
                        &&& r matches Some(Ok(m)) ==> (m matches MasterMessage::AcceptedProposalBroadcast { logical_time, broadcast_message } && {
                            &&& is_received(responses, logical_time, broadcast_message)
                            &&& forall|j: int, p: Proposal|
                                0 <= j < responses.len() && #[trigger] answers_with(responses[j], p) ==> !precedes(p.proposal, broadcast_message)
                        })
                    }
                    &&& responses.len() != old(self)@.worker_states.len() ==> r is None
                },
                WorkerResponse::StateUpdateConfirmed { worker_id, .. } => {
                    &&& r is None
                    &&& old(self)@.worker_states.contains_key(worker_id) ==> final(self)@ == (MasterView {
                        worker_states: old(self)@.worker_states.insert(
                            worker_id,
                            WorkerState::Active(ActiveWorkerStates::ProcessingQueuedMessages),
                        ),
                        ..old(self)@
                    })
                    &&& !old(self)@.worker_states.contains_key(worker_id) ==> final(self)@ == old(self)@
                },
                _ => r is None && final(self)@ == old(self)@,
            },
    {
        match event {
            WorkerResponse::RfpResponse(msg) => {
                self.worker_response.push(Some(WorkerResponse::RfpResponse(msg)));
                proof {
                    lemma_accepted_broadcast_is_lowest_received(self@.worker_response);
                }
                if self.worker_response.len() == self.worker_states.len() {
                    Some(self.process_proposals())
                } else {
                    None
                }
            },
            WorkerResponse::StateUpdateConfirmed { worker_id, logical_time: _ } => {
                if self.worker_states.contains_key(&worker_id) {
                    self.worker_states.insert(
                        worker_id,
                        WorkerState::Active(ActiveWorkerStates::ProcessingQueuedMessages),
                    );
                }
                None
            },
            _ => None,
        }
    }

    /// The delay, in milliseconds, before a request for proposals goes out:
    /// a random jitter from 25 to 99 that stands for network latency.
    pub fn rfp_delay_millis() -> (r: u64)
        ensures
            25 <= r < 100,
    {
        let jitter: u32 = random_in_range(25, 100);
        jitter as u64
    }

    /// The request for proposals, stamped with the master's clock.
    pub fn rfp_message(&self) -> (r: MasterMessage)
        ensures
            r == (MasterMessage::Rfp { master_clock: self@.logical_clock }),
    {
        MasterMessage::Rfp { master_clock: self.logical_clock }
    }

    /// The number of workers the master knows of.
    pub fn worker_count(&self) -> (r: usize)
        ensures
            r == self@.worker_states.len(),
    {
        self.worker_states.len()
    }

    /// The number of responses received.
    pub fn response_count(&self) -> (r: usize)
        ensures
            r == self@.worker_response.len(),
    {
        self.worker_response.len()
    }

    /// The state of a worker, if the master knows of it.
    pub fn worker_state(&self, worker_id: WorkerId) -> (r: Option<WorkerState>)
        ensures
            self@.worker_states.contains_key(worker_id.0) ==> r == Some(self@.worker_states[worker_id.0]),
            !self@.worker_states.contains_key(worker_id.0) ==> r is None,
    {
        match self.worker_states.get(&worker_id.0) {
            Some(s) => Some(*s),
            None => None,
        }
    }

    /// The master's logical clock.
    pub fn logical_clock(&self) -> (r: LamportClock)
        ensures
            r == self@.logical_clock,
    {
        self.logical_clock
    }

    /// The workers whose state `sel` picks, each once with its state, in
    /// the order in which the map of worker states is walked.
    fn workers_selected(&self, sel: Selection) -> (r: Vec<(WorkerId, WorkerState)>)
        ensures
            pair_ids(r@).no_duplicates(),
            pair_ids(r@).to_set() == self@.worker_states.dom().filter(|k: u8| selects(sel, self@.worker_states[k])),
            forall|j: int| 0 <= j < r@.len() ==> self@.worker_states.contains_key(#[trigger] r@[j].0.0)
                && self@.worker_states[r@[j].0.0] == r@[j].1,
    {
        let ghost m = self.worker_states@;
        let iter = self.worker_states.iter();
        let ghost entries: Seq<(u8, WorkerState)> = IteratorSpec::remaining(&iter).unref();
        proof {
            assert(entries.to_set() == m.kv_pairs());
            assert forall|a: int, b: int| 0 <= a < b < entries.len() implies entries[a] != entries[b] by {
                assert(IteratorSpec::remaining(&iter)[a] != IteratorSpec::remaining(&iter)[b]);
            }
        }
        let mut result: Vec<(WorkerId, WorkerState)> = Vec::new();
        for kv in it: iter
            invariant
                m == self.worker_states@,
                it.seq().unref() == entries,
                entries.to_set() == m.kv_pairs(),
                entries.no_duplicates(),
                pair_ids(result@).no_duplicates(),
                forall|j: int| 0 <= j < result@.len() ==> came_from(#[trigger] result@[j].0.0, entries, it.index() as int, sel),
                forall|i: int| 0 <= i < it.index() && selects(sel, #[trigger] entries[i].1) ==> pair_ids(result@).contains(entries[i].0),
                forall|j: int| 0 <= j < result@.len() ==> m.contains_key(#[trigger] result@[j].0.0) && m[result@[j].0.0] == result@[j].1,
        {
            let (k, v) = kv;
            let ghost idx = it.index();
            proof {
                assert(entries[idx] == (*k, *v));
            }
            if selection_picks(sel, v) {
                proof {
                    assert forall|j: int| 0 <= j < result@.len() implies result@[j].0.0 != *k by {
                        assert(came_from(result@[j].0.0, entries, idx as int, sel));
                        let i = choose|i: int| 0 <= i < idx && entries[i].0 == result@[j].0.0 && selects(sel, entries[i].1);
                        assert(entries.to_set().contains(entries[i]));
                        assert(entries.to_set().contains(entries[idx]));
                        if entries[i].0 == entries[idx].0 {
                            assert(entries[i] == entries[idx]);
                        }
                    }
                }
                let ghost before = result@;
                result.push((WorkerId(*k), *v));
                proof {
                    assert(pair_ids(result@) =~= pair_ids(before).push(*k));
                    assert(entries.to_set().contains(entries[idx]));
                    assert(m.kv_pairs().contains((*k, *v)));
                    assert forall|j: int| 0 <= j < result@.len() implies m.contains_key(#[trigger] result@[j].0.0) && m[result@[j].0.0] == result@[j].1 by {
                        if j < before.len() {
                            assert(result@[j] == before[j]);
                        }
                    }
                    assert forall|j: int| 0 <= j < result@.len() implies came_from(#[trigger] result@[j].0.0, entries, idx + 1, sel) by {
                        if j < before.len() {
                            assert(result@[j] == before[j]);
                            assert(came_from(before[j].0.0, entries, idx as int, sel));
                            let i = choose|i: int| 0 <= i < idx && entries[i].0 == before[j].0.0 && selects(sel, entries[i].1);
                        } else {
                            assert(result@[j].0.0 == entries[idx].0);
                        }
                    }
                    assert forall|i: int| 0 <= i < idx + 1 && selects(sel, #[trigger] entries[i].1) implies pair_ids(result@).contains(entries[i].0) by {
                        assert(pair_ids(result@).len() == result@.len());
                        if i < idx {
                            let j = choose|j: int| 0 <= j < pair_ids(before).len() && pair_ids(before)[j] == entries[i].0;
                            assert(pair_ids(result@)[j] == entries[i].0);
                        } else {
                            assert(pair_ids(result@)[before.len() as int] == entries[i].0);
                        }
                    }
                }
            }
        }
        proof {
            let want = m.dom().filter(|k: u8| selects(sel, m[k]));
            assert forall|k: u8| pair_ids(result@).to_set().contains(k) implies want.contains(k) by {
                let j = choose|j: int| 0 <= j < pair_ids(result@).len() && pair_ids(result@)[j] == k;
                assert(result@[j].0.0 == k);
                assert(came_from(result@[j].0.0, entries, entries.len() as int, sel));
                let i = choose|i: int| 0 <= i < entries.len() && entries[i].0 == k && selects(sel, entries[i].1);
                assert(entries.to_set().contains(entries[i]));
                assert(m.kv_pairs().contains(entries[i]));
            }
            assert forall|k: u8| want.contains(k) implies pair_ids(result@).to_set().contains(k) by {
                assert(m.kv_pairs().contains((k, m[k])));
                assert(entries.to_set().contains((k, m[k])));
                let i = choose|i: int| 0 <= i < entries.len() && entries[i] == (k, m[k]);
                assert(selects(sel, entries[i].1));
            }
            assert(pair_ids(result@).to_set() =~= want);
        }
        result
    }

    /// The ids of the workers in a list of workers with their states.
    fn ids_of(pairs: Vec<(WorkerId, WorkerState)>) -> (r: Vec<WorkerId>)
        ensures
            ids(r@) == pair_ids(pairs@),
    {
        let mut r: Vec<WorkerId> = Vec::new();
        for i in 0..pairs.len()
            invariant
                r@.len() == i,
                forall|j: int| 0 <= j < i ==> #[trigger] r@[j] == pairs@[j].0,
        {
            r.push(pairs[i].0);
        }
        proof {
            assert(ids(r@) =~= pair_ids(pairs@));
        }
        r
    }

    /// The ids of the active workers, each once, in no particular order.
    pub fn check_active_workers(&self) -> (r: Vec<WorkerId>)
        ensures
            ids(r@).no_duplicates(),
            ids(r@).to_set() == workers_where(self@.worker_states, |s: WorkerState| is_active(s)),
    {
        let pairs = self.workers_selected(Selection::Active);
        proof {
            assert(workers_where(self@.worker_states, |s: WorkerState| is_active(s)) =~= self@.worker_states.dom().filter(
                |k: u8| selects(Selection::Active, self@.worker_states[k]),
            ));
        }
        Self::ids_of(pairs)
    }

    /// The ids of the workers that may have failed, each once, in no
    /// particular order.
    pub fn check_possible_fault_workers(&self) -> (r: Vec<WorkerId>)
        ensures
            ids(r@).no_duplicates(),
            ids(r@).to_set() == workers_where(self@.worker_states, |s: WorkerState| is_possible_fault(s)),
    {
        let pairs = self.workers_selected(Selection::PossibleFault);
        proof {
            assert(workers_where(self@.worker_states, |s: WorkerState| is_possible_fault(s)) =~= self@.worker_states.dom().filter(
                |k: u8| selects(Selection::PossibleFault, self@.worker_states[k]),
            ));
        }
        Self::ids_of(pairs)
    }

    /// The ids of the dead workers, each once, in no particular order.
    pub fn check_dead_workers(&self) -> (r: Vec<WorkerId>)
        ensures
            ids(r@).no_duplicates(),
            ids(r@).to_set() == workers_where(self@.worker_states, |s: WorkerState| is_dead(s)),
    {
        let pairs = self.workers_selected(Selection::Dead);
        proof {
            assert(workers_where(self@.worker_states, |s: WorkerState| is_dead(s)) =~= self@.worker_states.dom().filter(
                |k: u8| selects(Selection::Dead, self@.worker_states[k]),
            ));
        }
        Self::ids_of(pairs)
    }

    /// The workers that may have failed or are dead, each once with its
    /// state, in no particular order.
    pub fn check_non_active_workers(&self) -> (r: Vec<(WorkerId, WorkerState)>)
        ensures
            pair_ids(r@).no_duplicates(),
            pair_ids(r@).to_set() == workers_where(self@.worker_states, |s: WorkerState| is_non_active(s)),
            forall|j: int| 0 <= j < r@.len() ==> self@.worker_states.contains_key(#[trigger] r@[j].0.0)
                && self@.worker_states[r@[j].0.0] == r@[j].1,
    {
        let pairs = self.workers_selected(Selection::NonActive);
        proof {
            assert(workers_where(self@.worker_states, |s: WorkerState| is_non_active(s)) =~= self@.worker_states.dom().filter(
                |k: u8| selects(Selection::NonActive, self@.worker_states[k]),
            ));
        }
        pairs
    }
}

} // verus!
