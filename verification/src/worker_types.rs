use vstd::prelude::*;
use std::cmp::Ordering;
use crate::master_types::{LamportClock, MasterMessage};
use crate::message_queue::{MessageQueue, sorted_by_sequence, is_lowest};
use crate::errors::WorkerError;
use crate::randomness::random_in_range;
use std::collections::BTreeMap;
use vstd::std_specs::iter::IteratorSpec;

verus! {

broadcast use vstd::seq_lib::group_to_multiset_ensures;

/// A message that a worker wants broadcast to every worker.
///
/// Two messages are equal, and ordered, by their sequence numbers alone.
#[derive(Clone, Copy, Debug)]
pub struct BroadcastMessage {
    pub worker_id: u8,
    pub sequence_number: i64,
    pub content: u8,
    pub deliverable: bool,
}

impl PartialEq for BroadcastMessage {
    fn eq(&self, other: &Self) -> (r: bool) {
        self.sequence_number == other.sequence_number
    }
}

impl vstd::std_specs::cmp::PartialEqSpecImpl for BroadcastMessage {
    open spec fn obeys_eq_spec() -> bool {
        true
    }

    open spec fn eq_spec(&self, other: &Self) -> bool {
        self.sequence_number == other.sequence_number
    }
}

impl Eq for BroadcastMessage {
}

impl PartialOrd for BroadcastMessage {
    fn partial_cmp(&self, other: &Self) -> (r: Option<Ordering>) {
        if self.sequence_number < other.sequence_number {
            Some(Ordering::Less)
        } else if self.sequence_number == other.sequence_number {
            Some(Ordering::Equal)
        } else {
            Some(Ordering::Greater)
        }
    }
}

impl vstd::std_specs::cmp::PartialOrdSpecImpl for BroadcastMessage {
    open spec fn obeys_partial_cmp_spec() -> bool {
        true
    }

    open spec fn partial_cmp_spec(&self, other: &Self) -> Option<Ordering> {
        if self.sequence_number < other.sequence_number {
            Some(Ordering::Less)
        } else if self.sequence_number == other.sequence_number {
            Some(Ordering::Equal)
        } else {
            Some(Ordering::Greater)
        }
    }
}

/// A worker's proposal: its oldest undelivered message, answered to a
/// request for proposals stamped with `logical_time`.
#[derive(Clone, Copy, Debug)]
pub struct Proposal {
    pub logical_time: LamportClock,
    pub worker_id: u8,
    pub proposal: BroadcastMessage,
}

/// The answer to a request for proposals.
#[derive(Clone, Copy, Debug)]
pub struct RfpResponse {
    pub proposed_message: Proposal,
}

/// What a worker answers the master.
#[derive(Clone, Copy, Debug)]
pub enum WorkerResponse {
    RfpResponse(RfpResponse),
    StateUpdateConfirmed { worker_id: u8, logical_time: LamportClock },
    MessageQueueEmpty,
    NoResponse,
}

/// A state update as a worker would report it.
#[derive(Clone, Copy, Debug)]
pub struct StateUpdate {
    seq_number: i32,
    message: u8,
}


/// Whether `k` is the largest key of `m`.
pub open spec fn is_latest_key(m: Map<u64, BroadcastMessage>, k: u64) -> bool {
    &&& m.contains_key(k)
    &&& forall|j: u64| #[trigger] m.contains_key(j) ==> j <= k
}

/// The largest key of a key-ordered map, if it has one.
fn latest_key(m: &BTreeMap<u64, BroadcastMessage>) -> (r: Option<u64>)
    ensures
        r is None <==> m@.dom().len() == 0,
        r matches Some(k) ==> is_latest_key(m@, k),
{
    let ghost keys: Seq<u64> = IteratorSpec::remaining(&m.keys()).unref();
    let mut best: Option<u64> = None;
    for k in it: m.keys()
        invariant
            it.seq().unref() == keys,
            best is None <==> it.index() == 0,
            best matches Some(b) ==> {
                &&& exists|i: int| 0 <= i < it.index() && keys[i] == b
                &&& forall|i: int| 0 <= i < it.index() ==> keys[i] <= b
            },
    {
        proof {
            assert(keys[it.index() as int] == *k);
        }
        match best {
            None => { best = Some(*k); },
            Some(b) => {
                if *k > b {
                    best = Some(*k);
                }
            },
        }
    }
    proof {
        assert(keys.to_set() == m@.dom());
        assert(keys.len() == m@.dom().len());
        if let Some(b) = best {
            let i = choose|i: int| 0 <= i < keys.len() && keys[i] == b;
            assert(keys.to_set().contains(keys[i]));
            assert forall|j: u64| #[trigger] m@.contains_key(j) implies j <= b by {
                assert(keys.to_set().contains(j));
                let jj = choose|jj: int| 0 <= jj < keys.len() && keys[jj] == j;
            }
        }
    }
    best
}

/// What a worker knows: its id, its replicated state, the messages it still
/// has to propose (front first), the accepted messages waiting for their
/// turn and the delivered messages, both keyed by logical time.
pub struct WorkerView {
    pub worker_id: u8,
    pub state: (u8, u8),
    pub undelivered: Seq<BroadcastMessage>,
    pub deliverable: Map<u64, BroadcastMessage>,
    pub delivered: Map<u64, BroadcastMessage>,
}

/// The state after applying a message's content: the second component
/// moves to the front, and the old front plus the content, modulo 100,
/// becomes the second component.
pub open spec fn next_state(state: (u8, u8), content: u8) -> (u8, u8) {
    (state.1, ((state.0 + content) % 100) as u8)
}

/// Delivers `m` at logical time `t`: applies it to the state and records it.
pub open spec fn deliver(v: WorkerView, t: u64, m: BroadcastMessage) -> WorkerView {
    WorkerView { state: next_state(v.state, m.content), delivered: v.delivered.insert(t, m), ..v }
}

/// Starting after logical time `t`, delivers the waiting messages at
/// `t + 1`, `t + 2`, ... for as long as the next one is waiting.
pub open spec fn deliver_chain(v: WorkerView, t: int) -> WorkerView
    decreases u64::MAX - t,
{
    if 0 <= t < u64::MAX && v.deliverable.contains_key((t + 1) as u64) {
        let k = (t + 1) as u64;
        let m = v.deliverable[k];
        let w = deliver(v, k, m);
        deliver_chain(WorkerView { deliverable: v.deliverable.remove(k), ..w }, t + 1)
    } else {
        v
    }
}

/// Whether delivering the waiting messages `d` after time `t`, from state
/// `state`, stays within the machine's integers: no logical time passes
/// `u64::MAX` and no state sum passes `u8::MAX`.
pub open spec fn chain_fits(d: Map<u64, BroadcastMessage>, state: (u8, u8), t: int) -> bool
    decreases u64::MAX - t,
{
    &&& 0 <= t < u64::MAX
    &&& d.contains_key((t + 1) as u64) ==> {
        let k = (t + 1) as u64;
        let m = d[k];
        &&& state.0 + m.content <= u8::MAX
        &&& chain_fits(d.remove(k), next_state(state, m.content), t + 1)
    }
}

/// Whether [`deliver_chain`] from `t` stays within the machine's integers.
pub open spec fn deliver_chain_fits(v: WorkerView, t: int) -> bool {
    chain_fits(v.deliverable, v.state, t)
}

/// The latest logical time at which a message was delivered.
pub open spec fn latest_time(d: Map<u64, BroadcastMessage>) -> u64 {
    choose|k: u64| is_latest_key(d, k)
}

/// The logical time the worker delivers next: one past the latest delivered
/// time, or 0 (where every Lamport clock starts) when nothing is delivered.
pub open spec fn next_time(d: Map<u64, BroadcastMessage>) -> int {
    if d.dom().len() > 0 {
        latest_time(d) + 1
    } else {
        0
    }
}

/// What the worker does with an accepted message `m` stamped `t`: if `t` is
/// the next logical time it delivers `m` and then every message waiting at
/// `t + 1`, `t + 2`, ... in turn; otherwise `m` goes into the deliverable
/// queue under `t`. (A message queued under a time that was delivered
/// already is never delivered.)
pub open spec fn queue_or_deliver(v: WorkerView, t: u64, m: BroadcastMessage) -> WorkerView {
    if t == next_time(v.delivered) {
        deliver_chain(deliver(v, t, m), t as int)
    } else {
        WorkerView { deliverable: v.deliverable.insert(t, m), ..v }
    }
}

/// Whether [`queue_or_deliver`] stays within the machine's integers.
pub open spec fn queue_or_deliver_fits(v: WorkerView, t: u64, m: BroadcastMessage) -> bool {
    &&& v.delivered.dom().len() > 0 ==> latest_time(v.delivered) < u64::MAX
    &&& t == next_time(v.delivered) ==> {
        &&& v.state.0 + m.content <= u8::MAX
        &&& deliver_chain_fits(deliver(v, t, m), t as int)
    }
}

impl WorkerView {
    /// Whether an accepted message `bm` takes the worker's own front message
    /// out of its queue: it does when this worker proposed `bm` and its queue
    /// is not empty.
    pub open spec fn takes_own_front(self, bm: BroadcastMessage) -> bool {
        &&& self.undelivered.len() > 0
        &&& bm.worker_id == self.worker_id
    }

    /// The message that is queued or delivered when `bm` is accepted: the
    /// worker's own front message, marked deliverable, or `bm` itself.
    pub open spec fn accepted_message(self, bm: BroadcastMessage) -> BroadcastMessage {
        if self.takes_own_front(bm) {
            BroadcastMessage { deliverable: true, ..self.undelivered[0] }
        } else {
            bm
        }
    }

    /// The worker before queueing or delivering the accepted message.
    pub open spec fn before_accepting(self, bm: BroadcastMessage) -> WorkerView {
        if self.takes_own_front(bm) {
            WorkerView { undelivered: self.undelivered.drop_first(), ..self }
        } else {
            self
        }
    }

    /// The worker after the master accepted `bm` at logical time `t`.
    pub open spec fn after_accepting(self, t: u64, bm: BroadcastMessage) -> WorkerView {
        queue_or_deliver(self.before_accepting(bm), t, self.accepted_message(bm))
    }

    /// Whether accepting `bm` at `t` stays within the machine's integers.
    pub open spec fn accepting_fits(self, t: u64, bm: BroadcastMessage) -> bool {
        queue_or_deliver_fits(self.before_accepting(bm), t, self.accepted_message(bm))
    }

    /// The answer to a request for proposals stamped `t`.
    pub open spec fn rfp_answer(self, t: LamportClock) -> WorkerResponse {
        if self.undelivered.len() > 0 {
            WorkerResponse::RfpResponse(
                RfpResponse {
                    proposed_message: Proposal {
                        logical_time: t,
                        worker_id: self.worker_id,
                        proposal: self.undelivered[0],
                    },
                },
            )
        } else {
            WorkerResponse::MessageQueueEmpty
        }
    }
}

/// A worker: it proposes its messages in order of sequence number and
/// delivers accepted messages in logical-time order, from time 0 on and
/// without gaps, holding back those that arrive early.
pub struct Worker {
    worker_id: u8,
    state: (u8, u8),
    undelivered_priority_queue: MessageQueue,
    deliverable_queue: BTreeMap<u64, BroadcastMessage>,
    delivered_messages: BTreeMap<u64, BroadcastMessage>,
}

impl View for Worker {
    type V = WorkerView;

    closed spec fn view(&self) -> WorkerView {
        WorkerView {
            worker_id: self.worker_id,
            state: self.state,
            undelivered: self.undelivered_priority_queue@,
            deliverable: self.deliverable_queue@,
            delivered: self.delivered_messages@,
        }
    }
}

/// `t` read as a two's-complement `i128`, as `t as i128` does.
pub open spec fn as_signed(t: u128) -> int {
    if t <= i128::MAX {
        t as int
    } else {
        t - 0x1_0000_0000_0000_0000_0000_0000_0000_0000int
    }
}

/// The sequence number of the `index`-th message a worker generates at
/// `timestamp` (milliseconds): the timestamp times 1000, plus the worker's
/// id times 100, plus the index.
pub open spec fn sequence_number_for(worker_id: u8, timestamp: u128, index: u64) -> int {
    as_signed(timestamp) * 1000 + worker_id * 100 + index
}

/// Whether computing [`sequence_number_for`] in `i128` does not overflow.
pub open spec fn sequence_number_fits(worker_id: u8, timestamp: u128, index: u64) -> bool {
    &&& i128::MIN <= as_signed(timestamp) * 1000
    &&& sequence_number_for(worker_id, timestamp, index) <= i128::MAX
}

/// Whether `n` is an `i64`.
pub open spec fn fits_i64(n: int) -> bool {
    i64::MIN <= n <= i64::MAX
}

/// The first index from `j` on, below 10, whose sequence number is not an
/// `i64`; 10 if there is none.
pub open spec fn first_unfit_index(worker_id: u8, timestamp: u128, j: u64) -> u64
    decreases 10 - j,
{
    if j >= 10 {
        10
    } else if !fits_i64(sequence_number_for(worker_id, timestamp, j)) {
        j
    } else {
        first_unfit_index(worker_id, timestamp, (j + 1) as u64)
    }
}

/// Whether `added` are the first messages generated at `timestamp`, one per
/// index, each with a content between 0 and 25.
pub open spec fn generated_messages(worker_id: u8, timestamp: u128, added: Seq<BroadcastMessage>) -> bool {
    forall|j: int|
        #![trigger added[j]]
        0 <= j < added.len() ==> {
            &&& added[j].worker_id == worker_id
            &&& added[j].sequence_number == sequence_number_for(worker_id, timestamp, j as u64)
            &&& added[j].content <= 25
            &&& !added[j].deliverable
        }
}

impl WorkerView {
    /// Whether the worker can take `msg` within the machine's integers.
    pub open spec fn accepts(self, msg: MasterMessage) -> bool {
        match msg {
            MasterMessage::Rfp { .. } => true,
            MasterMessage::AcceptedProposalBroadcast { logical_time, broadcast_message } =>
                self.accepting_fits(logical_time.time, broadcast_message),
        }
    }

    /// The worker after taking `msg`.
    pub open spec fn after_message(self, msg: MasterMessage) -> WorkerView {
        match msg {
            MasterMessage::Rfp { .. } => self,
            MasterMessage::AcceptedProposalBroadcast { logical_time, broadcast_message } =>
                self.after_accepting(logical_time.time, broadcast_message),
        }
    }

    /// The worker's answer to `msg`.
    pub open spec fn answer(self, msg: MasterMessage) -> WorkerResponse {
        match msg {
            MasterMessage::Rfp { master_clock } => self.rfp_answer(master_clock),
            MasterMessage::AcceptedProposalBroadcast { logical_time, .. } =>
                WorkerResponse::StateUpdateConfirmed { worker_id: self.worker_id, logical_time },
        }
    }
}

/// The state reached from `(0, 0)` by applying, in order, the contents
/// delivered at logical times `0, 1, ..., n - 1`.
pub open spec fn state_after(d: Map<u64, BroadcastMessage>, n: int) -> (u8, u8)
    decreases n,
{
    if n <= 0 {
        (0u8, 0u8)
    } else {
        next_state(state_after(d, n - 1), d[(n - 1) as u64].content)
    }
}

/// Total-order delivery: the delivered logical times are exactly
/// `0, 1, ..., next - 1`, with no gap; the state is what applying their
/// contents in that order gives; and nothing waits at the next logical
/// time, so nothing that could be delivered is held back.
pub open spec fn delivers_in_order(v: WorkerView) -> bool {
    &&& v.delivered.dom().finite()
    &&& forall|k: u64| #[trigger] v.delivered.contains_key(k) <==> k < next_time(v.delivered)
    &&& v.state == state_after(v.delivered, next_time(v.delivered))
    &&& !v.deliverable.contains_key(next_time(v.delivered) as u64)
}

/// Whether every message waiting in `before` is still waiting in `after`,
/// or has been delivered, at the same logical time: none is lost.
pub open spec fn keeps_waiting_messages(before: WorkerView, after: WorkerView) -> bool {
    forall|k: u64|
        #[trigger] before.deliverable.contains_key(k) ==> {
            ||| after.deliverable.contains_key(k) && after.deliverable[k] == before.deliverable[k]
            ||| after.delivered.contains_key(k) && after.delivered[k] == before.deliverable[k]
        }
}

/// When the delivered times are exactly those below `n`, the next time is `n`.
proof fn lemma_next_time(d: Map<u64, BroadcastMessage>, n: int)
    requires
        d.dom().finite(),
        0 <= n <= u64::MAX + 1,
        forall|k: u64| #[trigger] d.contains_key(k) <==> k < n,
    ensures
        next_time(d) == n,
{
    if n == 0 {
        assert(d.dom() =~= Set::empty());
    } else {
        let top = (n - 1) as u64;
        assert(d.contains_key(top));
        assert(d.dom().remove(top).len() + 1 == d.dom().len());
        assert forall|j: u64| #[trigger] d.contains_key(j) implies j <= top by {}
        assert(is_latest_key(d, top));
        let c = latest_time(d);
        assert(is_latest_key(d, c));
        assert(d.contains_key(c));
        assert(c <= top && top <= c);
    }
}

/// The state after `n` deliveries depends only on the messages at times below `n`.
proof fn lemma_state_after_agree(d1: Map<u64, BroadcastMessage>, d2: Map<u64, BroadcastMessage>, n: int)
    requires
        forall|k: u64| k < n ==> #[trigger] d1[k] == d2[k],
    ensures
        state_after(d1, n) == state_after(d2, n),
    decreases n,
{
    if n > 0 {
        lemma_state_after_agree(d1, d2, n - 1);
        assert(d1[(n - 1) as u64] == d2[(n - 1) as u64]);
    }
}

/// Delivering the waiting messages after `t`, when everything up to `t` is
/// delivered in order, leaves the worker delivering in order; it keeps
/// every delivered message, delivers only after `t`, and loses no waiting
/// message.
proof fn lemma_chain_in_order(v: WorkerView, t: int)
    requires
        0 <= t,
        v.delivered.dom().finite(),
        forall|k: u64| #[trigger] v.delivered.contains_key(k) <==> k <= t,
        v.state == state_after(v.delivered, t + 1),
        chain_fits(v.deliverable, v.state, t),
    ensures
        ({
            let r = deliver_chain(v, t);
            &&& delivers_in_order(r)
            &&& v.delivered.submap_of(r.delivered)
            &&& forall|k: u64| #[trigger] r.delivered.contains_key(k) && !v.delivered.contains_key(k) ==> k > t
            &&& keeps_waiting_messages(v, r)
            &&& r.undelivered == v.undelivered
            &&& r.worker_id == v.worker_id
        }),
    decreases u64::MAX - t,
{
    let r = deliver_chain(v, t);
    if v.deliverable.contains_key((t + 1) as u64) {
        let k = (t + 1) as u64;
        let m = v.deliverable[k];
        let w = deliver(v, k, m);
        let next = WorkerView { deliverable: v.deliverable.remove(k), ..w };
        assert(r == deliver_chain(next, t + 1));
        assert forall|j: u64| #[trigger] next.delivered.contains_key(j) <==> j <= t + 1 by {
            if j == k {
            } else {
                assert(next.delivered.contains_key(j) == v.delivered.contains_key(j));
            }
        }
        lemma_state_after_agree(next.delivered, v.delivered, t + 1);
        assert(next.delivered[k] == m);
        assert(next.state == state_after(next.delivered, t + 2));
        lemma_chain_in_order(next, t + 1);
        assert(v.delivered.submap_of(next.delivered));
        vstd::map_lib::lemma_submap_of_trans(v.delivered, next.delivered, r.delivered);
        assert forall|j: u64| #[trigger] r.delivered.contains_key(j) && !v.delivered.contains_key(j) implies j > t by {
            if !next.delivered.contains_key(j) {
            } else {
                assert(j == k);
            }
        }
        assert forall|j: u64| #[trigger] v.deliverable.contains_key(j) implies {
            ||| r.deliverable.contains_key(j) && r.deliverable[j] == v.deliverable[j]
            ||| r.delivered.contains_key(j) && r.delivered[j] == v.deliverable[j]
        } by {
            if j == k {
                assert(next.delivered.contains_key(k));
            } else {
                assert(next.deliverable.contains_key(j));
            }
        }
    } else {
        assert(r == v);
        lemma_next_time(v.delivered, t + 1);
    }
}

/// Taking an accepted message `m` stamped `t` keeps delivery in order, keeps
/// every delivered and every waiting message, delivers only at times later
/// than everything delivered before, and leaves `m` either delivered or
/// waiting at `t`.
proof fn lemma_queue_or_deliver_in_order(v: WorkerView, t: u64, m: BroadcastMessage)
    requires
        delivers_in_order(v),
        queue_or_deliver_fits(v, t, m),
    ensures
        ({
            let r = queue_or_deliver(v, t, m);
            &&& delivers_in_order(r)
            &&& v.delivered.submap_of(r.delivered)
            &&& forall|k: u64, j: u64|
                #[trigger] r.delivered.contains_key(k) && !v.delivered.contains_key(k)
                    && #[trigger] v.delivered.contains_key(j) ==> j < k
            &&& !v.deliverable.contains_key(t) ==> keeps_waiting_messages(v, r)
            &&& {
                ||| r.delivered.contains_key(t) && r.delivered[t] == m
                ||| r.deliverable.contains_key(t) && r.deliverable[t] == m
            }
            &&& r.undelivered == v.undelivered
            &&& r.worker_id == v.worker_id
        }),
{
    let n = next_time(v.delivered);
    let r = queue_or_deliver(v, t, m);
    if t == n {
        let d = deliver(v, t, m);
        assert(r == deliver_chain(d, t as int));
        assert forall|j: u64| #[trigger] d.delivered.contains_key(j) <==> j <= t by {
            if j != t {
                assert(d.delivered.contains_key(j) == v.delivered.contains_key(j));
            }
        }
        lemma_state_after_agree(d.delivered, v.delivered, t as int);
        assert(d.delivered[t] == m);
        assert(d.state == state_after(d.delivered, t + 1));
        lemma_chain_in_order(d, t as int);
        assert(v.delivered.submap_of(d.delivered));
        vstd::map_lib::lemma_submap_of_trans(v.delivered, d.delivered, r.delivered);
        assert forall|k: u64, j: u64|
            #[trigger] r.delivered.contains_key(k) && !v.delivered.contains_key(k)
                && #[trigger] v.delivered.contains_key(j) implies j < k by {
            if !d.delivered.contains_key(k) {
            } else {
                assert(k == t);
            }
        }
        assert(d.deliverable == v.deliverable);
        assert(keeps_waiting_messages(d, r));
        assert(keeps_waiting_messages(v, r));
        assert(d.delivered.contains_key(t));
    } else {
        assert(r.delivered == v.delivered);
        assert(delivers_in_order(r));
    }
}

/// Total-order delivery is kept by every message from the master: after
/// handling it, the worker has delivered the logical times `0, 1, ...`
/// without a gap, its state is the in-order fold of what it delivered, and
/// nothing waits at the next logical time. Nothing delivered is taken back
/// or changed, new deliveries come after all earlier ones, a request for
/// proposals changes nothing, no waiting message is lost (unless a second
/// message is accepted for a time at which one already waits: it replaces
/// it), and an accepted message is then delivered or waiting at its time.
pub proof fn lemma_total_order_delivery(v: WorkerView, msg: MasterMessage)
    requires
        delivers_in_order(v),
        v.accepts(msg),
    ensures
        ({
            let r = v.after_message(msg);
            &&& delivers_in_order(r)
            &&& v.delivered.submap_of(r.delivered)
            &&& forall|k: u64, j: u64|
                #[trigger] r.delivered.contains_key(k) && !v.delivered.contains_key(k)
                    && #[trigger] v.delivered.contains_key(j) ==> j < k
            &&& msg is Rfp ==> r == v
            &&& msg matches MasterMessage::AcceptedProposalBroadcast { logical_time, broadcast_message } ==> {
                let t = logical_time.time;
                let m = v.accepted_message(broadcast_message);
                &&& !v.deliverable.contains_key(t) ==> keeps_waiting_messages(v, r)
                &&& {
                    ||| r.delivered.contains_key(t) && r.delivered[t] == m
                    ||| r.deliverable.contains_key(t) && r.deliverable[t] == m
                }
            }
        }),
{
    match msg {
        MasterMessage::Rfp { .. } => {
            assert(v.after_message(msg) == v);
        },
        MasterMessage::AcceptedProposalBroadcast { logical_time, broadcast_message } => {
            let b = v.before_accepting(broadcast_message);
            assert(b.delivered == v.delivered && b.deliverable == v.deliverable && b.state == v.state);
            lemma_queue_or_deliver_in_order(b, logical_time.time, v.accepted_message(broadcast_message));
        },
    }
}

/// A request for proposals stamped `t` is answered with a proposal exactly
/// when the worker has an undelivered message; the proposal is then the
/// front message itself, every field of it, which has the lowest sequence
/// number of all undelivered messages, stamped `t` and signed with the
/// worker's id. With no undelivered message the answer is that the queue is
/// empty.
pub proof fn lemma_rfp_answer_proposes_front(v: WorkerView, t: LamportClock)
    ensures
        v.undelivered.len() == 0 <==> v.rfp_answer(t) == WorkerResponse::MessageQueueEmpty,
        v.undelivered.len() > 0 ==> (v.rfp_answer(t) matches WorkerResponse::RfpResponse(rr) && {
            &&& rr.proposed_message.proposal == v.undelivered[0]
            &&& rr.proposed_message.proposal.content == v.undelivered[0].content
            &&& rr.proposed_message.proposal.sequence_number == v.undelivered[0].sequence_number
            &&& rr.proposed_message.logical_time == t
            &&& rr.proposed_message.worker_id == v.worker_id
        }),
        sorted_by_sequence(v.undelivered) && v.undelivered.len() > 0 ==> (v.rfp_answer(t) matches WorkerResponse::RfpResponse(rr)
            && is_lowest(rr.proposed_message.proposal, v.undelivered)),
{
}

proof fn lemma_as_signed(x: u128)
    ensures
        (x as i128) as int == as_signed(x),
{
    assert(x > 0x7fff_ffff_ffff_ffff_ffff_ffff_ffff_ffffu128 ==> (x as i128) + 0x7fff_ffff_ffff_ffff_ffff_ffff_ffff_ffffi128 + 1 == ((x - 0x8000_0000_0000_0000_0000_0000_0000_0000u128) as i128)) by (bit_vector);
}

impl Worker {
    /// The shape of a worker between two steps of a delivery: its
    /// undelivered messages are sorted by sequence number and both parts of
    /// its state are below 100.
    pub open spec fn basic_wf(&self) -> bool {
        &&& sorted_by_sequence(self@.undelivered)
        &&& self@.state.0 < 100
        &&& self@.state.1 < 100
    }

    /// The worker's invariant: [`Worker::basic_wf`], and it delivers in
    /// total order ([`delivers_in_order`]).
    pub open spec fn wf(&self) -> bool {
        &&& self.basic_wf()
        &&& delivers_in_order(self@)
    }

    /// A worker with the given id, state `(0, 0)` and no messages.
    pub fn new(id: u8) -> (w: Self)
        ensures
            w.wf(),
            w@.worker_id == id,
            w@.state == (0u8, 0u8),
            w@.undelivered == Seq::<BroadcastMessage>::empty(),
            w@.deliverable == Map::<u64, BroadcastMessage>::empty(),
            w@.delivered == Map::<u64, BroadcastMessage>::empty(),
    {
        proof {
            assert(Map::<u64, BroadcastMessage>::empty().dom() =~= Set::empty());
        }
        Worker {
            worker_id: id,
            state: (0, 0),
            undelivered_priority_queue: MessageQueue::new(),
            deliverable_queue: BTreeMap::new(),
            delivered_messages: BTreeMap::new(),
        }
    }

    /// Applies a delivered message's content to the state.
    fn update_state(&mut self, msg_content: u8)
        requires
            old(self).basic_wf(),
            old(self)@.state.0 + msg_content <= u8::MAX,
        ensures
            final(self).basic_wf(),
            final(self)@ == (WorkerView { state: next_state(old(self)@.state, msg_content), ..old(self)@ }),
    {
        let updated_element = (self.state.0 + msg_content) % 100;
        self.state = (self.state.1, updated_element);
    }

    /// Delivers the message waiting at `logical_time + 1`, if there is one,
    /// and says whether there was.
    fn check_queue_for_deliverable(&mut self, logical_time: LamportClock) -> (r: Result<bool, WorkerError>)
        requires
            old(self).basic_wf(),
            logical_time.time < u64::MAX,
            old(self)@.deliverable.contains_key((logical_time.time + 1) as u64) ==> old(self)@.state.0
                + old(self)@.deliverable[(logical_time.time + 1) as u64].content <= u8::MAX,
        ensures
            final(self).basic_wf(),
            ({
                let k = (logical_time.time + 1) as u64;
                if old(self)@.deliverable.contains_key(k) {
                    let w = deliver(old(self)@, k, old(self)@.deliverable[k]);
                    &&& r == Ok::<bool, WorkerError>(true)
                    &&& final(self)@ == (WorkerView { deliverable: old(self)@.deliverable.remove(k), ..w })
                } else {
                    &&& r == Ok::<bool, WorkerError>(false)
                    &&& final(self)@ == old(self)@
                }
            }),
    {
        let next_deliverable = LamportClock { time: logical_time.time + 1 };
        let ghost k = next_deliverable.time;
        match self.deliverable_queue.remove(&next_deliverable.time) {
            Some(deliverable) => {
                assert(old(self)@.deliverable.contains_key(k));
                assert(deliverable == old(self)@.deliverable[k]);
                assert(self@.deliverable == old(self)@.deliverable.remove(k));
                self.update_state(deliverable.content);
                self.delivered_messages.insert(next_deliverable.time, deliverable.clone());
                Ok(true)
            },
            None => {
                assert(!old(self)@.deliverable.contains_key(k));
                assert(self@.deliverable =~= old(self)@.deliverable);
                Ok(false)
            },
        }
    }

    /// Delivers the waiting messages at `logical_time + 1`, `+ 2`, ... for as
    /// long as the next one is waiting.
    fn recursively_process_queue_for_sequential_deliverables(&mut self, logical_time: LamportClock) -> (r: Result<(), WorkerError>)
        requires
            old(self).basic_wf(),
            deliver_chain_fits(old(self)@, logical_time.time as int),
        ensures
            final(self).basic_wf(),
            r is Ok,
            final(self)@ == deliver_chain(old(self)@, logical_time.time as int),
        decreases u64::MAX - logical_time.time,
    {
        match self.check_queue_for_deliverable(logical_time) {
            Ok(true) => {
                self.recursively_process_queue_for_sequential_deliverables(
                    LamportClock { time: logical_time.time + 1 },
                )?;
            },
            Ok(false) => return Ok(()),
            Err(e) => {
                return Err(e);
            },
        }
        Ok(())
    }
    /// Delivers `broadcast_message` at `logical_time` if that is the next
    /// logical time, and then every message waiting right after it; queues
    /// it under its logical time otherwise (under a time delivered already it
    /// stays queued for good). Confirms the logical time to the master.
    fn queue_message_or_deliver(&mut self, logical_time: LamportClock, broadcast_message: BroadcastMessage) -> (r: Result<WorkerResponse, WorkerError>)
        requires
            old(self).wf(),
            queue_or_deliver_fits(old(self)@, logical_time.time, broadcast_message),
        ensures
            final(self).wf(),
            final(self)@ == queue_or_deliver(old(self)@, logical_time.time, broadcast_message),
            r == Ok::<WorkerResponse, WorkerError>(
                WorkerResponse::StateUpdateConfirmed { worker_id: old(self)@.worker_id, logical_time },
            ),
    {
        let worker_id = self.worker_id;
        proof {
            lemma_queue_or_deliver_in_order(self@, logical_time.time, broadcast_message);
        }
        let expected: u64 = match latest_key(&self.delivered_messages) {
            Some(last_delivered) => {
                proof {
                    assert(is_latest_key(self@.delivered, latest_time(self@.delivered)));
                    assert(latest_time(self@.delivered) == last_delivered);
                }
                last_delivered + 1
            },
            None => 0,
        };
        if logical_time.time == expected {
            self.update_state(broadcast_message.content);
            self.delivered_messages.insert(logical_time.time, broadcast_message);
            proof {
                assert(self@ == deliver(old(self)@, logical_time.time, broadcast_message));
            }
            self.recursively_process_queue_for_sequential_deliverables(logical_time)?;
        } else {
            self.deliverable_queue.insert(logical_time.time, broadcast_message);
        }
        Ok(WorkerResponse::StateUpdateConfirmed { worker_id, logical_time })
    }

    /// Handles a proposal the master accepted: if this worker proposed it, the
    /// front of its queue leaves the queue marked deliverable and takes its
    /// place; then it is delivered or queued by logical time.
    fn handle_accepted_proposal(&mut self, logical_time: LamportClock, broadcast_message: BroadcastMessage) -> (r: Result<WorkerResponse, WorkerError>)
        requires
            old(self).wf(),
            old(self)@.accepting_fits(logical_time.time, broadcast_message),
        ensures
            final(self).wf(),
            final(self)@ == old(self)@.after_accepting(logical_time.time, broadcast_message),
            r == Ok::<WorkerResponse, WorkerError>(
                WorkerResponse::StateUpdateConfirmed { worker_id: old(self)@.worker_id, logical_time },
            ),
    {
        let takes_front = match self.undelivered_priority_queue.peek() {
            Some(_) => broadcast_message.worker_id == self.worker_id,
            None => false,
        };
        if takes_front {
            let popped = self.undelivered_priority_queue.pop();
            match popped {
                Some(mut deliverable_message) => {
                    deliverable_message.deliverable = true;
                    proof {
                        assert(self@ == old(self)@.before_accepting(broadcast_message));
                    }
                    let result = self.queue_message_or_deliver(logical_time, deliverable_message)?;
                    Ok(result)
                },
                None => {
                    proof {
                        assert(false);
                    }
                    Ok(WorkerResponse::NoResponse)
                },
            }
        } else {
            let result = self.queue_message_or_deliver(logical_time, broadcast_message)?;
            Ok(result)
        }
    }
    /// The sequence number of the `index`-th message generated at
    /// `timestamp`; see [`sequence_number_for`].
    pub fn generate_sequence_number(&self, timestamp: u128, index: u64) -> (r: i128)
        requires
            sequence_number_fits(self@.worker_id, timestamp, index),
        ensures
            r == sequence_number_for(self@.worker_id, timestamp, index),
    {
        proof {
            lemma_as_signed(timestamp);
        }
        (timestamp as i128) * 1000 + (self.worker_id as i128) * 100 + (index as i128)
    }

    /// Fills the queue of undelivered messages with ten messages generated at
    /// `current_time` (milliseconds since the epoch), each with a random
    /// content from 0 to 25. Stops with an error at the first sequence
    /// number that is not an `i64`, keeping the messages queued before it.
    pub fn initialize_message_queue(&mut self, current_time: u128) -> (r: Result<(), WorkerError>)
        requires
            old(self).wf(),
            sequence_number_fits(old(self)@.worker_id, current_time, 0),
        ensures
            final(self).wf(),
            final(self)@.worker_id == old(self)@.worker_id,
            final(self)@.state == old(self)@.state,
            final(self)@.deliverable == old(self)@.deliverable,
            final(self)@.delivered == old(self)@.delivered,
            ({
                let k = first_unfit_index(old(self)@.worker_id, current_time, 0);
                &&& k == 10 ==> r is Ok
                &&& k < 10 ==> r == Err::<(), WorkerError>(WorkerError::SequenceNumberOverflow { index: k })
                &&& exists|added: Seq<BroadcastMessage>|
                    {
                        &&& added.len() == k
                        &&& generated_messages(old(self)@.worker_id, current_time, added)
                        &&& final(self)@.undelivered.to_multiset() == old(self)@.undelivered.to_multiset().add(added.to_multiset())
                    }
            }),
    {
        let ghost wid = self@.worker_id;
        let ghost mut added: Seq<BroadcastMessage> = Seq::empty();
        let ghost start = self@;
        proof {
            vstd::multiset::lemma_multiset_empty_len(added.to_multiset());
            assert(added.to_multiset() =~= vstd::multiset::Multiset::empty());
            assert(start.undelivered.to_multiset().add(added.to_multiset()) =~= start.undelivered.to_multiset());
        }
        for i in 0..10u64
            invariant
                self.wf(),
                start == old(self)@,
                self@.worker_id == wid,
                wid == start.worker_id,
                self@.state == start.state,
                self@.deliverable == start.deliverable,
                self@.delivered == start.delivered,
                sequence_number_fits(wid, current_time, 0),
                i > 0 ==> fits_i64(sequence_number_for(wid, current_time, (i - 1) as u64)),
                added.len() == i,
                generated_messages(wid, current_time, added),
                self@.undelivered.to_multiset() == start.undelivered.to_multiset().add(added.to_multiset()),
                first_unfit_index(wid, current_time, 0) == first_unfit_index(wid, current_time, i),
        {
            let msg_value: u32 = random_in_range(0, 26);
            let seq_num = self.generate_sequence_number(current_time, i);
            if seq_num < i64::MIN as i128 || seq_num > i64::MAX as i128 {
                return Err(WorkerError::SequenceNumberOverflow { index: i });
            }
            let m = BroadcastMessage {
                worker_id: self.worker_id,
                sequence_number: seq_num as i64,
                content: msg_value as u8,
                deliverable: false,
            };
            self.undelivered_priority_queue.push(m);
            proof {
                let old_added = added;
                added = added.push(m);
                assert(added.to_multiset() =~= old_added.to_multiset().insert(m));
                assert(self@.undelivered.to_multiset() =~= start.undelivered.to_multiset().add(added.to_multiset()));
                assert forall|j: int| 0 <= j < added.len() implies #[trigger] added[j] == (if j < old_added.len() { old_added[j] } else { m }) by {}
            }
        }
        Ok(())
    }
    /// Answers a request for proposals stamped `rfp_logical_time`: proposes
    /// the undelivered message with the lowest sequence number, or reports
    /// an empty queue.
    fn generate_rfp_response(&mut self, rfp_logical_time: LamportClock) -> (r: Result<WorkerResponse, WorkerError>)
        requires
            old(self).wf(),
        ensures
            final(self)@ == old(self)@,
            r == Ok::<WorkerResponse, WorkerError>(old(self)@.rfp_answer(rfp_logical_time)),
            r matches Ok(WorkerResponse::RfpResponse(rr)) ==> is_lowest(rr.proposed_message.proposal, old(self)@.undelivered),
    {
        if let Some(top_of_queue) = self.undelivered_priority_queue.peek() {
            let proposal = Proposal {
                logical_time: rfp_logical_time,
                worker_id: self.worker_id,
                proposal: top_of_queue.clone(),
            };
            let response = WorkerResponse::RfpResponse(RfpResponse { proposed_message: proposal });
            Ok(response)
        } else {
            Ok(WorkerResponse::MessageQueueEmpty)
        }
    }

    /// Handles a message from the master and returns the answer to send back.
    pub fn handle_master_message(&mut self, msg: MasterMessage) -> (r: Result<WorkerResponse, WorkerError>)
        requires
            old(self).wf(),
            old(self)@.accepts(msg),
        ensures
            final(self).wf(),
            final(self)@ == old(self)@.after_message(msg),
            r == Ok::<WorkerResponse, WorkerError>(old(self)@.answer(msg)),
            msg is Rfp ==> final(self)@ == old(self)@,
            msg matches MasterMessage::Rfp { master_clock } ==> {
                &&& old(self)@.undelivered.len() == 0 ==> r == Ok::<WorkerResponse, WorkerError>(
                    WorkerResponse::MessageQueueEmpty,
                )
                &&& old(self)@.undelivered.len() > 0 ==> (r matches Ok(WorkerResponse::RfpResponse(rr)) && {
                    &&& rr.proposed_message.proposal == old(self)@.undelivered[0]
                    &&& rr.proposed_message.logical_time == master_clock
                    &&& rr.proposed_message.worker_id == old(self)@.worker_id
                    &&& is_lowest(rr.proposed_message.proposal, old(self)@.undelivered)
                })
            },
            msg matches MasterMessage::AcceptedProposalBroadcast { logical_time, broadcast_message } ==> {
                let v = old(self)@;
                let t = logical_time.time;
                &&& (broadcast_message.worker_id == v.worker_id && v.undelivered.len() > 0) ==> {
                    &&& final(self)@.undelivered == v.undelivered.drop_first()
                    &&& final(self)@ == queue_or_deliver(
                        WorkerView { undelivered: v.undelivered.drop_first(), ..v },
                        t,
                        BroadcastMessage { deliverable: true, ..v.undelivered[0] },
                    )
                }
                &&& broadcast_message.worker_id != v.worker_id ==> {
                    &&& final(self)@.undelivered == v.undelivered
                    &&& final(self)@ == queue_or_deliver(v, t, broadcast_message)
                }
            },
    {
        match msg {
            MasterMessage::Rfp { master_clock } => {
                proof {
                    lemma_rfp_answer_proposes_front(self@, master_clock);
                }
                Ok(self.generate_rfp_response(master_clock)?)
            },
            MasterMessage::AcceptedProposalBroadcast { logical_time, broadcast_message } => {
                proof {
                    let v = self@;
                    lemma_queue_or_deliver_in_order(
                        v.before_accepting(broadcast_message),
                        logical_time.time,
                        v.accepted_message(broadcast_message),
                    );
                }
                Ok(self.handle_accepted_proposal(logical_time, broadcast_message)?)
            },
        }
    }

    /// The worker's id.
    pub fn worker_id(&self) -> (r: u8)
        ensures
            r == self@.worker_id,
    {
        self.worker_id
    }

    /// The worker's replicated state.
    pub fn state(&self) -> (r: (u8, u8))
        ensures
            r == self@.state,
    {
        self.state
    }

    /// The number of messages still to be proposed.
    pub fn undelivered_len(&self) -> (r: usize)
        ensures
            r == self@.undelivered.len(),
    {
        self.undelivered_priority_queue.len()
    }

    /// The message this worker would propose next, if any.
    pub fn next_proposal(&self) -> (r: Option<BroadcastMessage>)
        requires
            self.wf(),
        ensures
            self@.undelivered.len() == 0 ==> r is None,
            self@.undelivered.len() > 0 ==> r == Some(self@.undelivered[0]),
    {
        match self.undelivered_priority_queue.peek() {
            Some(m) => Some(*m),
            None => None,
        }
    }

    /// The accepted message waiting to be delivered at `time`, if any.
    pub fn deliverable_at(&self, time: u64) -> (r: Option<BroadcastMessage>)
        ensures
            self@.deliverable.contains_key(time) ==> r == Some(self@.deliverable[time]),
            !self@.deliverable.contains_key(time) ==> r is None,
    {
        match self.deliverable_queue.get(&time) {
            Some(m) => Some(*m),
            None => None,
        }
    }

    /// The message delivered at `time`, if any.
    pub fn delivered_at(&self, time: u64) -> (r: Option<BroadcastMessage>)
        ensures
            self@.delivered.contains_key(time) ==> r == Some(self@.delivered[time]),
            !self@.delivered.contains_key(time) ==> r is None,
    {
        match self.delivered_messages.get(&time) {
            Some(m) => Some(*m),
            None => None,
        }
    }

    /// The number of accepted messages waiting to be delivered.
    pub fn deliverable_len(&self) -> (r: usize)
        ensures
            r == self@.deliverable.len(),
    {
        self.deliverable_queue.len()
    }

    /// The number of delivered messages.
    pub fn delivered_len(&self) -> (r: usize)
        ensures
            r == self@.delivered.len(),
    {
        self.delivered_messages.len()
    }

    /// Whether delivering the waiting messages after time `t`, from `state`,
    /// stays within the machine's integers.
    fn waiting_chain_fits(&self, state: (u8, u8), t: u64) -> (r: bool)
        ensures
            r == chain_fits(self@.deliverable, state, t as int),
    {
        let ghost d0 = self@.deliverable;
        let ghost mut gd = d0;
        let mut k: u64 = t;
        let mut st: (u8, u8) = state;
        loop
            invariant
                t <= k,
                d0 == self@.deliverable,
                chain_fits(d0, state, t as int) == chain_fits(gd, st, k as int),
                forall|j: u64| j > k ==> #[trigger] gd.contains_key(j) == d0.contains_key(j),
                forall|j: u64| j > k && d0.contains_key(j) ==> #[trigger] gd[j] == d0[j],
            decreases u64::MAX - k,
        {
            if k == u64::MAX {
                return false;
            }
            match self.deliverable_queue.get(&(k + 1)) {
                None => {
                    assert(!gd.contains_key((k + 1) as u64));
                    return true;
                },
                Some(m) => {
                    assert(gd.contains_key((k + 1) as u64) && gd[(k + 1) as u64] == *m);
                    if m.content > 255 - st.0 {
                        return false;
                    }
                    proof {
                        gd = gd.remove((k + 1) as u64);
                    }
                    st = (st.1, (st.0 + m.content) % 100);
                    k = k + 1;
                },
            }
        }
    }

    /// Whether the worker can take `msg` within the machine's integers, that
    /// is, without a logical time passing `u64::MAX` or a state sum passing
    /// `u8::MAX` while it delivers.
    pub fn accepts_message(&self, msg: &MasterMessage) -> (r: bool)
        requires
            self.wf(),
        ensures
            r == self@.accepts(*msg),
    {
        match msg {
            MasterMessage::Rfp { .. } => true,
            MasterMessage::AcceptedProposalBroadcast { logical_time, broadcast_message } => {
                let takes_front = match self.undelivered_priority_queue.peek() {
                    Some(_) => broadcast_message.worker_id == self.worker_id,
                    None => false,
                };
                let m = if takes_front {
                    match self.undelivered_priority_queue.peek() {
                        Some(top_of_queue) => {
                            let mut front = *top_of_queue;
                            front.deliverable = true;
                            front
                        },
                        None => *broadcast_message,
                    }
                } else {
                    *broadcast_message
                };
                proof {
                    assert(m == self@.accepted_message(*broadcast_message));
                }
                let expected: u64 = match latest_key(&self.delivered_messages) {
                    None => 0,
                    Some(last) => {
                        proof {
                            assert(is_latest_key(self@.delivered, latest_time(self@.delivered)));
                            assert(latest_time(self@.delivered) == last);
                        }
                        if last == u64::MAX {
                            return false;
                        }
                        last + 1
                    },
                };
                if logical_time.time != expected {
                    true
                } else if m.content > 255 - self.state.0 {
                    false
                } else {
                    let next = (self.state.1, (self.state.0 + m.content) % 100);
                    self.waiting_chain_fits(next, logical_time.time)
                }
            },
        }
    }

    /// Whether the first sequence number generated at `current_time` can be
    /// computed in `i128` without overflow (the later ones then can too,
    /// or generation stops before them).
    pub fn initial_sequence_numbers_fit(&self, current_time: u128) -> (r: bool)
        ensures
            r == sequence_number_fits(self@.worker_id, current_time, 0),
    {
        proof {
            lemma_as_signed(current_time);
        }
        let t = current_time as i128;
        match t.checked_mul(1000) {
            None => false,
            Some(a) => a.checked_add((self.worker_id as i128) * 100).is_some(),
        }
    }
}

} // verus!
