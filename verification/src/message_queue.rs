use vstd::prelude::*;
use crate::worker_types::BroadcastMessage;

verus! {

broadcast use vstd::seq_lib::group_to_multiset_ensures;

/// Whether the messages are in non-decreasing order of sequence number.
pub open spec fn sorted_by_sequence(s: Seq<BroadcastMessage>) -> bool {
    forall|i: int, j: int| 0 <= i <= j < s.len() ==> s[i].sequence_number <= s[j].sequence_number
}

/// Whether `m` has a sequence number no larger than that of any message in `s`.
pub open spec fn is_lowest(m: BroadcastMessage, s: Seq<BroadcastMessage>) -> bool {
    forall|j: int| 0 <= j < s.len() ==> m.sequence_number <= #[trigger] s[j].sequence_number
}

/// A min-priority queue of broadcast messages, ordered by sequence number:
/// the message at the front always has the lowest sequence number. Among
/// messages with equal sequence numbers, the one pushed first leaves first.
pub struct MessageQueue {
    items: Vec<BroadcastMessage>,
}

impl View for MessageQueue {
    type V = Seq<BroadcastMessage>;

    closed spec fn view(&self) -> Seq<BroadcastMessage> {
        self.items@
    }
}

impl MessageQueue {
    /// The queue's invariant: its messages, front first, are sorted by sequence number.
    pub open spec fn wf(&self) -> bool {
        sorted_by_sequence(self@)
    }

    /// An empty queue.
    pub fn new() -> (q: Self)
        ensures
            q.wf(),
            q@ == Seq::<BroadcastMessage>::empty(),
    {
        MessageQueue { items: Vec::new() }
    }

    /// The number of queued messages.
    pub fn len(&self) -> (n: usize)
        ensures
            n == self@.len(),
    {
        self.items.len()
    }

    /// Whether no message is queued.
    pub fn is_empty(&self) -> (b: bool)
        ensures
            b == (self@.len() == 0),
    {
        self.items.len() == 0
    }

    /// Adds a message behind every queued message whose sequence number is
    /// no larger than its own.
    pub fn push(&mut self, m: BroadcastMessage)
        requires
            old(self).wf(),
        ensures
            final(self).wf(),
            final(self)@.to_multiset() == old(self)@.to_multiset().insert(m),
            final(self)@.len() == old(self)@.len() + 1,
            exists|i: int|
                {
                    &&& 0 <= i <= old(self)@.len()
                    &&& final(self)@ == old(self)@.insert(i, m)
                    &&& forall|j: int| 0 <= j < i ==> #[trigger] old(self)@[j].sequence_number <= m.sequence_number
                    &&& i < old(self)@.len() ==> old(self)@[i].sequence_number > m.sequence_number
                },
    {
        let mut i: usize = 0;
        while i < self.items.len()
            invariant
                i <= self.items@.len(),
                forall|j: int| 0 <= j < i ==> self.items@[j].sequence_number <= m.sequence_number,
            ensures
                i <= self.items@.len(),
                forall|j: int| 0 <= j < i ==> self.items@[j].sequence_number <= m.sequence_number,
                i == self.items@.len() || self.items@[i as int].sequence_number > m.sequence_number,
            decreases self.items@.len() - i,
        {
            if self.items[i].sequence_number > m.sequence_number {
                break;
            }
            i = i + 1;
        }
        let ghost before = self.items@;
        self.items.insert(i, m);
        proof {
            let s = self.items@;
            assert(s == before.insert(i as int, m));
            assert forall|a: int, b: int| 0 <= a <= b < s.len() implies s[a].sequence_number
                <= s[b].sequence_number by {
                if b < i {
                } else if a > i {
                } else if a == i && b == i {
                } else if a == i {
                    assert(s[b] == before[b - 1]);
                    assert(before[i as int].sequence_number <= before[b - 1].sequence_number);
                } else if b == i {
                } else {
                }
            }
        }
    }

    /// The message at the front: one with the lowest sequence number.
    pub fn peek(&self) -> (r: Option<&BroadcastMessage>)
        requires
            self.wf(),
        ensures
            self@.len() == 0 ==> r is None,
            self@.len() > 0 ==> r == Some(&self@[0]),
            self@.len() > 0 ==> is_lowest(self@[0], self@),
    {
        if self.items.len() == 0 {
            None
        } else {
            Some(&self.items[0])
        }
    }

    /// Removes and returns the message at the front.
    pub fn pop(&mut self) -> (r: Option<BroadcastMessage>)
        requires
            old(self).wf(),
        ensures
            final(self).wf(),
            old(self)@.len() == 0 ==> r is None && final(self)@ == old(self)@,
            old(self)@.len() > 0 ==> r == Some(old(self)@[0]) && final(self)@ == old(self)@.drop_first(),
            old(self)@.len() > 0 ==> is_lowest(old(self)@[0], old(self)@),
    {
        if self.items.len() == 0 {
            None
        } else {
            let m = self.items.remove(0);
            Some(m)
        }
    }
}

} // verus!
