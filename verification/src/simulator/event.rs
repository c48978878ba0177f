//! Event queue with deterministic ordering.
//!
//! Events are ordered by `(timestamp, sequence_number)`. The sequence number
//! breaks ties when several events share a timestamp, giving FIFO order among
//! same-time insertions and reproducible runs.
use crate::types::{ActorId, Message};
use vstd::prelude::*;

verus! {

/// An event injected into the simulation from outside the protocol. It is
/// not subject to network faults or delays.
#[derive(Debug, Clone, Copy, PartialEq, Eq, Structural, PartialOrd, Ord)]
pub enum ExternalEvent {
    /// Start a transaction: the coordinator begins its messaging.
    StartTransaction,
    /// Call `tick` on a single actor at the current simulator time.
    Tick { to: ActorId },
    /// Call `tick` on every actor at the current simulator time.
    TickAll,
    /// Crash an actor: messages delivered to it are dropped until it recovers.
    Crash(ActorId),
    /// Recover an actor from its durable state.
    Recover(ActorId),
}

/// An event produced by the protocol itself.
#[derive(Debug, Clone, Copy, PartialEq, Eq, Structural, PartialOrd, Ord)]
pub enum InternalEvent {
    Deliver { to: ActorId, msg: Message },
}

/// Any event of the simulation.
#[derive(Debug, Clone, Copy, PartialEq, Eq, Structural, PartialOrd, Ord)]
pub enum Event {
    External(ExternalEvent),
    Internal(InternalEvent),
}

/// An event tagged with its delivery time and insertion order.
#[derive(Debug, Clone, Copy, PartialEq, Eq, Structural)]
pub struct TimestampedEvent {
    pub timestamp: u64,
    pub sequence_number: u64,
    pub event: Event,
}

/// Whether `a` comes no later than `b` in `(timestamp, sequence_number)` order.
pub open spec fn no_later(a: TimestampedEvent, b: TimestampedEvent) -> bool {
    a.timestamp < b.timestamp || (a.timestamp == b.timestamp && a.sequence_number <= b.sequence_number)
}

/// The largest timestamp in `s`, or 0 if it is empty.
pub open spec fn max_timestamp(s: Seq<TimestampedEvent>) -> u64
    decreases s.len(),
{
    if s.len() == 0 {
        0
    } else {
        let rest = max_timestamp(s.drop_last());
        if rest < s.last().timestamp { s.last().timestamp } else { rest }
    }
}

/// A priority queue of events, earliest first.
pub struct EventQueue {
    queue: Vec<TimestampedEvent>,
    /// Counter assigned to each inserted event; it breaks ties between
    /// events at the same timestamp.
    next_sequence_number: u64,
}

/// The abstract state of an event queue: the pending events (in no
/// particular order) and the next sequence number.
pub struct EventQueueModel {
    pub pending: Seq<TimestampedEvent>,
    pub next_sequence_number: u64,
}

impl View for EventQueue {
    type V = EventQueueModel;

    closed spec fn view(&self) -> EventQueueModel {
        EventQueueModel { pending: self.queue@, next_sequence_number: self.next_sequence_number }
    }
}

impl EventQueueModel {
    /// Sequence numbers are unique and below the next one to be assigned.
    pub open spec fn wf(self) -> bool {
        &&& forall|i: int| 0 <= i < self.pending.len() ==> #[trigger] self.pending[i].sequence_number < self.next_sequence_number
        &&& forall|i: int, j: int|
            0 <= i < self.pending.len() && 0 <= j < self.pending.len() && i != j
                ==> #[trigger] self.pending[i].sequence_number != #[trigger] self.pending[j].sequence_number
    }

    /// Whether the event at `i` is the earliest pending one.
    pub open spec fn is_earliest(self, i: int) -> bool {
        &&& 0 <= i < self.pending.len()
        &&& forall|j: int| 0 <= j < self.pending.len() ==> no_later(self.pending[i], #[trigger] self.pending[j])
    }

}

impl EventQueue {
    /// An empty queue.
    pub fn new() -> (q: Self)
        ensures
            q@.pending == Seq::<TimestampedEvent>::empty(),
            q@.next_sequence_number == 0,
            q@.wf(),
    {
        EventQueue { queue: Vec::new(), next_sequence_number: 0 }
    }

    /// Add `event` at `timestamp`, tagged with the next sequence number.
    pub fn insert(&mut self, timestamp: u64, event: Event)
        requires
            old(self)@.next_sequence_number < u64::MAX,
        ensures
            final(self)@.pending == old(self)@.pending.push(TimestampedEvent {
                timestamp,
                sequence_number: old(self)@.next_sequence_number,
                event,
            }),
            final(self)@.next_sequence_number == old(self)@.next_sequence_number + 1,
            old(self)@.wf() ==> final(self)@.wf(),
    {
        let seq = self.next_sequence_number;
        self.next_sequence_number = self.next_sequence_number + 1;
        self.queue.push(TimestampedEvent { timestamp, sequence_number: seq, event });
    }

    /// The next sequence number to be assigned.
    pub fn next_sequence_number(&self) -> (n: u64)
        ensures
            n == self@.next_sequence_number,
    {
        self.next_sequence_number
    }

    /// The largest pending timestamp, or 0 if none is pending.
    pub fn latest_timestamp(&self) -> (t: u64)
        ensures
            t == max_timestamp(self@.pending),
    {
        let mut latest: u64 = 0;
        let mut i: usize = 0;
        while i < self.queue.len()
            invariant
                i <= self.queue@.len(),
                latest == max_timestamp(self.queue@.take(i as int)),
            decreases self.queue@.len() - i,
        {
            assert(self.queue@.take(i + 1).drop_last() == self.queue@.take(i as int));
            if latest < self.queue[i].timestamp {
                latest = self.queue[i].timestamp;
            }
            i = i + 1;
        }
        assert(self.queue@.take(i as int) == self.queue@);
        latest
    }

    /// Whether no event is pending.
    pub fn is_empty(&self) -> (empty: bool)
        ensures
            empty == (self@.pending.len() == 0),
    {
        self.queue.len() == 0
    }

    /// Remove and return the earliest pending event with its timestamp.
    pub fn next(&mut self) -> (next: Option<(u64, Event)>)
        ensures
            old(self)@.pending.len() == 0 ==> next.is_none() && final(self)@ == old(self)@,
            old(self)@.pending.len() > 0 ==> next.is_some() && exists|i: int| {
                &&& old(self)@.is_earliest(i)
                &&& next == Some((old(self)@.pending[i].timestamp, old(self)@.pending[i].event))
                &&& final(self)@.pending == old(self)@.pending.remove(i)
            },
            final(self)@.next_sequence_number == old(self)@.next_sequence_number,
            old(self)@.wf() ==> final(self)@.wf(),
    {
        if self.queue.len() == 0 {
            return None;
        }
        let mut best: usize = 0;
        let mut i: usize = 1;
        while i < self.queue.len()
            invariant
                0 <= best < i <= self.queue@.len(),
                self.queue@ == old(self)@.pending,
                forall|j: int| 0 <= j < i ==> no_later(self.queue@[best as int], #[trigger] self.queue@[j]),
            decreases self.queue@.len() - i,
        {
            let a = &self.queue[i];
            let b = &self.queue[best];
            if a.timestamp < b.timestamp || (a.timestamp == b.timestamp && a.sequence_number < b.sequence_number) {
                best = i;
            }
            i = i + 1;
        }
        let te = self.queue.remove(best);
        proof {
            assert(old(self)@.is_earliest(best as int));
        }
        Some((te.timestamp, te.event))
    }
}

} // verus!
