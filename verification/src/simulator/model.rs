//! The abstract state of the simulator, the protocol invariant over it, and
//! the specification of what a simulation step does.
use super::event::{max_timestamp, Event, EventQueueModel, InternalEvent, TimestampedEvent};
use super::properties::ObservationsModel;
use super::{ExternalEvent, LogEntry};
use crate::coordinator::{coordinator_recovered, coordinator_step, coordinator_tick, CoordinatorModel};
use crate::participant::{participant_step, Participant, ParticipantModel};
use crate::types::{decision_of, vote_of, ActorId, Decision, Message, MessageType, NodeId, Vote};
use vstd::prelude::*;

verus! {

/// The abstract state of a simulator.
pub struct SimulatorModel {
    pub coordinator: CoordinatorModel,
    /// Participants by node number.
    pub participants: Map<u8, ParticipantModel>,
    pub coordinator_crashed: bool,
    /// Node numbers currently marked crashed.
    pub crashed_nodes: Set<u8>,
    pub pending: Seq<TimestampedEvent>,
    pub next_sequence_number: u64,
    pub clock: u64,
    pub delay_start: u64,
    pub delay_end: u64,
    pub observations: ObservationsModel,
    pub log: Seq<LogEntry>,
}

/// The abstract states of `participants`.
pub open spec fn participant_models(participants: Map<u8, Participant>) -> Map<u8, ParticipantModel> {
    participants.map_values(|p: Participant| p@)
}

/// Consecutive empty probe rounds after which `Simulator::drain` declares
/// quiescence: actors with retransmit timeouts may send only after enough
/// time has passed.
pub const QUIESCENCE_THRESHOLD: usize = 12;

/// At most this many messages are sent in one step (two broadcasts to at
/// most 255 nodes).
pub const MAX_SENDS_PER_STEP: u64 = 512;

/// Participant `k` exists in `participants` and has made `v` its durable vote.
pub open spec fn durably_voted(participants: Map<u8, ParticipantModel>) -> spec_fn(u8, Vote) -> bool {
    |k: u8, v: Vote| participants.contains_key(k) && participants[k].durable_vote == Some(v)
}

/// Some participant has made Abort its durable vote.
pub open spec fn some_durable_abort_vote(participants: Map<u8, ParticipantModel>) -> bool {
    exists|k: u8| #[trigger] participants.contains_key(k) && participants[k].durable_vote == Some(Vote::Abort)
}

impl SimulatorModel {
    pub open spec fn with_participant(self, id: u8, p: ParticipantModel) -> SimulatorModel {
        SimulatorModel { participants: self.participants.insert(id, p), ..self }
    }

    pub open spec fn with_coordinator(self, c: CoordinatorModel) -> SimulatorModel {
        SimulatorModel { coordinator: c, ..self }
    }

    /// Whether `deliver_at` is a delivery time for a message sent now: the
    /// current time plus a delay drawn from the delivery-delay range, or the
    /// current time itself when the range is empty.
    pub open spec fn delivery_time_ok(self, deliver_at: u64) -> bool {
        if self.delay_start < self.delay_end {
            self.clock + self.delay_start <= deliver_at < self.clock + self.delay_end
        } else {
            deliver_at == self.clock
        }
    }

    /// The event at `i` is the earliest pending one.
    pub open spec fn is_earliest(self, i: int) -> bool {
        (EventQueueModel { pending: self.pending, next_sequence_number: self.next_sequence_number }).is_earliest(i)
    }

    /// Participant `k` exists and has made `v` its durable vote.
    pub open spec fn vote_is_durable(self) -> spec_fn(u8, Vote) -> bool {
        durably_voted(self.participants)
    }

    /// Participant `k` exists, has made `v` its durable vote, and the
    /// observations recorded `v` as the vote it sent.
    pub open spec fn vote_on_record(self) -> spec_fn(u8, Vote) -> bool {
        |k: u8, v: Vote| {
            &&& (durably_voted(self.participants))(k, v)
            &&& self.observations.votes.contains_key(k)
            &&& self.observations.votes[k] == v
        }
    }

    /// Participant `k` exists and has made its decision durable.
    pub open spec fn participant_decided(self) -> spec_fn(u8) -> bool {
        |k: u8| self.participants.contains_key(k) && self.participants[k].durable_decision is Some
    }

    /// A message may be sent: a vote is its sender's durable vote, a
    /// decision is the coordinator's durable decision, an acknowledgement
    /// comes from a participant whose decision is durable.
    pub open spec fn sendable(self, msg: Message) -> bool {
        &&& match vote_of(msg.message_type) {
            Some(v) => msg.from matches ActorId::Node(id) && (self.vote_is_durable())(id.0, v),
            None => true,
        }
        &&& match decision_of(msg.message_type) {
            Some(d) => self.coordinator.durable_decision == Some(d),
            None => true,
        }
        &&& (msg.message_type == MessageType::Ack
            ==> (msg.from matches ActorId::Node(id) && (self.participant_decided())(id.0)))
    }

    /// A message may be in flight: it may be sent, and a vote in it is on
    /// record as its sender's vote (votes are recorded when sent).
    pub open spec fn deliverable(self, msg: Message) -> bool {
        &&& self.sendable(msg)
        &&& match vote_of(msg.message_type) {
            Some(v) => msg.from matches ActorId::Node(id) && (self.vote_on_record())(id.0, v),
            None => true,
        }
    }

    /// A pending event is a delivery of a deliverable message to its
    /// addressee, or an external event.
    pub open spec fn event_ok(self, e: Event) -> bool {
        match e {
            Event::Internal(InternalEvent::Deliver { to, msg }) => to == msg.to && self.deliverable(msg),
            Event::External(_) => true,
        }
    }

    /// The protocol invariant: every actor is well formed, the coordinator's
    /// nodes are numbered from 0 and are the participants, and it holds fewer
    /// votes or acknowledgements than nodes; votes and decisions anywhere
    /// (in the coordinator, at participants, in flight, in the observations)
    /// agree with the durable state they came from, and a vote the
    /// coordinator holds or that is in flight is on record in the
    /// observations; a durable Commit decision comes with a durable
    /// Commit vote from every participant, on record in the observations;
    /// and an acknowledgement the coordinator holds comes from a participant
    /// whose decision is durable, and a completed coordinator has every
    /// participant's decision durable.
    pub open spec fn safe(self) -> bool {
        let c = self.coordinator;
        let p = self.participants;
        let o = self.observations;
        &&& c.wf()
        &&& p.dom().finite()
        &&& p.dom().len() == c.nodes.len()
        &&& c.nodes.len() <= 255
        &&& c.nodes == node_range(c.nodes.len())
        &&& forall|k: u8| #[trigger] p.contains_key(k) <==> k < c.nodes.len()
        &&& c.incomplete()
        &&& forall|k: u8| #[trigger] p.contains_key(k) ==> p[k].id == NodeId(k) && p[k].wf()
        &&& c.votes_satisfy(self.vote_on_record())
        &&& c.acks_satisfy(self.participant_decided())
        &&& (c.phase is Done ==> forall|k: u8| #[trigger] p.contains_key(k) ==> (self.participant_decided())(k))
        &&& forall|k: u8| #[trigger] o.votes.contains_key(k) ==> (self.vote_is_durable())(k, o.votes[k])
        &&& (o.coordinator_decision is Some ==> o.coordinator_decision == c.durable_decision)
        &&& forall|k: u8| #[trigger] o.participant_decisions.contains_key(k) ==> c.durable_decision == Some(o.participant_decisions[k])
        &&& forall|k: u8| #[trigger] p.contains_key(k) && p[k].durable_decision is Some ==> c.durable_decision == p[k].durable_decision
        &&& (c.durable_decision == Some(Decision::Commit) ==> forall|k: u8| #[trigger] p.contains_key(k) ==> (self.vote_on_record())(k, Vote::Commit))
        &&& (c.durable_decision == Some(Decision::Abort) && c.abort_bias == 0 ==> some_durable_abort_vote(p))
        &&& forall|i: int| 0 <= i < self.pending.len() ==> self.event_ok(#[trigger] self.pending[i].event)
        &&& (EventQueueModel { pending: self.pending, next_sequence_number: self.next_sequence_number }).wf()
    }

    /// A bound on what a step adds to the time: the end of the delay range,
    /// and at least one tick.
    pub open spec fn time_per_step(self) -> int {
        if self.delay_start < self.delay_end { self.delay_end as int } else { 1 }
    }

    /// The latest time this simulation has reached or scheduled.
    pub open spec fn latest(self) -> int {
        if self.clock < max_timestamp(self.pending) { max_timestamp(self.pending) as int } else { self.clock as int }
    }

    /// Nothing durable or observed in `self` is lost or changed in `later`:
    /// the coordinator's durable decision, each participant's durable vote
    /// and decision, and every observation stay as they were once made.
    pub open spec fn durable_kept(self, later: SimulatorModel) -> bool {
        &&& (self.coordinator.durable_decision is Some
            ==> later.coordinator.durable_decision == self.coordinator.durable_decision)
        &&& later.participants.dom() == self.participants.dom()
        &&& forall|k: u8| #[trigger] self.participants.contains_key(k) ==> {
            &&& (self.participants[k].durable_vote is Some
                ==> later.participants[k].durable_vote == self.participants[k].durable_vote)
            &&& (self.participants[k].durable_decision is Some
                ==> later.participants[k].durable_decision == self.participants[k].durable_decision)
        }
        &&& forall|k: u8| #[trigger] self.observations.votes.contains_key(k)
            ==> later.observations.votes.contains_key(k) && later.observations.votes[k] == self.observations.votes[k]
        &&& (self.observations.coordinator_decision is Some
            ==> later.observations.coordinator_decision == self.observations.coordinator_decision)
        &&& forall|k: u8| #[trigger] self.observations.participant_decisions.contains_key(k)
            ==> later.observations.participant_decisions.contains_key(k)
                && later.observations.participant_decisions[k] == self.observations.participant_decisions[k]
    }

    /// `later` is `self` after each of `msgs` was recorded as sent and
    /// queued for delivery, in order: at a delivery time drawn from the
    /// delay range, with the next sequence numbers, each logged as sent.
    pub open spec fn sends(self, msgs: Seq<Message>, later: SimulatorModel) -> bool {
        &&& later == (SimulatorModel {
            observations: after_all_sent(self.observations, msgs),
            pending: later.pending,
            next_sequence_number: (self.next_sequence_number + msgs.len()) as u64,
            log: later.log,
            ..self
        })
        &&& later.pending.len() == self.pending.len() + msgs.len()
        &&& later.log.len() == self.log.len() + msgs.len()
        &&& forall|i: int| 0 <= i < self.pending.len() ==> #[trigger] later.pending[i] == self.pending[i]
        &&& forall|i: int| 0 <= i < self.log.len() ==> #[trigger] later.log[i] == self.log[i]
        &&& forall|j: int| 0 <= j < msgs.len() ==> {
            let deliver_at = later.pending[self.pending.len() + j].timestamp;
            &&& self.delivery_time_ok(deliver_at)
            &&& #[trigger] later.pending[self.pending.len() + j] == TimestampedEvent {
                timestamp: deliver_at,
                sequence_number: (self.next_sequence_number + j) as u64,
                event: Event::Internal(InternalEvent::Deliver { to: msgs[j].to, msg: msgs[j] }),
            }
            &&& later.log[self.log.len() + j] == LogEntry::Send { at: self.clock, deliver_at, msg: msgs[j] }
        }
    }

    /// Whether `actor` is operating.
    pub open spec fn operating(self, actor: ActorId) -> bool {
        match actor {
            ActorId::Coordinator => !self.coordinator_crashed,
            ActorId::Node(id) => !self.crashed_nodes.contains(id.0),
        }
    }

    /// `later` and `out` are the coordinator's step on `msg` at the current
    /// time (its tick first), for some outcomes its coins can have.
    pub open spec fn coordinator_stepped(self, msg: Message, later: SimulatorModel, out: Seq<Message>) -> bool {
        exists|spontaneous: bool, coin: bool| {
            &&& #[trigger] self.coordinator.spontaneous_coin_possible(spontaneous)
            &&& #[trigger] self.coordinator.decide_coin_possible(coin)
            &&& later == self.with_coordinator(coordinator_step(self.coordinator, msg, self.clock, spontaneous, coin).0)
            &&& out == coordinator_step(self.coordinator, msg, self.clock, spontaneous, coin).1
        }
    }

    /// `later` and `out` are the coordinator's tick at the current time, for
    /// some outcome of its spontaneous-abort coin.
    pub open spec fn coordinator_ticked(self, later: SimulatorModel, out: Seq<Message>) -> bool {
        exists|spontaneous: bool| {
            &&& #[trigger] self.coordinator.spontaneous_coin_possible(spontaneous)
            &&& later == self.with_coordinator(coordinator_tick(self.coordinator, self.clock, spontaneous).0)
            &&& out == coordinator_tick(self.coordinator, self.clock, spontaneous).1
        }
    }

    /// `later` and `out` are participant `id`'s step on `msg`, for some
    /// outcome of its coin; nothing if there is no such participant.
    pub open spec fn participant_stepped(self, id: u8, msg: Message, later: SimulatorModel, out: Seq<Message>) -> bool {
        if self.participants.contains_key(id) {
            exists|coin: bool| {
                &&& #[trigger] self.participants[id].coin_possible(coin)
                &&& later == self.with_participant(id, participant_step(self.participants[id], msg, coin).0)
                &&& out == participant_step(self.participants[id], msg, coin).1
            }
        } else {
            later == self && out.len() == 0
        }
    }

    /// `later` and `out` are what handling external `event` does: start the
    /// transaction at the coordinator (nothing while it is crashed); tick one
    /// actor or all (participants never send on tick; a crashed actor is not
    /// ticked); mark an actor crashed; mark it operating, recovering a
    /// crashed coordinator from its durable state (a participant's recovery
    /// changes nothing abstract).
    pub open spec fn handled_external(self, event: ExternalEvent, later: SimulatorModel, out: Seq<Message>) -> bool {
        match event {
            ExternalEvent::StartTransaction => {
                if self.operating(ActorId::Coordinator) {
                    self.coordinator_stepped(start_message(), later, out)
                } else {
                    later == self && out.len() == 0
                }
            },
            ExternalEvent::Tick { to } => {
                if to is Coordinator && self.operating(to) {
                    self.coordinator_ticked(later, out)
                } else {
                    later == self && out.len() == 0
                }
            },
            ExternalEvent::TickAll => {
                if self.operating(ActorId::Coordinator) {
                    self.coordinator_ticked(later, out)
                } else {
                    later == self && out.len() == 0
                }
            },
            ExternalEvent::Crash(ActorId::Coordinator) => later == (SimulatorModel { coordinator_crashed: true, ..self })
                && out.len() == 0,
            ExternalEvent::Crash(ActorId::Node(id)) => later == (SimulatorModel { crashed_nodes: self.crashed_nodes.insert(id.0), ..self })
                && out.len() == 0,
            ExternalEvent::Recover(ActorId::Coordinator) => later == (SimulatorModel {
                coordinator_crashed: false,
                coordinator: if self.coordinator_crashed { coordinator_recovered(self.coordinator, self.clock) } else { self.coordinator },
                ..self
            }) && out.len() == 0,
            ExternalEvent::Recover(ActorId::Node(id)) => later == (SimulatorModel { crashed_nodes: self.crashed_nodes.remove(id.0), ..self })
                && out.len() == 0,
        }
    }

    /// `later` is `self` after the step that takes the pending event at `i`:
    /// the clock moves to its time; a message to a crashed actor is dropped
    /// (and logged so); otherwise the event is logged, a delivered decision
    /// recorded, the event handled by its actor, and what the actor sends
    /// queued.
    pub open spec fn stepped(self, i: int, later: SimulatorModel) -> bool {
        let e = self.pending[i];
        let taken = SimulatorModel { pending: self.pending.remove(i), clock: e.timestamp, ..self };
        match e.event {
            Event::Internal(InternalEvent::Deliver { to, msg }) => {
                if !taken.operating(msg.to) {
                    later == (SimulatorModel { log: taken.log.push(LogEntry::Drop { at: taken.clock, msg }), ..taken })
                } else {
                    let logged = SimulatorModel {
                        log: taken.log.push(LogEntry::Deliver { at: taken.clock, msg }),
                        observations: taken.observations.after_delivered(msg),
                        ..taken
                    };
                    exists|handled: SimulatorModel, out: Seq<Message>| {
                        &&& match to {
                            ActorId::Coordinator => logged.coordinator_stepped(msg, handled, out),
                            ActorId::Node(id) => logged.participant_stepped(id.0, msg, handled, out),
                        }
                        &&& #[trigger] handled.sends(out, later)
                    }
                }
            },
            Event::External(ext) => {
                let logged = SimulatorModel { log: taken.log.push(LogEntry::ExternalEvent { at: taken.clock, event: ext }), ..taken };
                exists|handled: SimulatorModel, out: Seq<Message>| {
                    &&& logged.handled_external(ext, handled, out)
                    &&& #[trigger] handled.sends(out, later)
                }
            },
        }
    }

    /// No event is pending and every operating actor is in a terminal state.
    pub open spec fn quiescent(self) -> bool {
        &&& self.pending.len() == 0
        &&& !self.coordinator_crashed ==> (self.coordinator.phase is Waiting || self.coordinator.phase is Done)
        &&& forall|k: u8| #[trigger] self.participants.contains_key(k) && !self.crashed_nodes.contains(k)
            ==> !(self.participants[k].phase is Voted)
    }

    /// Room for `rounds` rounds of draining: each round takes at most three
    /// steps and one tick of the clock.
    pub open spec fn room_for_drain(self, rounds: int) -> bool {
        &&& self.latest() + rounds * (3 * self.time_per_step() + 1) <= u64::MAX
        &&& self.next_sequence_number + rounds * (3 * MAX_SENDS_PER_STEP + 1) <= u64::MAX
    }

    /// Room for one more step: its timestamps and sequence numbers fit.
    pub open spec fn room_for_step(self) -> bool {
        &&& self.latest() + self.time_per_step() <= u64::MAX
        &&& self.next_sequence_number + MAX_SENDS_PER_STEP <= u64::MAX
    }
}

/// The last `k` entries of `log` are `TickAll` probes at consecutive
/// times, one tick apart, the last at `clock`.
pub open spec fn ends_with_probes(log: Seq<LogEntry>, k: int, clock: u64) -> bool {
    &&& 0 <= k <= log.len()
    &&& k <= clock + 1
    &&& forall|j: int| log.len() - k <= j < log.len() ==> #[trigger] log[j] == LogEntry::ExternalEvent {
        at: (clock - (log.len() - 1 - j)) as u64,
        event: ExternalEvent::TickAll,
    }
}

/// The message with which the simulator starts a transaction.
pub open spec fn start_message() -> Message {
    Message { message_type: MessageType::StartTransaction, from: ActorId::Coordinator, to: ActorId::Coordinator }
}

/// `Node(0)`, ..., `Node(n - 1)`.
pub open spec fn node_range(n: nat) -> Seq<NodeId> {
    Seq::new(n, |i: int| NodeId(i as u8))
}

/// The observations after each of `msgs` was sent, in order.
pub open spec fn after_all_sent(o: ObservationsModel, msgs: Seq<Message>) -> ObservationsModel
    decreases msgs.len(),
{
    if msgs.len() == 0 {
        o
    } else {
        after_all_sent(o, msgs.drop_last()).after_sent(msgs.last())
    }
}

} // verus!
