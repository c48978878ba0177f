//! Termination without crashes: while no actor has crashed, every vote and
//! every acknowledgement the coordinator waits for has a message on its
//! way, so the event queue empties only once the protocol is over.
use super::event::{Event, InternalEvent, TimestampedEvent};
use super::model::{SimulatorModel, QUIESCENCE_THRESHOLD};
use super::{ExternalEvent, LogEntry};
use crate::coordinator::{
    coordinator_message, coordinator_receive, coordinator_step, coordinator_tick, lemma_due_tick_covers, lemma_step_awaits,
    PhaseModel,
};
use crate::participant::{ack_message, participant_step, vote_message};
use crate::types::{decision_message_type, ActorId, Decision, Message, MessageType, NodeId};
use vstd::prelude::*;

verus! {

/// A delivery of `msg` is pending in `pending`.
pub open spec fn delivery_pending(pending: Seq<TimestampedEvent>, msg: Message) -> bool {
    exists|j: int| 0 <= j < pending.len()
        && #[trigger] pending[j].event == Event::Internal(InternalEvent::Deliver { to: msg.to, msg })
}

impl SimulatorModel {
    /// No crash has been processed: the log records none.
    pub open spec fn crash_free(self) -> bool {
        forall|j: int| 0 <= j < self.log.len()
            ==> !((#[trigger] self.log[j]) matches LogEntry::ExternalEvent { event: ExternalEvent::Crash(_), .. })
    }

    /// Node `k`'s vote is on its way: Prepare to it, or its durable vote to
    /// the coordinator, is pending.
    pub open spec fn vote_on_its_way(self, k: u8) -> bool {
        ||| delivery_pending(self.pending, coordinator_message(MessageType::Prepare, NodeId(k)))
        ||| (self.participants[k].durable_vote matches Some(v)
            && delivery_pending(self.pending, vote_message(NodeId(k), v)))
    }

    /// Node `k`'s acknowledgement of `d` is on its way: `d` to it, or its
    /// Ack, is pending.
    pub open spec fn ack_on_its_way(self, k: u8, d: Decision) -> bool {
        ||| delivery_pending(self.pending, coordinator_message(decision_message_type(d), NodeId(k)))
        ||| delivery_pending(self.pending, ack_message(NodeId(k)))
    }

    /// What the coordinator waits for is on its way: in `Voting` the vote of
    /// every participant it has no vote from, in `AwaitingAcks` the
    /// acknowledgement of every participant it has none from; and it is not
    /// left `Decided` (only recovery leaves it there).
    pub open spec fn awaited_in_flight(self) -> bool {
        match self.coordinator.phase {
            PhaseModel::Voting { votes, .. } => forall|k: u8|
                #[trigger] self.participants.contains_key(k) && !votes.contains_key(k) ==> self.vote_on_its_way(k),
            PhaseModel::Decided(_) => false,
            PhaseModel::AwaitingAcks { decision, acks, .. } => forall|k: u8|
                #[trigger] self.participants.contains_key(k) && !acks.contains(k) ==> self.ack_on_its_way(k, decision),
            _ => true,
        }
    }

    /// No Crash event is pending.
    pub open spec fn no_crash_pending(self) -> bool {
        forall|j: int| 0 <= j < self.pending.len()
            ==> !((#[trigger] self.pending[j]).event matches Event::External(ExternalEvent::Crash(_)))
    }

    /// Settled: nothing is crashed, no Crash is pending, and what the
    /// coordinator waits for is on its way.
    pub open spec fn settled(self) -> bool {
        &&& !self.coordinator_crashed
        &&& self.crashed_nodes == Set::<u8>::empty()
        &&& self.no_crash_pending()
        &&& self.awaited_in_flight()
    }

    /// Nothing is crashed and the one event pending is a `TickAll` at a time
    /// when the coordinator, managing at least one node, is due to send.
    pub open spec fn due_tick_pending(self) -> bool {
        &&& !self.coordinator_crashed
        &&& self.crashed_nodes == Set::<u8>::empty()
        &&& self.coordinator.nodes.len() > 0
        &&& self.pending.len() == 1
        &&& self.pending[0].event == Event::External(ExternalEvent::TickAll)
        &&& self.coordinator.tick_due(self.pending[0].timestamp)
    }

    /// Nothing is crashed, nothing is pending, and the coordinator, managing
    /// at least one node, is due to send within the ticks that
    /// [`drain`](super::Simulator::drain) probes before it gives up.
    pub open spec fn due_within_probes(self) -> bool {
        &&& !self.coordinator_crashed
        &&& self.crashed_nodes == Set::<u8>::empty()
        &&& self.coordinator.nodes.len() > 0
        &&& self.pending.len() == 0
        &&& self.clock + QUIESCENCE_THRESHOLD <= u64::MAX
        &&& self.coordinator.tick_due((self.clock + QUIESCENCE_THRESHOLD) as u64)
    }

    /// Every crashed actor has recovered and nothing is pending; the
    /// coordinator, managing at least one node, last sent no later than the
    /// clock shows, and its retransmit timeout is within the ticks that
    /// [`drain`](super::Simulator::drain) probes before it gives up.
    pub open spec fn recovered_at_rest(self) -> bool {
        &&& !self.coordinator_crashed
        &&& self.crashed_nodes == Set::<u8>::empty()
        &&& self.coordinator.nodes.len() > 0
        &&& self.pending.len() == 0
        &&& self.clock + QUIESCENCE_THRESHOLD <= u64::MAX
        &&& self.coordinator.retransmit_timeout <= QUIESCENCE_THRESHOLD
        &&& match self.coordinator.phase {
            PhaseModel::Voting { last_prepare_time, .. } => last_prepare_time <= self.clock,
            PhaseModel::AwaitingAcks { last_decision_time, .. } => last_decision_time <= self.clock,
            _ => true,
        }
    }

    /// The progress invariant: while no crash has happened, nothing is
    /// crashed and what the coordinator waits for is on its way.
    pub open spec fn progressing(self) -> bool {
        self.crash_free() ==> {
            &&& !self.coordinator_crashed
            &&& self.crashed_nodes == Set::<u8>::empty()
            &&& self.awaited_in_flight()
        }
    }
}

/// A pending delivery other than the event at `i` is still pending once
/// that event is taken.
proof fn lemma_pending_remove(s: Seq<TimestampedEvent>, i: int, msg: Message)
    requires
        0 <= i < s.len(),
        delivery_pending(s, msg),
        s[i].event != Event::Internal(InternalEvent::Deliver { to: msg.to, msg }),
    ensures
        delivery_pending(s.remove(i), msg),
{
    let j = choose|j: int| 0 <= j < s.len() && #[trigger] s[j].event == Event::Internal(InternalEvent::Deliver { to: msg.to, msg });
    if j < i {
        assert(s.remove(i)[j] == s[j]);
    } else {
        assert(s.remove(i)[j - 1] == s[j]);
    }
}

/// A pending delivery stays pending when events are added after it.
proof fn lemma_pending_extend(a: Seq<TimestampedEvent>, b: Seq<TimestampedEvent>, msg: Message)
    requires
        delivery_pending(a, msg),
        a.len() <= b.len(),
        forall|k: int| 0 <= k < a.len() ==> #[trigger] b[k] == a[k],
    ensures
        delivery_pending(b, msg),
{
    let j = choose|j: int| 0 <= j < a.len() && #[trigger] a[j].event == Event::Internal(InternalEvent::Deliver { to: msg.to, msg });
    assert(b[j] == a[j]);
}

/// A message sent is pending afterwards.
proof fn lemma_pending_sent(handled: SimulatorModel, out: Seq<Message>, later: SimulatorModel, msg: Message)
    requires
        handled.sends(out, later),
        out.contains(msg),
    ensures
        delivery_pending(later.pending, msg),
{
    let j = choose|j: int| 0 <= j < out.len() && out[j] == msg;
    assert(later.pending[handled.pending.len() + j].event == Event::Internal(InternalEvent::Deliver { to: msg.to, msg }));
}

/// A tick is a step on a message the coordinator ignores.
proof fn lemma_tick_is_step(c: crate::coordinator::CoordinatorModel, at: u64, spontaneous: bool, coin: bool)
    ensures
        coordinator_step(c, ignored_message(), at, spontaneous, coin).0 == coordinator_tick(c, at, spontaneous).0,
        coordinator_step(c, ignored_message(), at, spontaneous, coin).1 == coordinator_tick(c, at, spontaneous).1,
{
    let (c1, out1) = coordinator_tick(c, at, spontaneous);
    assert(coordinator_receive(c1, ignored_message(), at, coin) == (c1, Seq::<Message>::empty()));
    assert(out1 + Seq::<Message>::empty() =~= out1);
}

/// A message the coordinator ignores.
spec fn ignored_message() -> Message {
    Message { message_type: MessageType::Prepare, from: ActorId::Coordinator, to: ActorId::Coordinator }
}

/// A step of the coordinator on `msg`, after taking an event that is not
/// the delivery of a message to a participant, keeps what it waits for on
/// its way.
proof fn lemma_coordinator_event_progress(
    m: SimulatorModel,
    i: int,
    base: SimulatorModel,
    later: SimulatorModel,
    msg: Message,
    at: u64,
    spontaneous: bool,
    coin: bool,
)
    requires
        m.safe(),
        !m.coordinator_crashed,
        m.crashed_nodes == Set::<u8>::empty(),
        m.awaited_in_flight(),
        0 <= i < m.pending.len(),
        base.participants == m.participants,
        base.coordinator == m.coordinator,
        base.pending == m.pending.remove(i),
        m.pending[i].event is External || m.pending[i].event == Event::Internal(InternalEvent::Deliver { to: ActorId::Coordinator, msg }),
        base.with_coordinator(coordinator_step(m.coordinator, msg, at, spontaneous, coin).0).sends(
            coordinator_step(m.coordinator, msg, at, spontaneous, coin).1,
            later,
        ),
    ensures
        later.awaited_in_flight(),
{
    let c = m.coordinator;
    let (c2, out) = coordinator_step(c, msg, at, spontaneous, coin);
    let handled = base.with_coordinator(c2);
    lemma_step_awaits(c, msg, at, spontaneous, coin);
    assert(later.participants == m.participants);
    assert(later.coordinator == c2);
    assert forall|w: Message|
        delivery_pending(m.pending, w) && m.pending[i].event != Event::Internal(InternalEvent::Deliver { to: w.to, msg: w })
        implies #[trigger] delivery_pending(later.pending, w) by {
        lemma_pending_remove(m.pending, i, w);
        lemma_pending_extend(base.pending, later.pending, w);
    }
    match c2.phase {
        PhaseModel::Voting { votes: votes2, .. } => {
            assert forall|k: u8| #[trigger] later.participants.contains_key(k) && !votes2.contains_key(k)
                implies later.vote_on_its_way(k) by {
                if c.phase is Waiting {
                    assert(c.nodes[k as int] == NodeId(k));
                    lemma_pending_sent(handled, out, later, coordinator_message(MessageType::Prepare, NodeId(k)));
                } else {
                    assert(m.vote_on_its_way(k));
                    let prepare = coordinator_message(MessageType::Prepare, NodeId(k));
                    if delivery_pending(m.pending, prepare) {
                        assert(m.pending[i].event != Event::Internal(InternalEvent::Deliver { to: prepare.to, msg: prepare }));
                    } else {
                        let v = m.participants[k].durable_vote.unwrap();
                        let w = vote_message(NodeId(k), v);
                        assert(m.pending[i].event != Event::Internal(InternalEvent::Deliver { to: w.to, msg: w }));
                        assert(delivery_pending(later.pending, w));
                    }
                }
            }
        },
        PhaseModel::AwaitingAcks { decision: d2, acks: acks2, .. } => {
            assert forall|k: u8| #[trigger] later.participants.contains_key(k) && !acks2.contains(k)
                implies later.ack_on_its_way(k, d2) by {
                let dm = coordinator_message(decision_message_type(d2), NodeId(k));
                assert(c.nodes[k as int] == NodeId(k));
                if out.contains(dm) {
                    lemma_pending_sent(handled, out, later, dm);
                } else {
                    assert(m.ack_on_its_way(k, d2));
                    if delivery_pending(m.pending, dm) {
                        assert(m.pending[i].event != Event::Internal(InternalEvent::Deliver { to: dm.to, msg: dm }));
                    } else {
                        let w = ack_message(NodeId(k));
                        assert(m.pending[i].event != Event::Internal(InternalEvent::Deliver { to: w.to, msg: w }));
                        assert(delivery_pending(later.pending, w));
                    }
                }
            }
        },
        _ => {},
    }
}

/// Delivering `msg` to participant `id` keeps what the coordinator waits
/// for on its way: a Prepare makes the participant send its vote, a
/// decision makes it send its Ack.
proof fn lemma_participant_event_progress(
    m: SimulatorModel,
    i: int,
    base: SimulatorModel,
    handled: SimulatorModel,
    out: Seq<Message>,
    later: SimulatorModel,
    id: u8,
    msg: Message,
)
    requires
        m.safe(),
        !m.coordinator_crashed,
        m.crashed_nodes == Set::<u8>::empty(),
        m.awaited_in_flight(),
        0 <= i < m.pending.len(),
        base.participants == m.participants,
        base.coordinator == m.coordinator,
        base.pending == m.pending.remove(i),
        msg.to == ActorId::Node(NodeId(id)),
        m.pending[i].event == Event::Internal(InternalEvent::Deliver { to: msg.to, msg }),
        base.participant_stepped(id, msg, handled, out),
        handled.sends(out, later),
    ensures
        later.awaited_in_flight(),
{
    let c = m.coordinator;
    assert(later.coordinator == c);
    assert(later.participants.dom() == m.participants.dom());
    assert forall|w: Message|
        delivery_pending(m.pending, w) && m.pending[i].event != Event::Internal(InternalEvent::Deliver { to: w.to, msg: w })
        implies #[trigger] delivery_pending(later.pending, w) by {
        lemma_pending_remove(m.pending, i, w);
        lemma_pending_extend(base.pending, later.pending, w);
    }
    let coin = if m.participants.contains_key(id) {
        choose|coin: bool| {
            &&& #[trigger] base.participants[id].coin_possible(coin)
            &&& handled == base.with_participant(id, participant_step(base.participants[id], msg, coin).0)
            &&& out == participant_step(base.participants[id], msg, coin).1
        }
    } else {
        false
    };
    if m.participants.contains_key(id) {
        crate::participant::lemma_participant_step_safe(m.participants[id], msg, coin);
    }
    assert forall|k: u8| #[trigger] m.participants.contains_key(k) && m.participants[k].durable_vote is Some
        implies later.participants[k].durable_vote == m.participants[k].durable_vote by {
    }
    match c.phase {
        PhaseModel::Voting { votes, .. } => {
            assert forall|k: u8| #[trigger] later.participants.contains_key(k) && !votes.contains_key(k)
                implies later.vote_on_its_way(k) by {
                assert(m.participants.contains_key(k));
                assert(m.vote_on_its_way(k));
                let prepare = coordinator_message(MessageType::Prepare, NodeId(k));
                if delivery_pending(m.pending, prepare) {
                    if m.pending[i].event == Event::Internal(InternalEvent::Deliver { to: prepare.to, msg: prepare }) {
                        // The Prepare is delivered now: the participant votes.
                        assert(id == k);
                        let p = m.participants[k];
                        assert(p.durable_decision is None);
                        let v = later.participants[k].durable_vote.unwrap();
                        assert(out == seq![vote_message(NodeId(k), v)]);
                        assert(out[0] == vote_message(NodeId(k), v));
                        lemma_pending_sent(handled, out, later, vote_message(NodeId(k), v));
                    }
                } else {
                    let v = m.participants[k].durable_vote.unwrap();
                    let w = vote_message(NodeId(k), v);
                    assert(m.pending[i].event != Event::Internal(InternalEvent::Deliver { to: w.to, msg: w }));
                    assert(delivery_pending(later.pending, w));
                }
            }
        },
        PhaseModel::AwaitingAcks { decision, acks, .. } => {
            assert forall|k: u8| #[trigger] later.participants.contains_key(k) && !acks.contains(k)
                implies later.ack_on_its_way(k, decision) by {
                assert(m.participants.contains_key(k));
                assert(m.ack_on_its_way(k, decision));
                let dm = coordinator_message(decision_message_type(decision), NodeId(k));
                if delivery_pending(m.pending, dm) {
                    if m.pending[i].event == Event::Internal(InternalEvent::Deliver { to: dm.to, msg: dm }) {
                        // The decision is delivered now: the participant acknowledges.
                        assert(id == k);
                        assert(out == seq![ack_message(NodeId(k))]);
                        assert(out[0] == ack_message(NodeId(k)));
                        lemma_pending_sent(handled, out, later, ack_message(NodeId(k)));
                    }
                } else {
                    let w = ack_message(NodeId(k));
                    assert(m.pending[i].event != Event::Internal(InternalEvent::Deliver { to: w.to, msg: w }));
                }
            }
        },
        _ => {},
    }
}

/// An event that changes neither the coordinator nor the participants
/// keeps what the coordinator waits for on its way.
proof fn lemma_unchanged_progress(m: SimulatorModel, i: int, base: SimulatorModel, out: Seq<Message>, later: SimulatorModel)
    requires
        !m.coordinator_crashed,
        m.crashed_nodes == Set::<u8>::empty(),
        m.awaited_in_flight(),
        0 <= i < m.pending.len(),
        m.pending[i].event is External,
        base.participants == m.participants,
        base.coordinator == m.coordinator,
        base.pending == m.pending.remove(i),
        base.sends(out, later),
    ensures
        later.awaited_in_flight(),
{
    assert forall|w: Message| delivery_pending(m.pending, w) implies #[trigger] delivery_pending(later.pending, w) by {
        lemma_pending_remove(m.pending, i, w);
        lemma_pending_extend(base.pending, later.pending, w);
    }
    match m.coordinator.phase {
        PhaseModel::Voting { votes, .. } => {
            assert forall|k: u8| #[trigger] later.participants.contains_key(k) && !votes.contains_key(k)
                implies later.vote_on_its_way(k) by {
                assert(m.vote_on_its_way(k));
            }
        },
        PhaseModel::AwaitingAcks { decision, acks, .. } => {
            assert forall|k: u8| #[trigger] later.participants.contains_key(k) && !acks.contains(k)
                implies later.ack_on_its_way(k, decision) by {
                assert(m.ack_on_its_way(k, decision));
            }
        },
        _ => {},
    }
}

/// A step that does not take a Crash, from a state where nothing is crashed
/// and what the coordinator waits for is on its way, keeps both.
pub proof fn lemma_step_keeps_awaited(m: SimulatorModel, i: int, later: SimulatorModel)
    requires
        m.safe(),
        !m.coordinator_crashed,
        m.crashed_nodes == Set::<u8>::empty(),
        m.awaited_in_flight(),
        0 <= i < m.pending.len(),
        !(m.pending[i].event matches Event::External(ExternalEvent::Crash(_))),
        m.stepped(i, later),
    ensures
        later.awaited_in_flight(),
        !later.coordinator_crashed,
        later.crashed_nodes == Set::<u8>::empty(),
{
    let e = m.pending[i];
    let taken = SimulatorModel { pending: m.pending.remove(i), clock: e.timestamp, ..m };
    assert(m.event_ok(m.pending[i].event));
    match e.event {
        Event::Internal(InternalEvent::Deliver { to, msg }) => {
            let logged = SimulatorModel {
                log: taken.log.push(LogEntry::Deliver { at: taken.clock, msg }),
                observations: taken.observations.after_delivered(msg),
                ..taken
            };
            let (handled, out) = choose|handled: SimulatorModel, out: Seq<Message>| {
                &&& match to {
                    ActorId::Coordinator => logged.coordinator_stepped(msg, handled, out),
                    ActorId::Node(id) => logged.participant_stepped(id.0, msg, handled, out),
                }
                &&& #[trigger] handled.sends(out, later)
            };
            match to {
                ActorId::Coordinator => {
                    let (sp, coin) = choose|sp: bool, coin: bool| {
                        &&& #[trigger] logged.coordinator.spontaneous_coin_possible(sp)
                        &&& #[trigger] logged.coordinator.decide_coin_possible(coin)
                        &&& handled == logged.with_coordinator(coordinator_step(logged.coordinator, msg, logged.clock, sp, coin).0)
                        &&& out == coordinator_step(logged.coordinator, msg, logged.clock, sp, coin).1
                    };
                    lemma_coordinator_event_progress(m, i, logged, later, msg, logged.clock, sp, coin);
                },
                ActorId::Node(id) => {
                    lemma_participant_event_progress(m, i, logged, handled, out, later, id.0, msg);
                },
            }
        },
        Event::External(ext) => {
            let logged = SimulatorModel {
                log: taken.log.push(LogEntry::ExternalEvent { at: taken.clock, event: ext }),
                ..taken
            };
            let (handled, out) = choose|handled: SimulatorModel, out: Seq<Message>| {
                &&& logged.handled_external(ext, handled, out)
                &&& #[trigger] handled.sends(out, later)
            };
            match ext {
                ExternalEvent::StartTransaction => {
                    let (sp, coin) = choose|sp: bool, coin: bool| {
                        &&& #[trigger] logged.coordinator.spontaneous_coin_possible(sp)
                        &&& #[trigger] logged.coordinator.decide_coin_possible(coin)
                        &&& handled == logged.with_coordinator(coordinator_step(logged.coordinator, super::model::start_message(), logged.clock, sp, coin).0)
                        &&& out == coordinator_step(logged.coordinator, super::model::start_message(), logged.clock, sp, coin).1
                    };
                    lemma_coordinator_event_progress(m, i, logged, later, super::model::start_message(), logged.clock, sp, coin);
                },
                ExternalEvent::Tick { .. } | ExternalEvent::TickAll => {
                    if handled == logged && out.len() == 0 {
                        assert(out =~= Seq::<Message>::empty());
                        lemma_unchanged_progress(m, i, logged, out, later);
                    } else {
                        let sp = choose|sp: bool| {
                            &&& #[trigger] logged.coordinator.spontaneous_coin_possible(sp)
                            &&& handled == logged.with_coordinator(coordinator_tick(logged.coordinator, logged.clock, sp).0)
                            &&& out == coordinator_tick(logged.coordinator, logged.clock, sp).1
                        };
                        lemma_tick_is_step(logged.coordinator, logged.clock, sp, false);
                        lemma_coordinator_event_progress(m, i, logged, later, ignored_message(), logged.clock, sp, false);
                    }
                },
                ExternalEvent::Crash(_) => {},
                ExternalEvent::Recover(a) => {
                    assert(handled.coordinator == m.coordinator);
                    assert(handled.crashed_nodes =~= Set::<u8>::empty());
                    lemma_unchanged_progress(m, i, handled, out, later);
                },
            }
        },
    }
}

/// Every simulation step keeps the progress invariant.
pub proof fn lemma_step_progressing(m: SimulatorModel, i: int, later: SimulatorModel)
    requires
        m.safe(),
        m.progressing(),
        0 <= i < m.pending.len(),
        m.stepped(i, later),
    ensures
        later.progressing(),
{
    let e = m.pending[i];
    let taken = SimulatorModel { pending: m.pending.remove(i), clock: e.timestamp, ..m };
    if later.crash_free() {
        let entry = match e.event {
            Event::Internal(InternalEvent::Deliver { msg, .. }) => if taken.operating(msg.to) {
                LogEntry::Deliver { at: taken.clock, msg }
            } else {
                LogEntry::Drop { at: taken.clock, msg }
            },
            Event::External(ext) => LogEntry::ExternalEvent { at: taken.clock, event: ext },
        };
        assert(later.log.len() > m.log.len() && later.log[m.log.len() as int] == entry && forall|j: int|
            0 <= j < m.log.len() ==> #[trigger] m.log[j] == later.log[j]) by {
            match e.event {
                Event::Internal(InternalEvent::Deliver { to, msg }) => {
                    if taken.operating(msg.to) {
                        let logged = SimulatorModel {
                            log: taken.log.push(LogEntry::Deliver { at: taken.clock, msg }),
                            observations: taken.observations.after_delivered(msg),
                            ..taken
                        };
                        let (handled, out) = choose|handled: SimulatorModel, out: Seq<Message>| {
                            &&& match to {
                                ActorId::Coordinator => logged.coordinator_stepped(msg, handled, out),
                                ActorId::Node(id) => logged.participant_stepped(id.0, msg, handled, out),
                            }
                            &&& #[trigger] handled.sends(out, later)
                        };
                        assert(handled.log == logged.log);
                        assert(later.log[m.log.len() as int] == handled.log[m.log.len() as int]);
                        assert forall|j: int| 0 <= j < m.log.len() implies #[trigger] m.log[j] == later.log[j] by {
                            assert(later.log[j] == handled.log[j]);
                        }
                    }
                },
                Event::External(ext) => {
                    let logged = SimulatorModel {
                        log: taken.log.push(LogEntry::ExternalEvent { at: taken.clock, event: ext }),
                        ..taken
                    };
                    let (handled, out) = choose|handled: SimulatorModel, out: Seq<Message>| {
                        &&& logged.handled_external(ext, handled, out)
                        &&& #[trigger] handled.sends(out, later)
                    };
                    assert(handled.log == logged.log);
                    assert(later.log[m.log.len() as int] == handled.log[m.log.len() as int]);
                    assert forall|j: int| 0 <= j < m.log.len() implies #[trigger] m.log[j] == later.log[j] by {
                        assert(later.log[j] == handled.log[j]);
                    }
                },
            }
        }
        assert(m.crash_free());
        assert(!(e.event matches Event::External(ExternalEvent::Crash(_))));
        lemma_step_keeps_awaited(m, i, later);
    }
}

/// Queuing an event keeps the progress invariant: what was pending stays.
pub proof fn lemma_queued_progressing(m: SimulatorModel, later: SimulatorModel)
    requires
        m.progressing(),
        later == (SimulatorModel { pending: later.pending, next_sequence_number: later.next_sequence_number, ..m }),
        m.pending.len() <= later.pending.len(),
        forall|k: int| 0 <= k < m.pending.len() ==> #[trigger] later.pending[k] == m.pending[k],
    ensures
        later.progressing(),
{
    assert forall|w: Message| delivery_pending(m.pending, w) implies #[trigger] delivery_pending(later.pending, w) by {
        lemma_pending_extend(m.pending, later.pending, w);
    }
    if later.crash_free() {
        match m.coordinator.phase {
            PhaseModel::Voting { votes, .. } => {
                assert forall|k: u8| #[trigger] later.participants.contains_key(k) && !votes.contains_key(k)
                    implies later.vote_on_its_way(k) by {
                    assert(m.vote_on_its_way(k));
                }
            },
            PhaseModel::AwaitingAcks { decision, acks, .. } => {
                assert forall|k: u8| #[trigger] later.participants.contains_key(k) && !acks.contains(k)
                    implies later.ack_on_its_way(k, decision) by {
                    assert(m.ack_on_its_way(k, decision));
                }
            },
            _ => {},
        }
    }
}

/// After a step, the events pending are those that were, but the one
/// taken, followed by deliveries.
pub proof fn lemma_stepped_pending(m: SimulatorModel, i: int, later: SimulatorModel)
    requires
        0 <= i < m.pending.len(),
        m.stepped(i, later),
    ensures
        later.pending.len() >= m.pending.len() - 1,
        forall|j: int| 0 <= j < m.pending.len() - 1 ==> #[trigger] later.pending[j] == m.pending.remove(i)[j],
        forall|j: int| m.pending.len() - 1 <= j < later.pending.len() ==> (#[trigger] later.pending[j]).event is Internal,
{
    let e = m.pending[i];
    let taken = SimulatorModel { pending: m.pending.remove(i), clock: e.timestamp, ..m };
    match e.event {
        Event::Internal(InternalEvent::Deliver { to, msg }) => {
            if taken.operating(msg.to) {
                let logged = SimulatorModel {
                    log: taken.log.push(LogEntry::Deliver { at: taken.clock, msg }),
                    observations: taken.observations.after_delivered(msg),
                    ..taken
                };
                let (handled, out) = choose|handled: SimulatorModel, out: Seq<Message>| {
                    &&& match to {
                        ActorId::Coordinator => logged.coordinator_stepped(msg, handled, out),
                        ActorId::Node(id) => logged.participant_stepped(id.0, msg, handled, out),
                    }
                    &&& #[trigger] handled.sends(out, later)
                };
                assert(handled.pending == taken.pending);
                assert forall|j: int| m.pending.len() - 1 <= j < later.pending.len()
                    implies (#[trigger] later.pending[j]).event is Internal by {
                    assert(later.pending[handled.pending.len() + (j - handled.pending.len())] == later.pending[j]);
                }
            }
        },
        Event::External(ext) => {
            let logged = SimulatorModel {
                log: taken.log.push(LogEntry::ExternalEvent { at: taken.clock, event: ext }),
                ..taken
            };
            let (handled, out) = choose|handled: SimulatorModel, out: Seq<Message>| {
                &&& logged.handled_external(ext, handled, out)
                &&& #[trigger] handled.sends(out, later)
            };
            assert(handled.pending == taken.pending);
            assert forall|j: int| m.pending.len() - 1 <= j < later.pending.len()
                implies (#[trigger] later.pending[j]).event is Internal by {
                assert(later.pending[handled.pending.len() + (j - handled.pending.len())] == later.pending[j]);
            }
        },
    }
}

/// Every step keeps a settled simulation settled.
pub proof fn lemma_step_settled(m: SimulatorModel, i: int, later: SimulatorModel)
    requires
        m.safe(),
        m.settled(),
        0 <= i < m.pending.len(),
        m.stepped(i, later),
    ensures
        later.settled(),
{
    lemma_step_keeps_awaited(m, i, later);
    lemma_stepped_pending(m, i, later);
    assert forall|j: int| 0 <= j < later.pending.len()
        implies !((#[trigger] later.pending[j]).event matches Event::External(ExternalEvent::Crash(_))) by {
        if j < m.pending.len() - 1 {
            if j < i {
                assert(m.pending.remove(i)[j] == m.pending[j]);
            } else {
                assert(m.pending.remove(i)[j] == m.pending[j + 1]);
            }
        }
    }
}

/// A `TickAll` taken when the coordinator is due to send settles the
/// simulation: everything the coordinator then waits for is on its way.
pub proof fn lemma_due_tick_settles(m: SimulatorModel, later: SimulatorModel)
    requires
        m.safe(),
        m.due_tick_pending(),
        m.stepped(0, later),
    ensures
        later.settled(),
{
    let e = m.pending[0];
    let taken = SimulatorModel { pending: m.pending.remove(0), clock: e.timestamp, ..m };
    let logged = SimulatorModel { log: taken.log.push(LogEntry::ExternalEvent { at: taken.clock, event: ExternalEvent::TickAll }), ..taken };
    let (handled, out) = choose|handled: SimulatorModel, out: Seq<Message>| {
        &&& logged.handled_external(ExternalEvent::TickAll, handled, out)
        &&& #[trigger] handled.sends(out, later)
    };
    let c = m.coordinator;
    let sp = choose|sp: bool| {
        &&& #[trigger] c.spontaneous_coin_possible(sp)
        &&& handled == logged.with_coordinator(coordinator_tick(c, logged.clock, sp).0)
        &&& out == coordinator_tick(c, logged.clock, sp).1
    };
    lemma_due_tick_covers(c, logged.clock, sp);
    lemma_stepped_pending(m, 0, later);
    let c2 = later.coordinator;
    match c2.phase {
        PhaseModel::Voting { votes: votes2, .. } => {
            assert forall|k: u8| #[trigger] later.participants.contains_key(k) && !votes2.contains_key(k)
                implies later.vote_on_its_way(k) by {
                assert(c.nodes[k as int] == NodeId(k));
                lemma_pending_sent(handled, out, later, coordinator_message(MessageType::Prepare, NodeId(k)));
            }
        },
        PhaseModel::AwaitingAcks { decision: d2, acks: acks2, .. } => {
            assert forall|k: u8| #[trigger] later.participants.contains_key(k) && !acks2.contains(k)
                implies later.ack_on_its_way(k, d2) by {
                assert(c.nodes[k as int] == NodeId(k));
                lemma_pending_sent(handled, out, later, coordinator_message(decision_message_type(d2), NodeId(k)));
            }
        },
        _ => {},
    }
}

/// A step, or no step, from a settled simulation leaves it settled.
pub proof fn lemma_step_result_settled(before: SimulatorModel, after: SimulatorModel)
    requires
        before.safe(),
        before.settled(),
        after == before || exists|i: int| #[trigger] before.is_earliest(i) && before.stepped(i, after),
    ensures
        after.settled(),
{
    if after != before {
        let i = choose|i: int| #[trigger] before.is_earliest(i) && before.stepped(i, after);
        lemma_step_settled(before, i, after);
    }
}

/// Queuing a `TickAll` probe, with the clock moved, keeps a simulation
/// settled.
pub proof fn lemma_probe_queued(m: SimulatorModel, later: SimulatorModel, at: u64)
    requires
        m.settled(),
        later == (SimulatorModel { pending: later.pending, next_sequence_number: later.next_sequence_number, clock: later.clock, ..m }),
        later.pending == m.pending.push(TimestampedEvent {
            timestamp: at,
            sequence_number: m.next_sequence_number,
            event: Event::External(ExternalEvent::TickAll),
        }),
    ensures
        later.settled(),
{
    assert forall|w: Message| delivery_pending(m.pending, w) implies #[trigger] delivery_pending(later.pending, w) by {
        lemma_pending_extend(m.pending, later.pending, w);
    }
    match m.coordinator.phase {
        PhaseModel::Voting { votes, .. } => {
            assert forall|k: u8| #[trigger] later.participants.contains_key(k) && !votes.contains_key(k)
                implies later.vote_on_its_way(k) by {
                assert(m.vote_on_its_way(k));
            }
        },
        PhaseModel::AwaitingAcks { decision, acks, .. } => {
            assert forall|k: u8| #[trigger] later.participants.contains_key(k) && !acks.contains(k)
                implies later.ack_on_its_way(k, decision) by {
                assert(m.ack_on_its_way(k, decision));
            }
        },
        _ => {},
    }
    assert forall|j: int| 0 <= j < later.pending.len()
        implies !((#[trigger] later.pending[j]).event matches Event::External(ExternalEvent::Crash(_))) by {
        if j < m.pending.len() {
            assert(later.pending[j] == m.pending[j]);
        }
    }
}

/// A tick is due at every time after one at which it is due.
pub proof fn lemma_due_later(c: crate::coordinator::CoordinatorModel, at: u64, later: u64)
    requires
        c.tick_due(at),
        at <= later,
    ensures
        c.tick_due(later),
{
}

/// A `TickAll` probe taken with nothing else pending and nothing crashed
/// either settles the simulation, or sends nothing: the coordinator was not
/// due and is unchanged, and only the clock moved to the probe's time.
pub proof fn lemma_probe_from_rest(m: SimulatorModel, later: SimulatorModel)
    requires
        m.safe(),
        !m.coordinator_crashed,
        m.crashed_nodes == Set::<u8>::empty(),
        m.coordinator.nodes.len() > 0,
        m.pending.len() == 1,
        m.pending[0].event == Event::External(ExternalEvent::TickAll),
        m.stepped(0, later),
    ensures
        later.settled() || {
            &&& later.pending.len() == 0
            &&& later.coordinator == m.coordinator
            &&& !later.coordinator_crashed
            &&& later.crashed_nodes == Set::<u8>::empty()
            &&& later.clock == m.pending[0].timestamp
            &&& !m.coordinator.tick_due(m.pending[0].timestamp)
        },
{
    if m.coordinator.tick_due(m.pending[0].timestamp) {
        lemma_due_tick_settles(m, later);
    } else {
        let e = m.pending[0];
        let taken = SimulatorModel { pending: m.pending.remove(0), clock: e.timestamp, ..m };
        let logged = SimulatorModel { log: taken.log.push(LogEntry::ExternalEvent { at: taken.clock, event: ExternalEvent::TickAll }), ..taken };
        let (handled, out) = choose|handled: SimulatorModel, out: Seq<Message>| {
            &&& logged.handled_external(ExternalEvent::TickAll, handled, out)
            &&& #[trigger] handled.sends(out, later)
        };
        let c = m.coordinator;
        let sp = choose|sp: bool| {
            &&& #[trigger] c.spontaneous_coin_possible(sp)
            &&& handled == logged.with_coordinator(coordinator_tick(c, logged.clock, sp).0)
            &&& out == coordinator_tick(c, logged.clock, sp).1
        };
        lemma_stepped_pending(m, 0, later);
        if sp && c.phase is Voting {
            // A spontaneous abort broadcasts the decision to every node.
            let c2 = later.coordinator;
            assert(m.pending.remove(0) =~= Seq::<TimestampedEvent>::empty());
            if let PhaseModel::AwaitingAcks { decision: d2, acks: acks2, .. } = c2.phase {
                assert forall|k: u8| #[trigger] later.participants.contains_key(k) && !acks2.contains(k)
                    implies later.ack_on_its_way(k, d2) by {
                    assert(c.nodes[k as int] == NodeId(k));
                    crate::coordinator::lemma_messages_to_contains(c.nodes, decision_message_type(d2), Set::empty(), k as int);
                    lemma_pending_sent(handled, out, later, coordinator_message(decision_message_type(d2), NodeId(k)));
                }
            }
            assert forall|j: int| 0 <= j < later.pending.len()
                implies !((#[trigger] later.pending[j]).event matches Event::External(ExternalEvent::Crash(_))) by {}
        } else {
            assert(handled.coordinator == c);
            assert(out.len() == 0);
            assert(later.pending =~= Seq::<TimestampedEvent>::empty());
        }
    }
}

/// Once every crashed actor has recovered and the queue has emptied, with a
/// retransmit timeout no longer than drain's probing, the simulation is
/// settled or the coordinator falls due within the probes.
pub proof fn lemma_recovered_rest_probes(m: SimulatorModel)
    requires
        m.recovered_at_rest(),
    ensures
        m.settled() || m.due_within_probes(),
{
}

} // verus!
