//! Why a simulation run ends: every step lowers, in lexicographic order,
//! the number of pending external events, the coordinator's phase, the
//! number of nodes whose vote or acknowledgement it still awaits, and a
//! weight of the messages in flight. A message to the coordinator that does
//! not bring an awaited reply weighs more than all the retransmissions it
//! can trigger; a message to a participant weighs more than its reply.
use super::event::{Event, InternalEvent, TimestampedEvent};
use super::model::SimulatorModel;
use super::Simulator;
use super::{ExternalEvent, LogEntry};
use crate::coordinator::{
    coordinator_message, coordinator_receive, coordinator_step, coordinator_tick, messages_to, try_decide,
    CoordinatorModel, PhaseModel,
};
use crate::participant::{ack_message, participant_step, vote_message};
use crate::types::{decision_message_type, decision_of, vote_of, ActorId, Message, MessageType, NodeId, Vote};
use vstd::prelude::*;

verus! {

/// The number of nodes in `nodes` whose number is not in `skip`.
pub open spec fn unrecorded_count(nodes: Seq<NodeId>, skip: Set<u8>) -> nat
    decreases nodes.len(),
{
    if nodes.len() == 0 {
        0
    } else {
        unrecorded_count(nodes.drop_last(), skip) + if skip.contains(nodes.last().0) { 0nat } else { 1nat }
    }
}

/// The coordinator's phase, from first to last: it only moves down, except
/// on recovery.
pub open spec fn phase_rank(c: CoordinatorModel) -> nat {
    match c.phase {
        PhaseModel::Waiting => 4,
        PhaseModel::Voting { .. } => 3,
        PhaseModel::Decided(_) => 2,
        PhaseModel::AwaitingAcks { .. } => 1,
        PhaseModel::Done(_) => 0,
    }
}

/// The nodes whose reply the coordinator has recorded in its phase.
pub open spec fn recorded(c: CoordinatorModel) -> Set<u8> {
    match c.phase {
        PhaseModel::Voting { votes, .. } => votes.dom(),
        PhaseModel::AwaitingAcks { acks, .. } => acks,
        _ => Set::empty(),
    }
}

/// How many of its nodes the coordinator still awaits a reply from.
pub open spec fn outstanding(c: CoordinatorModel) -> nat {
    match c.phase {
        PhaseModel::Voting { .. } | PhaseModel::AwaitingAcks { .. } => unrecorded_count(c.nodes, recorded(c)),
        _ => 0,
    }
}

/// `msg`, delivered to the coordinator, brings a reply it awaits: a vote
/// while `Voting`, an acknowledgement while `AwaitingAcks`, from a node it
/// manages and has not yet recorded.
pub open spec fn awaited_reply(c: CoordinatorModel, msg: Message) -> bool {
    &&& (c.phase is Voting && vote_of(msg.message_type) is Some
        || c.phase is AwaitingAcks && msg.message_type == MessageType::Ack)
    &&& msg.from matches ActorId::Node(id) && c.nodes.contains(id) && !recorded(c).contains(id.0)
}

/// The weight of a message to the coordinator: one for an awaited reply,
/// otherwise enough to pay for a retransmission to every awaited node.
pub open spec fn reply_weight(c: CoordinatorModel, msg: Message) -> nat {
    if awaited_reply(c, msg) {
        1
    } else {
        1 + 2 * outstanding(c)
    }
}

/// The weight of a message in flight: a Prepare or a decision to a node
/// weighs one more than the reply it draws.
pub open spec fn message_weight(c: CoordinatorModel, msg: Message) -> nat {
    match msg.to {
        ActorId::Coordinator => reply_weight(c, msg),
        ActorId::Node(id) => if msg.message_type == MessageType::Prepare {
            1 + reply_weight(c, vote_message(id, Vote::Commit))
        } else if decision_of(msg.message_type) is Some {
            1 + reply_weight(c, ack_message(id))
        } else {
            1
        },
    }
}

/// The total weight of `msgs`.
pub open spec fn messages_weight(c: CoordinatorModel, msgs: Seq<Message>) -> nat
    decreases msgs.len(),
{
    if msgs.len() == 0 {
        0
    } else {
        messages_weight(c, msgs.drop_last()) + message_weight(c, msgs.last())
    }
}

/// The weight of an event: that of the message it delivers; none for an
/// external event, which the measure counts apart.
pub open spec fn event_weight(c: CoordinatorModel, e: Event) -> nat {
    match e {
        Event::Internal(InternalEvent::Deliver { msg, .. }) => message_weight(c, msg),
        Event::External(_) => 0,
    }
}

/// The weight of the deliveries in `s`.
pub open spec fn pending_weight(c: CoordinatorModel, s: Seq<TimestampedEvent>) -> nat
    decreases s.len(),
{
    if s.len() == 0 {
        0
    } else {
        pending_weight(c, s.drop_last()) + event_weight(c, s.last().event)
    }
}

/// The number of external events in `s`.
pub open spec fn external_count(s: Seq<TimestampedEvent>) -> nat
    decreases s.len(),
{
    if s.len() == 0 {
        0
    } else {
        external_count(s.drop_last()) + if s.last().event is External { 1nat } else { 0nat }
    }
}

impl SimulatorModel {
    /// The termination measure, first component: pending external events.
    pub open spec fn measure_external(self) -> nat {
        external_count(self.pending)
    }

    /// Second component: the coordinator's phase.
    pub open spec fn measure_phase(self) -> nat {
        phase_rank(self.coordinator)
    }

    /// Third component: the nodes the coordinator awaits a reply from.
    pub open spec fn measure_outstanding(self) -> nat {
        outstanding(self.coordinator)
    }

    /// Fourth component: the weight of the messages in flight.
    pub open spec fn measure_weight(self) -> nat {
        pending_weight(self.coordinator, self.pending)
    }

    /// `self` is lower than `other` in the lexicographic order of the
    /// termination measure.
    pub open spec fn measure_below(self, other: SimulatorModel) -> bool {
        ||| self.measure_external() < other.measure_external()
        ||| self.measure_external() == other.measure_external() && self.measure_phase() < other.measure_phase()
        ||| self.measure_external() == other.measure_external() && self.measure_phase() == other.measure_phase()
            && self.measure_outstanding() < other.measure_outstanding()
        ||| self.measure_external() == other.measure_external() && self.measure_phase() == other.measure_phase()
            && self.measure_outstanding() == other.measure_outstanding()
            && self.measure_weight() < other.measure_weight()
    }
}

/// Taking the event at `i` out of `s` takes its weight and its count off.
proof fn lemma_remove_event(c: CoordinatorModel, s: Seq<TimestampedEvent>, i: int)
    requires
        0 <= i < s.len(),
    ensures
        pending_weight(c, s.remove(i)) + event_weight(c, s[i].event) == pending_weight(c, s),
        external_count(s.remove(i)) + (if s[i].event is External { 1nat } else { 0nat }) == external_count(s),
    decreases s.len(),
{
    if i == s.len() - 1 {
        assert(s.remove(i) =~= s.drop_last());
    } else {
        lemma_remove_event(c, s.drop_last(), i);
        assert(s.remove(i).drop_last() =~= s.drop_last().remove(i));
        assert(s.remove(i).last() == s.last());
    }
}

/// Queuing the deliveries of `out` after `base` adds their weight and no
/// external event.
proof fn lemma_queue_deliveries(c: CoordinatorModel, base: Seq<TimestampedEvent>, later: Seq<TimestampedEvent>, out: Seq<Message>)
    requires
        later.len() == base.len() + out.len(),
        forall|k: int| 0 <= k < base.len() ==> #[trigger] later[k] == base[k],
        forall|j: int| 0 <= j < out.len() ==> (#[trigger] later[base.len() + j]).event
            == Event::Internal(InternalEvent::Deliver { to: out[j].to, msg: out[j] }),
    ensures
        pending_weight(c, later) == pending_weight(c, base) + messages_weight(c, out),
        external_count(later) == external_count(base),
    decreases out.len(),
{
    if out.len() == 0 {
        assert(later =~= base);
    } else {
        let j = out.len() - 1;
        assert(later[base.len() + j].event == Event::Internal(InternalEvent::Deliver { to: out[j].to, msg: out[j] }));
        assert forall|k: int| 0 <= k < out.drop_last().len() implies (#[trigger] later.drop_last()[base.len() + k]).event
            == Event::Internal(InternalEvent::Deliver { to: out.drop_last()[k].to, msg: out.drop_last()[k] }) by {
            assert(later[base.len() + k].event == Event::Internal(InternalEvent::Deliver { to: out[k].to, msg: out[k] }));
        }
        lemma_queue_deliveries(c, base, later.drop_last(), out.drop_last());
    }
}

/// Recording one more number never raises the count of unrecorded nodes,
/// and lowers it when a node has that number and it was not recorded.
proof fn lemma_count_insert(nodes: Seq<NodeId>, skip: Set<u8>, x: u8)
    ensures
        unrecorded_count(nodes, skip.insert(x)) <= unrecorded_count(nodes, skip),
        (exists|i: int| 0 <= i < nodes.len() && nodes[i].0 == x) && !skip.contains(x)
            ==> unrecorded_count(nodes, skip.insert(x)) < unrecorded_count(nodes, skip),
    decreases nodes.len(),
{
    if nodes.len() > 0 {
        lemma_count_insert(nodes.drop_last(), skip, x);
        if (exists|i: int| 0 <= i < nodes.len() && nodes[i].0 == x) && !skip.contains(x) {
            let i = choose|i: int| 0 <= i < nodes.len() && nodes[i].0 == x;
            if i < nodes.len() - 1 {
                assert(nodes.drop_last()[i].0 == x);
            }
        }
    }
}

/// A retransmission to every unrecorded node, each message of weight two,
/// weighs twice their number.
proof fn lemma_retransmit_weight(c: CoordinatorModel, nodes: Seq<NodeId>, t: MessageType, skip: Set<u8>)
    requires
        forall|i: int| 0 <= i < nodes.len() && !skip.contains(nodes[i].0)
            ==> message_weight(c, #[trigger] coordinator_message(t, nodes[i])) == 2,
    ensures
        messages_weight(c, messages_to(nodes, t, skip)) == 2 * unrecorded_count(nodes, skip),
    decreases nodes.len(),
{
    if nodes.len() > 0 {
        let rest = messages_to(nodes.drop_last(), t, skip);
        assert forall|i: int| 0 <= i < nodes.drop_last().len() && !skip.contains(nodes.drop_last()[i].0)
            implies message_weight(c, #[trigger] coordinator_message(t, nodes.drop_last()[i])) == 2 by {
            assert(nodes.drop_last()[i] == nodes[i]);
        }
        lemma_retransmit_weight(c, nodes.drop_last(), t, skip);
        if !skip.contains(nodes.last().0) {
            let x = coordinator_message(t, nodes.last());
            assert(rest.push(x).drop_last() =~= rest);
            assert(message_weight(c, coordinator_message(t, nodes[nodes.len() - 1])) == 2);
        }
    }
}

/// Weights agree under two coordinator states in the same phase, with the
/// same nodes and the same recorded replies.
proof fn lemma_same_weights(c: CoordinatorModel, c2: CoordinatorModel, s: Seq<TimestampedEvent>)
    requires
        phase_rank(c2) == phase_rank(c),
        recorded(c2) == recorded(c),
        c2.nodes == c.nodes,
    ensures
        pending_weight(c2, s) == pending_weight(c, s),
        forall|msg: Message| #[trigger] message_weight(c2, msg) == message_weight(c, msg),
    decreases s.len(),
{
    assert forall|msg: Message| #[trigger] message_weight(c2, msg) == message_weight(c, msg) by {
        assert(forall|m: Message| #[trigger] awaited_reply(c2, m) == awaited_reply(c, m));
    }
    if s.len() > 0 {
        lemma_same_weights(c, c2, s.drop_last());
    }
}

/// What a coordinator step does to the measure: its phase never moves up;
/// in the same phase the number of awaited nodes never grows; and if
/// neither changes, it recorded nothing new, and what it sends weighs less
/// than the message it received, unless that was an awaited reply.
pub proof fn lemma_coordinator_step_measure(c: CoordinatorModel, msg: Message, at: u64, spontaneous: bool, coin: bool)
    requires
        c.wf(),
        c.incomplete(),
    ensures
        ({
            let (c2, out) = coordinator_step(c, msg, at, spontaneous, coin);
            &&& c2.nodes == c.nodes
            &&& phase_rank(c2) <= phase_rank(c)
            &&& (phase_rank(c2) == phase_rank(c) ==> outstanding(c2) <= outstanding(c))
            &&& (phase_rank(c2) == phase_rank(c) && outstanding(c2) == outstanding(c) ==> {
                &&& recorded(c2) == recorded(c)
                &&& messages_weight(c, out) < reply_weight(c, msg)
            })
        }),
{
    let (c1, out1) = coordinator_tick(c, at, spontaneous);
    let (c2, out2) = coordinator_receive(c1, msg, at, coin);
    let out = out1 + out2;
    match c.phase {
        PhaseModel::Voting { votes, .. } => {
            if phase_rank(c1) == phase_rank(c) {
                assert forall|i: int| 0 <= i < c.nodes.len() && !votes.dom().contains(c.nodes[i].0)
                    implies message_weight(c, #[trigger] coordinator_message(MessageType::Prepare, c.nodes[i])) == 2 by {
                    assert(c.nodes.contains(c.nodes[i]));
                }
                lemma_retransmit_weight(c, c.nodes, MessageType::Prepare, votes.dom());
                if let ActorId::Node(id) = msg.from {
                    lemma_count_insert(c.nodes, votes.dom(), id.0);
                    if awaited_reply(c, msg) {
                        let i = choose|i: int| 0 <= i < c.nodes.len() && c.nodes[i] == id;
                        assert(c.nodes[i].0 == id.0);
                        assert(votes.insert(id.0, vote_of(msg.message_type).unwrap()).dom() =~= votes.dom().insert(id.0));
                    }
                }
                if !awaited_reply(c, msg) {
                    assert(out2 =~= Seq::<Message>::empty());
                    assert(out =~= out1);
                }
            }
        },
        PhaseModel::AwaitingAcks { decision, acks, .. } => {
            assert forall|i: int| 0 <= i < c.nodes.len() && !acks.contains(c.nodes[i].0)
                implies message_weight(c, #[trigger] coordinator_message(decision_message_type(decision), c.nodes[i])) == 2 by {
                assert(c.nodes.contains(c.nodes[i]));
            }
            lemma_retransmit_weight(c, c.nodes, decision_message_type(decision), acks);
            if let ActorId::Node(id) = msg.from {
                lemma_count_insert(c.nodes, acks, id.0);
                if msg.message_type == MessageType::Ack && c.nodes.contains(id) {
                    let i = choose|i: int| 0 <= i < c.nodes.len() && c.nodes[i] == id;
                    assert(c.nodes[i].0 == id.0);
                    if acks.contains(id.0) {
                        assert(acks.insert(id.0) =~= acks);
                    }
                }
            }
            if !awaited_reply(c, msg) {
                assert(out2 =~= Seq::<Message>::empty());
                assert(out =~= out1);
            }
        },
        _ => {
            if phase_rank(c2) == phase_rank(c) {
                assert(out1 =~= Seq::<Message>::empty());
                assert(out2 =~= Seq::<Message>::empty());
                assert(out =~= Seq::<Message>::empty());
            }
        },
    }
}

/// A participant's reply weighs less than the message it answers.
proof fn lemma_participant_reply_weight(c: CoordinatorModel, p: crate::participant::ParticipantModel, msg: Message, coin: bool)
    requires
        msg.to == ActorId::Node(p.id),
    ensures
        messages_weight(c, participant_step(p, msg, coin).1) < message_weight(c, msg),
{
    let out = participant_step(p, msg, coin).1;
    if out.len() == 1 {
        assert(out.drop_last() =~= Seq::<Message>::empty());
        assert(messages_weight(c, Seq::<Message>::empty()) == 0);
        assert(messages_weight(c, out) == messages_weight(c, out.drop_last()) + message_weight(c, out.last()));
        assert(messages_weight(c, out) == message_weight(c, out[0]));
    } else {
        assert(out.len() == 0);
    }
}

/// Every simulation step lowers the termination measure.
pub proof fn lemma_step_measure(m: SimulatorModel, i: int, later: SimulatorModel)
    requires
        m.safe(),
        0 <= i < m.pending.len(),
        m.stepped(i, later),
    ensures
        later.measure_below(m),
{
    let e = m.pending[i];
    let taken = SimulatorModel { pending: m.pending.remove(i), clock: e.timestamp, ..m };
    let c = m.coordinator;
    lemma_remove_event(c, m.pending, i);
    assert(m.event_ok(e.event));
    match e.event {
        Event::Internal(InternalEvent::Deliver { to, msg }) => {
            if !taken.operating(msg.to) {
                assert(later.pending == m.pending.remove(i));
                assert(later.coordinator == c);
            } else {
                let logged = SimulatorModel {
                    log: taken.log.push(LogEntry::Deliver { at: taken.clock, msg }),
                    observations: taken.observations.after_delivered(msg),
                    ..taken
                };
                let (handled, out) = choose|handled: SimulatorModel, out: Seq<Message>| {
                    &&& match to {
                        ActorId::Coordinator => logged.coordinator_stepped(msg, handled, out),
                        ActorId::Node(id) => logged.participant_stepped(id.0, msg, handled, out),
                    }
                    &&& #[trigger] handled.sends(out, later)
                };
                assert(handled.pending == m.pending.remove(i));
                lemma_queue_deliveries(c, handled.pending, later.pending, out);
                match to {
                    ActorId::Coordinator => {
                        let (sp, coin) = choose|sp: bool, coin: bool| {
                            &&& #[trigger] logged.coordinator.spontaneous_coin_possible(sp)
                            &&& #[trigger] logged.coordinator.decide_coin_possible(coin)
                            &&& handled == logged.with_coordinator(coordinator_step(logged.coordinator, msg, logged.clock, sp, coin).0)
                            &&& out == coordinator_step(logged.coordinator, msg, logged.clock, sp, coin).1
                        };
                        lemma_coordinator_step_measure(c, msg, logged.clock, sp, coin);
                        let c2 = later.coordinator;
                        if phase_rank(c2) == phase_rank(c) && outstanding(c2) == outstanding(c) {
                            lemma_same_weights(c, c2, later.pending);
                        }
                    },
                    ActorId::Node(id) => {
                        assert(later.coordinator == c);
                        if m.participants.contains_key(id.0) {
                            let coin = choose|coin: bool| {
                                &&& #[trigger] logged.participants[id.0].coin_possible(coin)
                                &&& handled == logged.with_participant(id.0, participant_step(logged.participants[id.0], msg, coin).0)
                                &&& out == participant_step(logged.participants[id.0], msg, coin).1
                            };
                            assert(m.participants[id.0].id == id);
                            lemma_participant_reply_weight(c, m.participants[id.0], msg, coin);
                        } else {
                            assert(out.len() == 0);
                        }
                    },
                }
            }
        },
        Event::External(ext) => {
            let logged = SimulatorModel {
                log: taken.log.push(LogEntry::ExternalEvent { at: taken.clock, event: ext }),
                ..taken
            };
            let (handled, out) = choose|handled: SimulatorModel, out: Seq<Message>| {
                &&& logged.handled_external(ext, handled, out)
                &&& #[trigger] handled.sends(out, later)
            };
            assert(handled.pending == m.pending.remove(i));
            lemma_queue_deliveries(later.coordinator, handled.pending, later.pending, out);
        },
    }
}

impl Simulator {
    /// Process events until the queue is empty. Every step lowers the
    /// termination measure, so the run ends; it stops before a step whose
    /// times or sequence numbers would not fit in 64 bits. Without a crash,
    /// the run ends with the protocol over: the coordinator has not started,
    /// or has completed with every participant holding its decision, and the
    /// simulation is quiescent (so [`drain`](Simulator::drain) returns `true`
    /// at once). The same holds, whatever crashed before, of a run from a
    /// settled simulation, or from one in which nothing is crashed and a lone
    /// `TickAll` is pending at a time the coordinator is due to send: after
    /// its recovery, or in `Decided`, always; otherwise once its timeout has
    /// passed.
    pub fn run(&mut self)
        requires
            old(self)@.safe(),
        ensures
            final(self)@.safe(),
            final(self)@.pending.len() == 0 || !final(self)@.room_for_step(),
            old(self)@.log.is_prefix_of(final(self)@.log),
            old(self)@.durable_kept(final(self)@),
            old(self)@.progressing() ==> final(self)@.progressing(),
            final(self)@.coordinator.nodes == old(self)@.coordinator.nodes,
            final(self)@.delay_start == old(self)@.delay_start,
            final(self)@.delay_end == old(self)@.delay_end,
            old(self)@.settled() || old(self)@.due_tick_pending() ==> final(self)@.settled() || final(self)@ == old(self)@,
            (old(self)@.progressing() && final(self)@.crash_free() || old(self)@.settled() || old(self)@.due_tick_pending())
                && final(self)@.pending.len() == 0 && final(self)@.coordinator.nodes.len() > 0 ==> {
                ||| final(self)@.coordinator.phase is Waiting
                ||| final(self)@.coordinator.phase is Done && final(self)@.quiescent()
                    && forall|k: u8| #[trigger] final(self)@.participants.contains_key(k)
                    ==> final(self)@.participants[k].decision() is Some
                        && final(self)@.participants[k].decision() == final(self)@.coordinator.decision()
            },
    {
        let mut progressed = true;
        while progressed && self.room_for_step()
            invariant
                self@.safe(),
                !progressed ==> self@.pending.len() == 0,
                old(self)@.log.is_prefix_of(self@.log),
                old(self)@.durable_kept(self@),
                old(self)@.progressing() ==> self@.progressing(),
                old(self)@.settled() || old(self)@.due_tick_pending() ==> self@.settled() || self@ == old(self)@,
                self@.coordinator.nodes == old(self)@.coordinator.nodes,
                self@.delay_start == old(self)@.delay_start,
                self@.delay_end == old(self)@.delay_end,
            decreases
                (if progressed { 1nat } else { 0nat }),
                self@.measure_external(),
                self@.measure_phase(),
                self@.measure_outstanding(),
                self@.measure_weight(),
        {
            let ghost before = self@;
            progressed = self.step();
            proof {
                super::safety::lemma_durable_kept_trans(old(self)@, before, self@);
                assert(old(self)@.log.is_prefix_of(self@.log)) by {
                    assert(self@.log.subrange(0, before.log.len() as int).subrange(0, old(self)@.log.len() as int)
                        =~= self@.log.subrange(0, old(self)@.log.len() as int));
                }
                if progressed {
                    let i = choose|i: int| #[trigger] before.is_earliest(i) && before.stepped(i, self@);
                    lemma_step_measure(before, i, self@);
                    if before.settled() {
                        super::progress::lemma_step_settled(before, i, self@);
                    } else if before == old(self)@ && old(self)@.due_tick_pending() {
                        assert(i == 0);
                        super::progress::lemma_due_tick_settles(before, self@);
                    }
                }
            }
        }
        proof {
            let m = self@;
            if m.pending.len() == 0 && m.coordinator.nodes.len() > 0 && (old(self)@.progressing() && m.crash_free()
                || old(self)@.settled() || old(self)@.due_tick_pending()) {
                if old(self)@.progressing() && m.crash_free() {
                    super::laws::lemma_crash_free_rest_means_decided(m);
                } else {
                    super::laws::lemma_rest_means_decided(m);
                }
                if m.coordinator.phase is Done {
                    assert forall|k: u8| #[trigger] m.participants.contains_key(k) && !m.crashed_nodes.contains(k)
                        implies !(m.participants[k].phase is Voted) by {
                        assert(m.participants[k].decision() is Some);
                    }
                }
            }
        }
    }
}

} // verus!
