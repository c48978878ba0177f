//! Why every simulator step keeps the protocol invariant: each kind of
//! change to the simulation state (an actor's transition, a recorded
//! observation, an event queued or taken) keeps it.
use super::event::{max_timestamp, Event, EventQueueModel, InternalEvent, TimestampedEvent};
use super::model::SimulatorModel;
use super::{ExternalEvent, LogEntry};
use crate::coordinator::{
    all_acked, coordinator_receive, coordinator_recovered, coordinator_step, coordinator_tick, lemma_messages_to_nonempty,
    lemma_receive_incomplete, lemma_receive_safe, lemma_tick_incomplete, lemma_tick_safe, unanimous_commit,
    CoordinatorModel,
};
use crate::participant::{lemma_participant_step_safe, participant_step, recovered_phase, ParticipantModel};
use crate::types::{decision_of, vote_of, ActorId, Decision, Message, MessageType, Vote};
use vstd::prelude::*;

verus! {

/// Every timestamp in `s` is at most its maximum.
pub proof fn lemma_max_timestamp_bounds(s: Seq<TimestampedEvent>)
    ensures
        forall|i: int| 0 <= i < s.len() ==> #[trigger] s[i].timestamp <= max_timestamp(s),
    decreases s.len(),
{
    if s.len() > 0 {
        lemma_max_timestamp_bounds(s.drop_last());
        assert forall|i: int| 0 <= i < s.len() implies #[trigger] s[i].timestamp <= max_timestamp(s) by {
            if i < s.len() - 1 {
                assert(s[i] == s.drop_last()[i]);
            }
        }
    }
}

/// A bound on every timestamp of `s` bounds its maximum.
pub proof fn lemma_max_timestamp_least(s: Seq<TimestampedEvent>, bound: int)
    requires
        0 <= bound,
        forall|i: int| 0 <= i < s.len() ==> #[trigger] s[i].timestamp <= bound,
    ensures
        max_timestamp(s) <= bound,
    decreases s.len(),
{
    if s.len() > 0 {
        assert forall|i: int| 0 <= i < s.drop_last().len() implies #[trigger] s.drop_last()[i].timestamp <= bound by {
            assert(s.drop_last()[i] == s[i]);
        }
        lemma_max_timestamp_least(s.drop_last(), bound);
        assert(s[s.len() - 1].timestamp <= bound);
    }
}

/// Replacing the coordinator by a state reached through its transitions
/// keeps the invariant: the new state is well formed with the same
/// configuration, its votes are durable participant votes on record, its
/// durable decision only grows, and a new Commit decision rests on unanimous
/// durable Commit votes on record.
pub proof fn lemma_coordinator_update(m: SimulatorModel, c2: CoordinatorModel)
    requires
        m.safe(),
        c2.wf(),
        c2.incomplete(),
        c2.same_config(m.coordinator),
        c2.votes_satisfy(m.vote_on_record()),
        c2.acks_satisfy(m.participant_decided()),
        c2.phase is Done && !(m.coordinator.phase is Done) ==> all_acked(m.coordinator.nodes, m.participant_decided()),
        m.coordinator.durable_decision is Some ==> c2.durable_decision == m.coordinator.durable_decision,
        c2.durable_decision == Some(Decision::Commit) && m.coordinator.durable_decision != Some(Decision::Commit)
            ==> unanimous_commit(m.coordinator.nodes, m.vote_on_record()),
        c2.durable_decision == Some(Decision::Abort) && m.coordinator.durable_decision != Some(Decision::Abort)
            && m.coordinator.abort_bias == 0 ==> exists|k: u8| #[trigger] (m.vote_on_record())(k, Vote::Abort),
    ensures
        (SimulatorModel { coordinator: c2, ..m }).safe(),
        forall|msg: Message| #[trigger] m.sendable(msg) ==> (SimulatorModel { coordinator: c2, ..m }).sendable(msg),
        forall|msg: Message| #[trigger] m.deliverable(msg) ==> (SimulatorModel { coordinator: c2, ..m }).deliverable(msg),
        m.durable_kept(SimulatorModel { coordinator: c2, ..m }),
{
    let m2 = SimulatorModel { coordinator: c2, ..m };
    assert(m2.vote_is_durable() == m.vote_is_durable());
    assert(m2.vote_on_record() == m.vote_on_record());
    assert(m2.participant_decided() == m.participant_decided());
    if c2.phase is Done && !(m.coordinator.phase is Done) {
        super::laws::lemma_all_acked_covers_all(m);
    }
    if c2.durable_decision == Some(Decision::Abort) && m.coordinator.durable_decision != Some(Decision::Abort)
        && m.coordinator.abort_bias == 0 {
        let k = choose|k: u8| #[trigger] (m.vote_on_record())(k, Vote::Abort);
        assert(m.participants.contains_key(k));
    }
    if c2.durable_decision == Some(Decision::Commit) && m.coordinator.durable_decision != Some(Decision::Commit) {
        super::laws::lemma_unanimous_covers_all(m);
    }
    assert forall|i: int| 0 <= i < m2.pending.len() implies m2.event_ok(#[trigger] m2.pending[i].event) by {
        assert(m.event_ok(m.pending[i].event));
    }
}

/// Replacing participant `id` by the state its step reaches on a message
/// that may be in flight keeps the invariant, and what it sends may be in
/// flight.
pub proof fn lemma_participant_update(m: SimulatorModel, id: u8, msg: Message, coin: bool)
    requires
        m.safe(),
        m.participants.contains_key(id),
        m.sendable(msg),
    ensures
        ({
            let (p2, out) = participant_step(m.participants[id], msg, coin);
            let m2 = SimulatorModel { participants: m.participants.insert(id, p2), ..m };
            &&& m2.safe()
            &&& forall|x: Message| #[trigger] m.sendable(x) ==> m2.sendable(x)
            &&& forall|x: Message| #[trigger] m.deliverable(x) ==> m2.deliverable(x)
            &&& forall|i: int| 0 <= i < out.len() ==> m2.sendable(#[trigger] out[i])
            &&& out.len() <= 1
            &&& m.durable_kept(m2)
        }),
{
    let p = m.participants[id];
    let (p2, out) = participant_step(p, msg, coin);
    lemma_participant_step_safe(p, msg, coin);
    let m2 = SimulatorModel { participants: m.participants.insert(id, p2), ..m };
    assert(m2.participants.dom() =~= m.participants.dom());
    assert forall|k: u8, v: Vote| #[trigger] (m.vote_is_durable())(k, v) implies (m2.vote_is_durable())(k, v) by {
        if k == id {
        }
    }
    assert forall|k: u8, v: Vote| #[trigger] (m.vote_on_record())(k, v) implies (m2.vote_on_record())(k, v) by {
        assert((m.vote_is_durable())(k, v));
    }
    assert forall|k: u8| #[trigger] (m.participant_decided())(k) implies (m2.participant_decided())(k) by {
    }
    assert forall|x: Message| #[trigger] m.sendable(x) implies m2.sendable(x) by {
        if let Some(v) = vote_of(x.message_type) {
            if let ActorId::Node(n) = x.from {
                assert((m.vote_is_durable())(n.0, v));
            }
        }
        if x.message_type == MessageType::Ack {
            if let ActorId::Node(n) = x.from {
                assert((m.participant_decided())(n.0));
            }
        }
    }
    assert forall|x: Message| #[trigger] m.deliverable(x) implies m2.deliverable(x) by {
        if let Some(v) = vote_of(x.message_type) {
            if let ActorId::Node(n) = x.from {
                assert((m.vote_on_record())(n.0, v));
            }
        }
    }
    let c = m.coordinator;
    if let crate::coordinator::PhaseModel::Voting { votes, .. } = c.phase {
        assert forall|k: u8| #[trigger] votes.contains_key(k) implies (m2.vote_on_record())(k, votes[k]) by {
            assert((m.vote_on_record())(k, votes[k]));
        }
    }
    if c.durable_decision == Some(Decision::Commit) {
        assert forall|k: u8| #[trigger] m2.participants.contains_key(k) implies (m2.vote_on_record())(k, Vote::Commit) by {
            assert((m.vote_on_record())(k, Vote::Commit));
        }
    }
    if let crate::coordinator::PhaseModel::AwaitingAcks { acks, .. } = c.phase {
        assert forall|k: u8| #[trigger] acks.contains(k) implies (m2.participant_decided())(k) by {
            assert((m.participant_decided())(k));
        }
    }
    if c.phase is Done {
        assert forall|k: u8| #[trigger] m2.participants.contains_key(k) implies (m2.participant_decided())(k) by {
            assert((m.participant_decided())(k));
        }
    }
    assert forall|k: u8| #[trigger] m2.observations.votes.contains_key(k) implies (m2.vote_is_durable())(k, m2.observations.votes[k]) by {
        assert((m.vote_is_durable())(k, m.observations.votes[k]));
    }
    assert forall|k: u8| #[trigger] m2.participants.contains_key(k) && m2.participants[k].durable_decision is Some
        implies c.durable_decision == m2.participants[k].durable_decision by {
        if k == id && p2.durable_decision != p.durable_decision {
            assert(decision_of(msg.message_type) is Some);
        }
    }
    assert forall|i: int| 0 <= i < m2.pending.len() implies m2.event_ok(#[trigger] m2.pending[i].event) by {
        assert(m.event_ok(m.pending[i].event));
        if let Event::Internal(InternalEvent::Deliver { to, msg: x }) = m.pending[i].event {
            assert(m.deliverable(x));
        }
    }
    assert forall|i: int| 0 <= i < out.len() implies m2.sendable(#[trigger] out[i]) by {
        if let Some(v) = vote_of(out[i].message_type) {
            assert(m2.participants[id].durable_vote == Some(v));
        }
        if out[i].message_type == MessageType::Ack {
            assert(m2.participants[id].durable_decision is Some);
        }
    }
    if c.durable_decision == Some(Decision::Abort) && c.abort_bias == 0 {
        let k = choose|k: u8| #[trigger] m.participants.contains_key(k) && m.participants[k].durable_vote == Some(Vote::Abort);
        assert(m2.participants.contains_key(k));
    }
}

/// Recovering participant `id` from its durable state keeps the invariant.
pub proof fn lemma_participant_recover(m: SimulatorModel, id: u8)
    requires
        m.safe(),
        m.participants.contains_key(id),
    ensures
        ({
            let p = m.participants[id];
            let p2 = ParticipantModel { phase: recovered_phase(p.durable_vote, p.durable_decision), ..p };
            (SimulatorModel { participants: m.participants.insert(id, p2), ..m }) == m
        }),
{
    let p = m.participants[id];
    let p2 = ParticipantModel { phase: recovered_phase(p.durable_vote, p.durable_decision), ..p };
    assert(p2 == p);
    assert(m.participants.insert(id, p2) =~= m.participants);
}

/// Recording a delivered message that may be in flight keeps the invariant,
/// and is consistent with the earlier records.
pub proof fn lemma_record_delivered(m: SimulatorModel, msg: Message)
    requires
        m.safe(),
        m.sendable(msg),
    ensures
        m.observations.delivered_consistent(msg),
        (SimulatorModel { observations: m.observations.after_delivered(msg), ..m }).safe(),
        m.durable_kept(SimulatorModel { observations: m.observations.after_delivered(msg), ..m }),
        forall|x: Message| #[trigger] m.deliverable(x) ==> (SimulatorModel { observations: m.observations.after_delivered(msg), ..m }).deliverable(x),
{
    let m2 = SimulatorModel { observations: m.observations.after_delivered(msg), ..m };
    assert(m2.observations.votes == m.observations.votes);
    assert(m2.vote_on_record() == m.vote_on_record());
    assert forall|i: int| 0 <= i < m2.pending.len() implies m2.event_ok(#[trigger] m2.pending[i].event) by {
        assert(m.event_ok(m.pending[i].event));
    }
}

/// Recording a sent message that may be in flight keeps the invariant, and
/// is consistent with the earlier records.
pub proof fn lemma_record_sent(m: SimulatorModel, msg: Message)
    requires
        m.safe(),
        m.sendable(msg),
    ensures
        m.observations.sent_consistent(msg),
        (SimulatorModel { observations: m.observations.after_sent(msg), ..m }).safe(),
        m.durable_kept(SimulatorModel { observations: m.observations.after_sent(msg), ..m }),
        forall|x: Message| #[trigger] m.sendable(x) ==> (SimulatorModel { observations: m.observations.after_sent(msg), ..m }).sendable(x),
        forall|x: Message| #[trigger] m.deliverable(x) ==> (SimulatorModel { observations: m.observations.after_sent(msg), ..m }).deliverable(x),
        (SimulatorModel { observations: m.observations.after_sent(msg), ..m }).deliverable(msg),
{
    let m2 = SimulatorModel { observations: m.observations.after_sent(msg), ..m };
    if let (Some(v), ActorId::Node(id)) = (vote_of(msg.message_type), msg.from) {
        if m.observations.votes.contains_key(id.0) {
            assert((m.vote_is_durable())(id.0, m.observations.votes[id.0]));
        }
    }
    assert forall|k: u8, v: Vote| #[trigger] (m.vote_on_record())(k, v) implies (m2.vote_on_record())(k, v) by {
    }
    assert forall|x: Message| #[trigger] m.deliverable(x) implies m2.deliverable(x) by {
        if let Some(v) = vote_of(x.message_type) {
            if let ActorId::Node(n) = x.from {
                assert((m.vote_on_record())(n.0, v));
            }
        }
    }
    let c = m.coordinator;
    if let crate::coordinator::PhaseModel::Voting { votes, .. } = c.phase {
        assert forall|k: u8| #[trigger] votes.contains_key(k) implies (m2.vote_on_record())(k, votes[k]) by {
            assert((m.vote_on_record())(k, votes[k]));
        }
    }
    if c.durable_decision == Some(Decision::Commit) {
        assert forall|k: u8| #[trigger] m2.participants.contains_key(k) implies (m2.vote_on_record())(k, Vote::Commit) by {
            assert((m.vote_on_record())(k, Vote::Commit));
        }
    }
    assert forall|i: int| 0 <= i < m2.pending.len() implies m2.event_ok(#[trigger] m2.pending[i].event) by {
        assert(m.event_ok(m.pending[i].event));
        if let Event::Internal(InternalEvent::Deliver { to, msg: x }) = m.pending[i].event {
            assert(m.deliverable(x));
        }
    }
}

/// Taking the event at `i` out of the queue keeps the invariant, and that
/// event was fine.
pub proof fn lemma_take_event(m: SimulatorModel, i: int)
    requires
        m.safe(),
        0 <= i < m.pending.len(),
    ensures
        m.event_ok(m.pending[i].event),
        (SimulatorModel { pending: m.pending.remove(i), ..m }).safe(),
{
    let m2 = SimulatorModel { pending: m.pending.remove(i), ..m };
    assert forall|j: int| 0 <= j < m2.pending.len() implies m2.event_ok(#[trigger] m2.pending[j].event) by {
        if j < i {
            assert(m2.pending[j] == m.pending[j]);
        } else {
            assert(m2.pending[j] == m.pending[j + 1]);
        }
    }
    let q = EventQueueModel { pending: m.pending, next_sequence_number: m.next_sequence_number };
    let q2 = EventQueueModel { pending: m2.pending, next_sequence_number: m.next_sequence_number };
    assert forall|a: int, b: int|
        0 <= a < q2.pending.len() && 0 <= b < q2.pending.len() && a != b
        implies #[trigger] q2.pending[a].sequence_number != #[trigger] q2.pending[b].sequence_number by {
        let a0 = if a < i { a } else { a + 1 };
        let b0 = if b < i { b } else { b + 1 };
        assert(q2.pending[a] == q.pending[a0]);
        assert(q2.pending[b] == q.pending[b0]);
    }
    assert forall|a: int| 0 <= a < q2.pending.len() implies #[trigger] q2.pending[a].sequence_number < q2.next_sequence_number by {
        let a0 = if a < i { a } else { a + 1 };
        assert(q2.pending[a] == q.pending[a0]);
    }
}

/// Queuing the delivery of a message that may be in flight keeps the
/// invariant.
pub proof fn lemma_queue_delivery(m: SimulatorModel, timestamp: u64, msg: Message)
    requires
        m.safe(),
        m.deliverable(msg),
        m.next_sequence_number < u64::MAX,
    ensures
        (SimulatorModel {
            pending: m.pending.push(TimestampedEvent {
                timestamp,
                sequence_number: m.next_sequence_number,
                event: Event::Internal(InternalEvent::Deliver { to: msg.to, msg }),
            }),
            next_sequence_number: (m.next_sequence_number + 1) as u64,
            ..m
        }).safe(),
{
    let e = TimestampedEvent {
        timestamp,
        sequence_number: m.next_sequence_number,
        event: Event::Internal(InternalEvent::Deliver { to: msg.to, msg }),
    };
    let m2 = SimulatorModel { pending: m.pending.push(e), next_sequence_number: (m.next_sequence_number + 1) as u64, ..m };
    assert forall|j: int| 0 <= j < m2.pending.len() implies m2.event_ok(#[trigger] m2.pending[j].event) by {
        if j < m.pending.len() {
            assert(m.event_ok(m.pending[j].event));
        }
    }
}

/// A coordinator step (tick, then handling `msg`) on a message that may be
/// in flight keeps the invariant; what it sends may be in flight, at most
/// two messages per node.
pub proof fn lemma_coordinator_step_update(m: SimulatorModel, msg: Message, at: u64, spontaneous: bool, coin: bool)
    requires
        m.safe(),
        m.deliverable(msg),
        m.coordinator.spontaneous_coin_possible(spontaneous),
        m.coordinator.decide_coin_possible(coin),
    ensures
        ({
            let (c2, out) = coordinator_step(m.coordinator, msg, at, spontaneous, coin);
            let m2 = SimulatorModel { coordinator: c2, ..m };
            &&& m2.safe()
            &&& forall|x: Message| #[trigger] m.sendable(x) ==> m2.sendable(x)
            &&& forall|x: Message| #[trigger] m.deliverable(x) ==> m2.deliverable(x)
            &&& forall|i: int| 0 <= i < out.len() ==> m2.sendable(#[trigger] out[i])
            &&& out.len() <= 2 * m.coordinator.nodes.len()
            &&& m.durable_kept(m2)
        }),
{
    let ok = m.vote_on_record();
    let acked = m.participant_decided();
    let c = m.coordinator;
    let (c1, out1) = coordinator_tick(c, at, spontaneous);
    lemma_tick_safe(c, at, spontaneous, ok, acked);
    lemma_tick_incomplete(c, at, spontaneous);
    let (c2, out2) = coordinator_receive(c1, msg, at, coin);
    lemma_receive_safe(c1, msg, at, coin, ok, acked);
    lemma_receive_incomplete(c1, msg, at, coin);
    lemma_coordinator_update(m, c2);
    let m2 = SimulatorModel { coordinator: c2, ..m };
    let out = out1 + out2;
    assert forall|i: int| 0 <= i < out.len() implies m2.sendable(#[trigger] out[i]) by {
        if i < out1.len() {
            assert(out[i] == out1[i]);
        } else {
            assert(out[i] == out2[i - out1.len()]);
        }
    }
}

/// A coordinator tick keeps the invariant; what it sends may be in flight,
/// at most one message per node.
pub proof fn lemma_coordinator_tick_update(m: SimulatorModel, at: u64, spontaneous: bool)
    requires
        m.safe(),
        m.coordinator.spontaneous_coin_possible(spontaneous),
    ensures
        ({
            let (c2, out) = coordinator_tick(m.coordinator, at, spontaneous);
            let m2 = SimulatorModel { coordinator: c2, ..m };
            &&& m2.safe()
            &&& forall|x: Message| #[trigger] m.sendable(x) ==> m2.sendable(x)
            &&& forall|x: Message| #[trigger] m.deliverable(x) ==> m2.deliverable(x)
            &&& forall|i: int| 0 <= i < out.len() ==> m2.sendable(#[trigger] out[i])
            &&& out.len() <= m.coordinator.nodes.len()
            &&& m.durable_kept(m2)
        }),
{
    let ok = m.vote_on_record();
    lemma_tick_safe(m.coordinator, at, spontaneous, ok, m.participant_decided());
    lemma_tick_incomplete(m.coordinator, at, spontaneous);
    let (c2, out) = coordinator_tick(m.coordinator, at, spontaneous);
    lemma_coordinator_update(m, c2);
}

/// Recovering the coordinator from its durable state keeps the invariant.
pub proof fn lemma_coordinator_recover(m: SimulatorModel, at: u64)
    requires
        m.safe(),
    ensures
        (SimulatorModel { coordinator: coordinator_recovered(m.coordinator, at), ..m }).safe(),
        m.durable_kept(SimulatorModel { coordinator: coordinator_recovered(m.coordinator, at), ..m }),
{
    if m.coordinator.nodes.len() > 0 {
        assert(!Map::<u8, Vote>::empty().dom().contains(m.coordinator.nodes[0].0));
    }
    lemma_coordinator_update(m, coordinator_recovered(m.coordinator, at));
}

/// Keeping what is durable is transitive.
pub proof fn lemma_durable_kept_trans(a: SimulatorModel, b: SimulatorModel, c: SimulatorModel)
    requires
        a.durable_kept(b),
        b.durable_kept(c),
    ensures
        a.durable_kept(c),
{
    assert forall|k: u8| #[trigger] a.participants.contains_key(k) implies {
        &&& (a.participants[k].durable_vote is Some ==> c.participants[k].durable_vote == a.participants[k].durable_vote)
        &&& (a.participants[k].durable_decision is Some ==> c.participants[k].durable_decision == a.participants[k].durable_decision)
    } by {
        assert(b.participants.contains_key(k));
    }
    assert forall|k: u8| #[trigger] a.observations.votes.contains_key(k)
        implies c.observations.votes.contains_key(k) && c.observations.votes[k] == a.observations.votes[k] by {
        assert(b.observations.votes.contains_key(k));
    }
    assert forall|k: u8| #[trigger] a.observations.participant_decisions.contains_key(k)
        implies c.observations.participant_decisions.contains_key(k)
            && c.observations.participant_decisions[k] == a.observations.participant_decisions[k] by {
        assert(b.observations.participant_decisions.contains_key(k));
    }
}

/// Changing only what `durable_kept` does not mention keeps what is durable.
pub proof fn lemma_durable_kept_refl(a: SimulatorModel, b: SimulatorModel)
    requires
        b.coordinator.durable_decision == a.coordinator.durable_decision,
        b.participants == a.participants,
        b.observations == a.observations,
    ensures
        a.durable_kept(b),
{
}

/// A probe step that takes a lone `TickAll` and leaves the queue empty sent
/// nothing: it only logged the probe and moved the clock to the probe's
/// time; and an operating
/// coordinator with nodes was not due to send then, and still is not.
pub proof fn lemma_quiet_probe(before: SimulatorModel, after: SimulatorModel)
    requires
        before.safe(),
        before.pending.len() == 1,
        before.pending[0].event == Event::External(ExternalEvent::TickAll),
        exists|i: int| #[trigger] before.is_earliest(i) && before.stepped(i, after),
        after.pending.len() == 0,
    ensures
        after.log == before.log.push(LogEntry::ExternalEvent { at: before.pending[0].timestamp, event: ExternalEvent::TickAll }),
        after.clock == before.pending[0].timestamp,
        !after.coordinator_crashed && after.coordinator.nodes.len() > 0 ==> !after.coordinator.tick_due(after.clock),
{
    let i = choose|i: int| #[trigger] before.is_earliest(i) && before.stepped(i, after);
    assert(i == 0);
    let e = before.pending[0];
    let taken = SimulatorModel { pending: before.pending.remove(0), clock: e.timestamp, ..before };
    let logged = SimulatorModel { log: taken.log.push(LogEntry::ExternalEvent { at: taken.clock, event: ExternalEvent::TickAll }), ..taken };
    let (handled, out) = choose|handled: SimulatorModel, out: Seq<Message>| {
        &&& logged.handled_external(ExternalEvent::TickAll, handled, out)
        &&& #[trigger] handled.sends(out, after)
    };
    assert(handled.log == logged.log);
    assert(handled.pending.len() == 0);
    assert(out.len() == 0);
    assert(after.log =~= handled.log);
    lemma_take_event(before, 0);
    assert(logged.safe());
    let c = logged.coordinator;
    if !logged.coordinator_crashed && c.nodes.len() > 0 {
        if c.tick_due(logged.clock) {
            super::laws::lemma_due_tick_sends(logged, handled, out);
        }
        let sp = choose|sp: bool| {
            &&& #[trigger] c.spontaneous_coin_possible(sp)
            &&& handled == logged.with_coordinator(coordinator_tick(c, logged.clock, sp).0)
            &&& out == coordinator_tick(c, logged.clock, sp).1
        };
        if sp && c.phase is Voting {
            lemma_messages_to_nonempty(c.nodes, MessageType::DecisionAbort, Set::empty(), 0);
        }
        assert(handled.coordinator == c);
    }
}

} // verus!
