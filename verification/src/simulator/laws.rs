//! The properties of the protocol, proved of every state that satisfies
//! the protocol invariant, which every simulation step keeps: agreement and
//! validity, and, for termination, that the simulation comes to rest only
//! once every participant holds the decision (with crashes, once it is
//! quiescent; without, once its event queue is empty).
use super::model::SimulatorModel;
use super::event::{Event, InternalEvent};
use super::ExternalEvent;
use crate::participant::ParticipantPhase;
use crate::types::ActorId;
use crate::coordinator::{
    all_acked, coordinator_tick, lemma_messages_to_nonempty, unanimous_commit, PhaseModel,
};
use crate::types::{decision_message_type, Decision, Message, MessageType, Vote};
use vstd::prelude::*;

verus! {

/// Safety (agreement and validity) of the observations holds in every state
/// that satisfies the protocol invariant.
pub proof fn lemma_safe_observations(m: SimulatorModel)
    requires
        m.safe(),
    ensures
        m.observations.agreement(),
        m.observations.validity(),
{
    let o = m.observations;
    assert forall|a: u8, b: u8|
        #![trigger o.participant_decisions[a], o.participant_decisions[b]]
        o.participant_decisions.contains_key(a) && o.participant_decisions.contains_key(b)
        implies o.participant_decisions[a] == o.participant_decisions[b] by {
    }
    match o.coordinator_decision {
        Some(Decision::Commit) => {
            assert forall|k: u8| #[trigger] o.votes.contains_key(k) implies o.votes[k] == Vote::Commit by {
                assert((m.vote_is_durable())(k, o.votes[k]));
                assert(m.participants.contains_key(k));
            }
        },
        Some(Decision::Abort) => {
            assert forall|k: u8| #[trigger] o.participant_decisions.contains_key(k)
                implies o.participant_decisions[k] != Decision::Commit by {
            }
        },
        None => {},
    }
}

/// Agreement (AC1) on the actors' own state: every participant that has a
/// decision holds the coordinator's durable decision, so any two decided
/// participants agree.
pub proof fn lemma_decided_participants_agree(m: SimulatorModel)
    requires
        m.safe(),
    ensures
        forall|a: u8| #[trigger] m.participants.contains_key(a) && m.participants[a].decision() is Some
            ==> m.participants[a].decision() == m.coordinator.durable_decision,
        forall|a: u8, b: u8|
            #![trigger m.participants[a].decision(), m.participants[b].decision()]
            m.participants.contains_key(a) && m.participants.contains_key(b)
                && m.participants[a].decision() is Some && m.participants[b].decision() is Some
                ==> m.participants[a].decision() == m.participants[b].decision(),
{
}

/// Validity (AC2): a Commit decision, at the coordinator, in the
/// observations or at any participant, comes with a Commit vote from every
/// participant, and the observations hold a Commit vote sent by every node
/// the coordinator manages.
pub proof fn lemma_commit_needs_unanimity(m: SimulatorModel)
    requires
        m.safe(),
        m.coordinator.decision() == Some(Decision::Commit)
            || m.observations.coordinator_decision == Some(Decision::Commit)
            || exists|k: u8| #[trigger] m.participants.contains_key(k) && m.participants[k].decision() == Some(Decision::Commit),
    ensures
        forall|k: u8| #[trigger] m.participants.contains_key(k) ==> m.participants[k].vote() == Some(Vote::Commit),
        forall|i: int| 0 <= i < m.coordinator.nodes.len() ==> {
            let n = (#[trigger] m.coordinator.nodes[i]).0;
            m.observations.votes.contains_key(n) && m.observations.votes[n] == Vote::Commit
        },
{
    assert(m.coordinator.durable_decision == Some(Decision::Commit));
    assert forall|i: int| 0 <= i < m.coordinator.nodes.len() implies {
        let n = (#[trigger] m.coordinator.nodes[i]).0;
        m.observations.votes.contains_key(n) && m.observations.votes[n] == Vote::Commit
    } by {
        let n = m.coordinator.nodes[i].0;
        assert(m.participants.contains_key(n));
        assert((m.vote_on_record())(n, Vote::Commit));
    }
}

/// With no abort bias the coordinator aborts only for a reason: an Abort
/// decision, at the coordinator or at any participant, comes with some
/// participant's Abort vote. Together with validity: the coordinator
/// commits if and only if every participant votes Commit.
pub proof fn lemma_zero_bias_abort_needs_abort_vote(m: SimulatorModel)
    requires
        m.safe(),
        m.coordinator.abort_bias == 0,
        m.coordinator.decision() == Some(Decision::Abort)
            || exists|k: u8| #[trigger] m.participants.contains_key(k) && m.participants[k].decision() == Some(Decision::Abort),
    ensures
        exists|k: u8| #[trigger] m.participants.contains_key(k) && m.participants[k].vote() == Some(Vote::Abort),
{
    let k = choose|k: u8| #[trigger] m.participants.contains_key(k) && m.participants[k].durable_vote == Some(Vote::Abort);
    assert(m.participants[k].vote() == Some(Vote::Abort));
}

/// Termination, as a stopped system shows it: the coordinator completes
/// only once every participant holds the decision, so when the simulation
/// is quiescent with an operating coordinator that has started the
/// transaction, every participant holds the coordinator's decision.
pub proof fn lemma_quiescent_means_decided(m: SimulatorModel)
    requires
        m.safe(),
        m.quiescent(),
        !m.coordinator_crashed,
        !(m.coordinator.phase is Waiting),
    ensures
        m.coordinator.phase is Done,
        forall|k: u8| #[trigger] m.participants.contains_key(k)
            ==> m.participants[k].decision() is Some && m.participants[k].decision() == m.coordinator.decision(),
{
    assert forall|k: u8| #[trigger] m.participants.contains_key(k)
        implies m.participants[k].decision() is Some && m.participants[k].decision() == m.coordinator.decision() by {
        assert((m.participant_decided())(k));
    }
}

/// Termination without crashes: in a run in which no actor has crashed,
/// the event queue empties only once the protocol is over. With at least
/// one participant, the coordinator then has either not started or
/// completed, and once completed every participant holds its decision.
pub proof fn lemma_crash_free_rest_means_decided(m: SimulatorModel)
    requires
        m.safe(),
        m.progressing(),
        m.crash_free(),
        m.pending.len() == 0,
        m.coordinator.nodes.len() > 0,
    ensures
        m.coordinator.phase is Waiting || m.coordinator.phase is Done,
        m.coordinator.phase is Done ==> forall|k: u8| #[trigger] m.participants.contains_key(k)
            ==> m.participants[k].decision() is Some && m.participants[k].decision() == m.coordinator.decision(),
{
    lemma_rest_means_decided(m);
}

/// Termination once everything the coordinator waits for is on its way:
/// the event queue then empties only once the protocol is over. With at
/// least one participant, the coordinator has either not started or
/// completed, and once completed every participant holds its decision.
pub proof fn lemma_rest_means_decided(m: SimulatorModel)
    requires
        m.safe(),
        m.awaited_in_flight(),
        m.pending.len() == 0,
        m.coordinator.nodes.len() > 0,
    ensures
        m.coordinator.phase is Waiting || m.coordinator.phase is Done,
        m.coordinator.phase is Done ==> forall|k: u8| #[trigger] m.participants.contains_key(k)
            ==> m.participants[k].decision() is Some && m.participants[k].decision() == m.coordinator.decision(),
{
    lemma_missing_node(m);
    match m.coordinator.phase {
        PhaseModel::Voting { votes, .. } => {
            let k = choose|k: u8| #[trigger] m.participants.contains_key(k) && !votes.contains_key(k);
            assert(m.vote_on_its_way(k));
        },
        PhaseModel::AwaitingAcks { decision, acks, .. } => {
            let k = choose|k: u8| #[trigger] m.participants.contains_key(k) && !acks.contains(k);
            assert(m.ack_on_its_way(k, decision));
        },
        PhaseModel::Done(_) => {
            assert forall|k: u8| #[trigger] m.participants.contains_key(k)
                implies m.participants[k].decision() is Some && m.participants[k].decision() == m.coordinator.decision() by {
                assert((m.participant_decided())(k));
            }
        },
        _ => {},
    }
}

/// Progress: a started, unfinished coordinator does not stop by itself.
/// With at least one participant, a `TickAll` handled while the coordinator
/// operates and a send is due (always in `Decided`; in `Voting` after
/// recovery or once the timeout has elapsed since the last Prepare; in
/// `AwaitingAcks` once the timeout has elapsed since the last decision)
/// sends at least one message, whatever the coordinator's coin shows.
/// Together with [`lemma_quiescent_means_decided`]: a simulation comes to
/// rest only once every participant holds the decision.
pub proof fn lemma_due_tick_sends(m: SimulatorModel, later: SimulatorModel, out: Seq<Message>)
    requires
        m.safe(),
        m.coordinator.nodes.len() > 0,
        !m.coordinator_crashed,
        m.coordinator.tick_due(m.clock),
        m.handled_external(ExternalEvent::TickAll, later, out),
    ensures
        out.len() > 0,
{
    let c = m.coordinator;
    let sp = choose|sp: bool| {
        &&& #[trigger] c.spontaneous_coin_possible(sp)
        &&& later == m.with_coordinator(coordinator_tick(c, m.clock, sp).0)
        &&& out == coordinator_tick(c, m.clock, sp).1
    };
    lemma_missing_node(m);
    match c.phase {
        PhaseModel::Voting { votes, .. } => {
            if sp {
                lemma_messages_to_nonempty(c.nodes, MessageType::DecisionAbort, Set::empty(), 0);
            } else {
                let k = choose|k: u8| #[trigger] m.participants.contains_key(k) && !votes.contains_key(k);
                assert(c.nodes[k as int].0 == k);
                lemma_messages_to_nonempty(c.nodes, MessageType::Prepare, votes.dom(), k as int);
            }
        },
        PhaseModel::Decided(d) => {
            lemma_messages_to_nonempty(c.nodes, decision_message_type(d), Set::empty(), 0);
        },
        PhaseModel::AwaitingAcks { decision, acks, .. } => {
            let k = choose|k: u8| #[trigger] m.participants.contains_key(k) && !acks.contains(k);
            assert(c.nodes[k as int].0 == k);
            lemma_messages_to_nonempty(c.nodes, decision_message_type(decision), acks, k as int);
        },
        _ => {},
    }
}

/// While `Voting` some participant has not voted, and while `AwaitingAcks`
/// some participant has not acknowledged.
proof fn lemma_missing_node(m: SimulatorModel)
    requires
        m.safe(),
        m.coordinator.nodes.len() > 0,
    ensures
        m.coordinator.phase matches PhaseModel::Voting { votes, .. }
            ==> exists|k: u8| #[trigger] m.participants.contains_key(k) && !votes.contains_key(k),
        m.coordinator.phase matches PhaseModel::AwaitingAcks { acks, .. }
            ==> exists|k: u8| #[trigger] m.participants.contains_key(k) && !acks.contains(k),
{
    let nodes = m.coordinator.nodes;
    match m.coordinator.phase {
        PhaseModel::Voting { votes, .. } => {
            let i = choose|i: int| 0 <= i < nodes.len() && !votes.dom().contains(#[trigger] nodes[i].0);
            assert(m.participants.contains_key(nodes[i].0));
        },
        PhaseModel::AwaitingAcks { acks, .. } => {
            let i = choose|i: int| 0 <= i < nodes.len() && !acks.contains(#[trigger] nodes[i].0);
            assert(m.participants.contains_key(nodes[i].0));
        },
        _ => {},
    }
}

/// Commit votes on record from every node the coordinator manages cover
/// every participant.
pub(crate) proof fn lemma_unanimous_covers_all(m: SimulatorModel)
    requires
        m.safe(),
        unanimous_commit(m.coordinator.nodes, m.vote_on_record()),
    ensures
        forall|k: u8| #[trigger] m.participants.contains_key(k) ==> (m.vote_on_record())(k, Vote::Commit),
{
    assert forall|k: u8| #[trigger] m.participants.contains_key(k) implies (m.vote_on_record())(k, Vote::Commit) by {
        assert(m.coordinator.nodes[k as int].0 == k);
    }
}

/// Acknowledgements from every node the coordinator manages, each from a
/// participant whose decision is durable, cover every participant.
pub(crate) proof fn lemma_all_acked_covers_all(m: SimulatorModel)
    requires
        m.safe(),
        all_acked(m.coordinator.nodes, m.participant_decided()),
    ensures
        forall|k: u8| #[trigger] m.participants.contains_key(k) ==> (m.participant_decided())(k),
{
    assert forall|k: u8| #[trigger] m.participants.contains_key(k) implies (m.participant_decided())(k) by {
        assert(m.coordinator.nodes[k as int].0 == k);
    }
}

/// A crashed coordinator is non-operational until it recovers: handling
/// any external event other than its own recovery (a `TickAll`, a tick, a
/// `StartTransaction`, a crash or another recovery) leaves its state as it
/// was, keeps it crashed and the participants as they were, and sends
/// nothing.
pub proof fn lemma_crashed_coordinator_stays_silent(m: SimulatorModel, ext: ExternalEvent, later: SimulatorModel, out: Seq<Message>)
    requires
        m.coordinator_crashed,
        ext != ExternalEvent::Recover(ActorId::Coordinator),
        m.handled_external(ext, later, out),
    ensures
        later.coordinator == m.coordinator,
        later.coordinator_crashed,
        later.participants == m.participants,
        out.len() == 0,
{
}

/// A crashed actor is untouched until it recovers: a step that takes any
/// event other than that actor's own recovery leaves a crashed
/// coordinator's state as it was and it crashed, and likewise a crashed
/// participant's.
pub proof fn lemma_step_leaves_crashed_actors(m: SimulatorModel, i: int, later: SimulatorModel)
    requires
        m.safe(),
        0 <= i < m.pending.len(),
        m.stepped(i, later),
    ensures
        m.coordinator_crashed && m.pending[i].event != Event::External(ExternalEvent::Recover(ActorId::Coordinator))
            ==> later.coordinator == m.coordinator && later.coordinator_crashed,
        forall|k: u8| #[trigger] m.crashed_nodes.contains(k) && m.participants.contains_key(k)
            && m.pending[i].event != Event::External(ExternalEvent::Recover(ActorId::Node(crate::types::NodeId(k))))
            ==> later.participants.contains_key(k) && later.participants[k] == m.participants[k] && later.crashed_nodes.contains(k),
{
    let e = m.pending[i];
    let taken = SimulatorModel { pending: m.pending.remove(i), clock: e.timestamp, ..m };
    match e.event {
        Event::Internal(InternalEvent::Deliver { to, msg }) => {
            assert(m.event_ok(m.pending[i].event));
            if taken.operating(msg.to) {
                let logged = SimulatorModel {
                    log: taken.log.push(super::LogEntry::Deliver { at: taken.clock, msg }),
                    observations: taken.observations.after_delivered(msg),
                    ..taken
                };
                let (handled, out) = choose|handled: SimulatorModel, out: Seq<Message>| {
                    &&& match to {
                        ActorId::Coordinator => logged.coordinator_stepped(msg, handled, out),
                        ActorId::Node(id) => logged.participant_stepped(id.0, msg, handled, out),
                    }
                    &&& #[trigger] handled.sends(out, later)
                };
            }
        },
        Event::External(ext) => {
            let logged = SimulatorModel { log: taken.log.push(super::LogEntry::ExternalEvent { at: taken.clock, event: ext }), ..taken };
            let (handled, out) = choose|handled: SimulatorModel, out: Seq<Message>| {
                &&& logged.handled_external(ext, handled, out)
                &&& #[trigger] handled.sends(out, later)
            };
        },
    }
}

/// A quiescent simulation has nothing pending, its coordinator, where it
/// operates, has not started or has completed, and every participant that
/// operates is waiting for a Prepare or has decided: none is left voted and
/// blocked on a decision. Conversely, a simulation in that condition is
/// quiescent.
pub proof fn lemma_quiescent_means_nothing_blocked(m: SimulatorModel)
    ensures
        m.quiescent() <==> {
            &&& m.pending.len() == 0
            &&& !m.coordinator_crashed ==> (m.coordinator.phase is Waiting || m.coordinator.phase is Done)
            &&& forall|k: u8| #[trigger] m.participants.contains_key(k) && !m.crashed_nodes.contains(k)
                ==> (m.participants[k].phase is Waiting || m.participants[k].phase is Decided)
        },
{
    if m.quiescent() {
        assert forall|k: u8| #[trigger] m.participants.contains_key(k) && !m.crashed_nodes.contains(k)
            implies (m.participants[k].phase is Waiting || m.participants[k].phase is Decided) by {
            assert(!(m.participants[k].phase is Voted));
        }
    } else if m.pending.len() == 0 && (!m.coordinator_crashed ==> (m.coordinator.phase is Waiting || m.coordinator.phase is Done)) {
        let k = choose|k: u8| #[trigger] m.participants.contains_key(k) && !m.crashed_nodes.contains(k)
            && m.participants[k].phase is Voted;
        assert(!(m.participants[k].phase is Waiting || m.participants[k].phase is Decided));
    }
}

/// Crashing and recovering toggle whether an actor operates, and nothing
/// else that matters to the protocol: a crash stops the actor, a recovery
/// restarts it; neither sends anything, and neither changes the
/// participants' states; a crash leaves the coordinator's state as it was.
pub proof fn lemma_crash_recover_toggle(m: SimulatorModel, a: ActorId, later: SimulatorModel, out: Seq<Message>)
    ensures
        m.handled_external(ExternalEvent::Crash(a), later, out) ==> {
            &&& !later.operating(a)
            &&& out.len() == 0
            &&& later.coordinator == m.coordinator
            &&& later.participants == m.participants
            &&& forall|b: ActorId| b != a ==> (later.operating(b) == m.operating(b))
        },
        m.handled_external(ExternalEvent::Recover(a), later, out) ==> {
            &&& later.operating(a)
            &&& out.len() == 0
            &&& later.participants == m.participants
            &&& forall|b: ActorId| b != a ==> (later.operating(b) == m.operating(b))
        },
{
}

} // verus!
