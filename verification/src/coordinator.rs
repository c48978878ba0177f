//! The 2PC coordinator state machine.
//!
//! ```text
//! Waiting --StartTransaction--> Voting --all votes in / any abort--> Decided(d)
//! Voting --tick: spontaneous abort--> Decided(Abort)
//! Decided(d) --broadcast--> AwaitingAcks(d) --all acks--> Done(d)
//! ```
//!
//! The coordinator retransmits on [`tick`](StateMachine::tick) once
//! `retransmit_timeout` has elapsed since the last send: Prepare to nodes with
//! no recorded vote while `Voting`, the decision to unacked nodes while
//! `AwaitingAcks`.
//!
//! It persists its decision to durable state before broadcasting it. On
//! [`recover`](StateMachine::recover), a durable decision resets the phase to
//! `Decided` (re-broadcast on the next tick); without one, the coordinator
//! restarts `Voting` with no votes and marks Prepare as due, so that the
//! next tick retransmits it to every node at once.
//!
//! `abort_bias` (in millionths) controls two behaviours: when all
//! participants vote Commit, the coordinator still aborts with probability
//! `abort_bias`; and on every tick in `Voting` it aborts spontaneously with
//! probability `abort_bias / 10`. With `abort_bias == 0` the coordinator is
//! deterministic: it commits if and only if every participant votes Commit.
use crate::rng::{
    capped, coin_outcome_possible, drew_coin, flip, ratio_outcome, seeded_rng, Draw, GeneratorModel, PROBABILITY_SCALE,
};
use crate::state_machine::StateMachine;
use crate::types::{
    decision_message_type, decision_of, decision_type, vote_of, ActorId, Decision, Message, MessageType, NodeId,
    Vote,
};
use crate::rng::SeededRng;
use std::collections::{BTreeMap, BTreeSet};
use vstd::prelude::*;
use vstd::std_specs::btree::spec_btree_map_iter;
use vstd::std_specs::iter::IteratorSpec;

verus! {

broadcast use vstd::laws_cmp::group_laws_cmp;

/// Coordinator protocol phase.
///
/// `Voting` holds the votes received (keyed by node number) and the time of
/// the last Prepare send; `AwaitingAcks` holds the nodes that acknowledged and
/// the time of the last decision send.
#[derive(Debug, Clone, PartialEq, Eq)]
pub enum CoordinatorPhase {
    Waiting,
    Voting { last_prepare_time: u64, votes: BTreeMap<u8, Vote> },
    Decided(Decision),
    AwaitingAcks { decision: Decision, last_decision_time: u64, acks: BTreeSet<u8> },
    Done(Decision),
}

/// The abstract value of a [`CoordinatorPhase`].
pub enum PhaseModel {
    Waiting,
    Voting { last_prepare_time: u64, votes: Map<u8, Vote> },
    Decided(Decision),
    AwaitingAcks { decision: Decision, last_decision_time: u64, acks: Set<u8> },
    Done(Decision),
}

impl View for CoordinatorPhase {
    type V = PhaseModel;

    open spec fn view(&self) -> PhaseModel {
        match *self {
            CoordinatorPhase::Waiting => PhaseModel::Waiting,
            CoordinatorPhase::Voting { last_prepare_time, votes } => PhaseModel::Voting {
                last_prepare_time,
                votes: votes@,
            },
            CoordinatorPhase::Decided(d) => PhaseModel::Decided(d),
            CoordinatorPhase::AwaitingAcks { decision, last_decision_time, acks } => {
                PhaseModel::AwaitingAcks { decision, last_decision_time, acks: acks@ }
            },
            CoordinatorPhase::Done(d) => PhaseModel::Done(d),
        }
    }
}

/// Simulation configuration.
struct Config {
    rng: SeededRng,
    abort_bias: u32,
    retransmit_timeout: u64,
}

/// Durable state that survives crashes: written before sending messages,
/// read on recovery.
struct DurableState {
    decision: Option<Decision>,
}

/// The coordinator of the two-phase commit protocol.
pub struct Coordinator {
    /// Participant node IDs managed by this coordinator.
    nodes: Vec<NodeId>,
    phase: CoordinatorPhase,
    durable_state: DurableState,
    config: Config,
    /// Set on recovery without a durable decision: the next tick retransmits
    /// Prepare whatever the time.
    resend_prepare: bool,
}

/// The abstract state of a coordinator.
pub struct CoordinatorModel {
    pub nodes: Seq<NodeId>,
    pub phase: PhaseModel,
    pub durable_decision: Option<Decision>,
    pub abort_bias: u32,
    pub retransmit_timeout: u64,
    pub resend_prepare: bool,
}

impl View for Coordinator {
    type V = CoordinatorModel;

    closed spec fn view(&self) -> CoordinatorModel {
        CoordinatorModel {
            nodes: self.nodes@,
            phase: self.phase@,
            durable_decision: self.durable_state.decision,
            abort_bias: self.config.abort_bias,
            retransmit_timeout: self.config.retransmit_timeout,
            resend_prepare: self.resend_prepare,
        }
    }
}

/// Denominator of the spontaneous-abort chance, which is a tenth of `abort_bias`.
pub const SPONTANEOUS_SCALE: u32 = 10_000_000;

/// The message from the coordinator to node `n` of type `t`.
pub open spec fn coordinator_message(t: MessageType, n: NodeId) -> Message {
    Message { message_type: t, from: ActorId::Coordinator, to: ActorId::Node(n) }
}

/// Messages of type `t` to each of `nodes`, in order, except those whose
/// number is in `skip`.
pub open spec fn messages_to(nodes: Seq<NodeId>, t: MessageType, skip: Set<u8>) -> Seq<Message>
    decreases nodes.len(),
{
    if nodes.len() == 0 {
        Seq::empty()
    } else {
        let rest = messages_to(nodes.drop_last(), t, skip);
        if skip.contains(nodes.last().0) {
            rest
        } else {
            rest.push(coordinator_message(t, nodes.last()))
        }
    }
}

/// `at - since`, or zero when `since` is later.
pub open spec fn elapsed(at: u64, since: u64) -> int {
    if at >= since { at - since } else { 0 }
}

impl CoordinatorModel {
    /// The decision this coordinator reached, if any.
    pub open spec fn decision(self) -> Option<Decision> {
        match self.phase {
            PhaseModel::Decided(d) => Some(d),
            PhaseModel::AwaitingAcks { decision, .. } => Some(decision),
            PhaseModel::Done(d) => Some(d),
            _ => None,
        }
    }

    /// The phase agrees with durable state: before a decision nothing is
    /// durable; from the decision on, the decision is. Votes and
    /// acknowledgements are recorded only from nodes it manages.
    pub open spec fn wf(self) -> bool {
        &&& match self.phase {
            PhaseModel::Waiting | PhaseModel::Voting { .. } => self.durable_decision.is_none(),
            _ => self.durable_decision == self.decision(),
        }
        &&& (self.phase matches PhaseModel::Voting { votes, .. } ==> votes.dom().finite())
        &&& (self.phase matches PhaseModel::AwaitingAcks { acks, .. } ==> acks.finite())
        &&& (self.resend_prepare ==> self.phase is Voting)
        &&& (self.phase matches PhaseModel::Voting { votes, .. }
            ==> forall|k: u8| #[trigger] votes.contains_key(k) ==> self.nodes.contains(NodeId(k)))
        &&& (self.phase matches PhaseModel::AwaitingAcks { acks, .. }
            ==> forall|k: u8| #[trigger] acks.contains(k) ==> self.nodes.contains(NodeId(k)))
    }

    /// The parts of the state that no transition changes.
    pub open spec fn same_config(self, other: CoordinatorModel) -> bool {
        &&& self.nodes == other.nodes
        &&& self.abort_bias == other.abort_bias
        &&& self.retransmit_timeout == other.retransmit_timeout
    }

    /// Every vote recorded in `Voting` satisfies `ok`.
    pub open spec fn votes_satisfy(self, ok: spec_fn(u8, Vote) -> bool) -> bool {
        self.phase matches PhaseModel::Voting { votes, .. }
            ==> forall|k: u8| #[trigger] votes.contains_key(k) ==> ok(k, votes[k])
    }

    /// While `Voting` some node has not voted, and while `AwaitingAcks` some
    /// node has not acknowledged (unless there are no nodes): the last vote
    /// decides, the last acknowledgement completes.
    pub open spec fn incomplete(self) -> bool {
        &&& (self.phase matches PhaseModel::Voting { votes, .. }
            ==> !covers_all(self.nodes, votes.dom()) || self.nodes.len() == 0)
        &&& (self.phase matches PhaseModel::AwaitingAcks { acks, .. }
            ==> !covers_all(self.nodes, acks) || self.nodes.len() == 0)
    }

    /// Whether a tick at `at` is due to send: always in `Decided`; in
    /// `Voting` once recovery marked Prepare due or the timeout has elapsed
    /// since the last Prepare; in `AwaitingAcks` once the timeout has elapsed
    /// since the last decision.
    pub open spec fn tick_due(self, at: u64) -> bool {
        match self.phase {
            PhaseModel::Voting { last_prepare_time, .. } => self.resend_prepare
                || elapsed(at, last_prepare_time) >= self.retransmit_timeout,
            PhaseModel::Decided(_) => true,
            PhaseModel::AwaitingAcks { last_decision_time, .. } => elapsed(at, last_decision_time) >= self.retransmit_timeout,
            _ => false,
        }
    }

    /// Every acknowledgement recorded in `AwaitingAcks` satisfies `acked`.
    pub open spec fn acks_satisfy(self, acked: spec_fn(u8) -> bool) -> bool {
        self.phase matches PhaseModel::AwaitingAcks { acks, .. }
            ==> forall|k: u8| #[trigger] acks.contains(k) ==> acked(k)
    }

    /// Every message in `out` comes from the coordinator and carries no vote
    /// nor acknowledgement;
    /// a decision it carries is this coordinator's durable decision.
    pub open spec fn sends_only_durable(self, out: Seq<Message>) -> bool {
        forall|i: int| 0 <= i < out.len() ==> {
            &&& (#[trigger] out[i]).from == ActorId::Coordinator
            &&& vote_of(out[i].message_type).is_none()
            &&& out[i].message_type != MessageType::Ack
            &&& match decision_of(out[i].message_type) {
                Some(d) => self.durable_decision == Some(d),
                None => true,
            }
        }
    }

    /// Whether `coin` is an outcome of the coin that aborts despite
    /// unanimous Commit votes.
    pub open spec fn decide_coin_possible(self, coin: bool) -> bool {
        coin_outcome_possible(capped(self.abort_bias, PROBABILITY_SCALE), PROBABILITY_SCALE, coin)
    }

    /// Whether `coin` is an outcome of the spontaneous-abort coin.
    pub open spec fn spontaneous_coin_possible(self, coin: bool) -> bool {
        coin_outcome_possible(capped(self.abort_bias, SPONTANEOUS_SCALE), SPONTANEOUS_SCALE, coin)
    }

    pub open spec fn with_phase(self, phase: PhaseModel) -> CoordinatorModel {
        CoordinatorModel { phase, ..self }
    }
}

/// Every node of `nodes` has its number in `keys`.
pub open spec fn covers_all(nodes: Seq<NodeId>, keys: Set<u8>) -> bool {
    forall|i: int| 0 <= i < nodes.len() ==> keys.contains(#[trigger] nodes[i].0)
}

/// Whether some vote in `votes` is Abort.
pub open spec fn has_abort_vote(votes: Map<u8, Vote>) -> bool {
    exists|k: u8| #[trigger] votes.contains_key(k) && votes[k] == Vote::Abort
}

/// The decision step: from `Voting`, any Abort vote decides Abort; otherwise,
/// once every node the coordinator manages has voted, the decision is Commit
/// unless the abort coin came up.
pub open spec fn try_decide(s: CoordinatorModel, coin: bool) -> CoordinatorModel {
    match s.phase {
        PhaseModel::Voting { votes, .. } => {
            if has_abort_vote(votes) {
                s.with_phase(PhaseModel::Decided(Decision::Abort))
            } else if covers_all(s.nodes, votes.dom()) {
                s.with_phase(PhaseModel::Decided(if coin { Decision::Abort } else { Decision::Commit }))
            } else {
                s
            }
        },
        _ => s,
    }
}

/// The broadcast step: from `Decided(d)`, make `d` durable, send it to every
/// node, and await acknowledgements.
pub open spec fn send_decision(s: CoordinatorModel, at: u64) -> (CoordinatorModel, Seq<Message>) {
    match s.phase {
        PhaseModel::Decided(d) => (
            CoordinatorModel {
                phase: PhaseModel::AwaitingAcks { decision: d, last_decision_time: at, acks: Set::empty() },
                durable_decision: Some(d),
                resend_prepare: false,
                ..s
            },
            messages_to(s.nodes, decision_message_type(d), Set::empty()),
        ),
        _ => (s, Seq::empty()),
    }
}

/// What a tick at `at` does, given the outcome of the spontaneous-abort coin
/// (flipped only in `Voting`). In `Voting`, Prepare is retransmitted when
/// recovery marked it due or the timeout has elapsed.
pub open spec fn coordinator_tick(s: CoordinatorModel, at: u64, spontaneous: bool) -> (CoordinatorModel, Seq<Message>) {
    match s.phase {
        PhaseModel::Voting { last_prepare_time, votes } => {
            if spontaneous {
                send_decision(s.with_phase(PhaseModel::Decided(Decision::Abort)), at)
            } else if s.resend_prepare || elapsed(at, last_prepare_time) >= s.retransmit_timeout {
                (
                    CoordinatorModel {
                        phase: PhaseModel::Voting { last_prepare_time: at, votes },
                        resend_prepare: false,
                        ..s
                    },
                    messages_to(s.nodes, MessageType::Prepare, votes.dom()),
                )
            } else {
                (s, Seq::empty())
            }
        },
        PhaseModel::Decided(_) => send_decision(s, at),
        PhaseModel::AwaitingAcks { decision, last_decision_time, acks } => {
            if elapsed(at, last_decision_time) >= s.retransmit_timeout {
                (
                    s.with_phase(PhaseModel::AwaitingAcks { decision, last_decision_time: at, acks }),
                    messages_to(s.nodes, decision_message_type(decision), acks),
                )
            } else {
                (s, Seq::empty())
            }
        },
        _ => (s, Seq::empty()),
    }
}

/// What handling `msg` at `at` does after the leading tick, given the
/// outcome of the abort coin for a unanimous Commit. Votes and
/// acknowledgements count only from nodes the coordinator manages.
pub open spec fn coordinator_receive(s: CoordinatorModel, msg: Message, at: u64, coin: bool) -> (CoordinatorModel, Seq<Message>) {
    match (msg.message_type, s.phase) {
        (MessageType::StartTransaction, PhaseModel::Waiting) => (
            s.with_phase(PhaseModel::Voting { last_prepare_time: at, votes: Map::empty() }),
            messages_to(s.nodes, MessageType::Prepare, Set::empty()),
        ),
        (MessageType::VoteCommit, PhaseModel::Voting { last_prepare_time, votes })
        | (MessageType::VoteAbort, PhaseModel::Voting { last_prepare_time, votes }) => {
            match msg.from {
                ActorId::Node(id) => {
                    if !s.nodes.contains(id) || votes.contains_key(id.0) {
                        (s, Seq::empty())
                    } else {
                        let s2 = s.with_phase(PhaseModel::Voting {
                            last_prepare_time,
                            votes: votes.insert(id.0, vote_of(msg.message_type).unwrap()),
                        });
                        send_decision(try_decide(s2, coin), at)
                    }
                },
                ActorId::Coordinator => (s, Seq::empty()),
            }
        },
        (MessageType::Ack, PhaseModel::AwaitingAcks { decision, last_decision_time, acks }) => {
            match msg.from {
                ActorId::Node(id) => {
                    if !s.nodes.contains(id) {
                        (s, Seq::empty())
                    } else {
                        let acks2 = acks.insert(id.0);
                        if covers_all(s.nodes, acks2) {
                            (s.with_phase(PhaseModel::Done(decision)), Seq::empty())
                        } else {
                            (s.with_phase(PhaseModel::AwaitingAcks { decision, last_decision_time, acks: acks2 }), Seq::empty())
                        }
                    }
                },
                ActorId::Coordinator => (s, Seq::empty()),
            }
        },
        _ => (s, Seq::empty()),
    }
}

/// What `on_message(msg, at)` does: tick, then handle the message. The
/// messages of the tick come first.
pub open spec fn coordinator_step(s: CoordinatorModel, msg: Message, at: u64, spontaneous: bool, coin: bool) -> (CoordinatorModel, Seq<Message>) {
    let (s1, out1) = coordinator_tick(s, at, spontaneous);
    let (s2, out2) = coordinator_receive(s1, msg, at, coin);
    (s2, out1 + out2)
}

/// The state recovery restores at `at` from durable state: `Decided` with a
/// durable decision; otherwise `Voting` with no votes, the last Prepare
/// backdated by the timeout (saturating at 0) and a retransmission due.
pub open spec fn coordinator_recovered(s: CoordinatorModel, at: u64) -> CoordinatorModel {
    match s.durable_decision {
        Some(d) => CoordinatorModel { phase: PhaseModel::Decided(d), resend_prepare: false, ..s },
        None => CoordinatorModel {
            phase: PhaseModel::Voting {
                last_prepare_time: if at >= s.retransmit_timeout { (at - s.retransmit_timeout) as u64 } else { 0 },
                votes: Map::empty(),
            },
            resend_prepare: true,
            ..s
        },
    }
}


/// Every node of `nodes` has a Commit vote satisfying `ok`.
pub open spec fn unanimous_commit(nodes: Seq<NodeId>, ok: spec_fn(u8, Vote) -> bool) -> bool {
    forall|i: int| 0 <= i < nodes.len() ==> ok(#[trigger] nodes[i].0, Vote::Commit)
}

/// Every node of `nodes` has an acknowledgement satisfying `acked`.
pub open spec fn all_acked(nodes: Seq<NodeId>, acked: spec_fn(u8) -> bool) -> bool {
    forall|i: int| 0 <= i < nodes.len() ==> acked(#[trigger] nodes[i].0)
}

/// Every message of `messages_to(nodes, t, skip)` is of type `t`, from the
/// coordinator to a node; there are at most as many as nodes.
pub proof fn lemma_messages_to(nodes: Seq<NodeId>, t: MessageType, skip: Set<u8>)
    ensures
        messages_to(nodes, t, skip).len() <= nodes.len(),
        forall|i: int| 0 <= i < messages_to(nodes, t, skip).len() ==> {
            &&& (#[trigger] messages_to(nodes, t, skip)[i]).message_type == t
            &&& messages_to(nodes, t, skip)[i].from == ActorId::Coordinator
            &&& messages_to(nodes, t, skip)[i].to is Node
        },
    decreases nodes.len(),
{
    if nodes.len() > 0 {
        lemma_messages_to(nodes.drop_last(), t, skip);
    }
}

/// What a tick keeps: well-formedness, the configuration, the durable
/// decision once made, the justification of votes and acknowledgements; a
/// tick never makes a new Commit decision, nor with no abort bias a new
/// Abort decision, nor completes, and it sends at most one message per node,
/// each from the coordinator with only the durable decision.
pub proof fn lemma_tick_safe(
    s: CoordinatorModel,
    at: u64,
    spontaneous: bool,
    ok: spec_fn(u8, Vote) -> bool,
    acked: spec_fn(u8) -> bool,
)
    requires
        s.wf(),
        s.votes_satisfy(ok),
        s.acks_satisfy(acked),
        s.spontaneous_coin_possible(spontaneous),
    ensures
        ({
            let (s2, out) = coordinator_tick(s, at, spontaneous);
            &&& s2.wf()
            &&& s2.same_config(s)
            &&& s2.votes_satisfy(ok)
            &&& s2.acks_satisfy(acked)
            &&& (s2.phase is Done ==> s.phase is Done)
            &&& (s.durable_decision is Some ==> s2.durable_decision == s.durable_decision)
            &&& (s2.durable_decision == Some(Decision::Commit) ==> s.durable_decision == Some(Decision::Commit))
            &&& (s2.durable_decision == Some(Decision::Abort) && s.abort_bias == 0 ==> s.durable_decision == Some(Decision::Abort))
            &&& s2.sends_only_durable(out)
            &&& out.len() <= s.nodes.len()
        }),
{
    let (s2, out) = coordinator_tick(s, at, spontaneous);
    lemma_messages_to(s.nodes, MessageType::Prepare, Set::empty());
    lemma_messages_to(s.nodes, MessageType::DecisionCommit, Set::empty());
    lemma_messages_to(s.nodes, MessageType::DecisionAbort, Set::empty());
    match s.phase {
        PhaseModel::Voting { votes, .. } => {
            lemma_messages_to(s.nodes, MessageType::Prepare, votes.dom());
        },
        PhaseModel::AwaitingAcks { decision, acks, .. } => {
            lemma_messages_to(s.nodes, decision_message_type(decision), acks);
        },
        _ => {},
    }
}

/// What handling a message after the tick keeps: as for a tick, and a new
/// Commit decision is made only on unanimous Commit votes from as many nodes
/// as the coordinator manages, each satisfying `ok` (given that a vote in
/// `msg` satisfies `ok`); with no abort bias, a new Abort decision only on
/// an Abort vote that satisfies `ok`; and the coordinator completes only on
/// acknowledgements from as many nodes as it manages, each satisfying
/// `acked` (given that an Ack in `msg` satisfies `acked`).
pub proof fn lemma_receive_safe(
    s: CoordinatorModel,
    msg: Message,
    at: u64,
    coin: bool,
    ok: spec_fn(u8, Vote) -> bool,
    acked: spec_fn(u8) -> bool,
)
    requires
        s.wf(),
        s.votes_satisfy(ok),
        s.acks_satisfy(acked),
        s.decide_coin_possible(coin),
        msg.from matches ActorId::Node(id) ==> match vote_of(msg.message_type) {
            Some(v) => ok(id.0, v),
            None => true,
        },
        msg.message_type == MessageType::Ack && msg.from is Node ==> acked(msg.from->Node_0.0),
    ensures
        ({
            let (s2, out) = coordinator_receive(s, msg, at, coin);
            &&& s2.wf()
            &&& s2.same_config(s)
            &&& s2.votes_satisfy(ok)
            &&& s2.acks_satisfy(acked)
            &&& (s2.phase is Done && !(s.phase is Done) ==> all_acked(s.nodes, acked))
            &&& (s.durable_decision is Some ==> s2.durable_decision == s.durable_decision)
            &&& (s2.durable_decision == Some(Decision::Commit) && s.durable_decision != Some(Decision::Commit)
                ==> unanimous_commit(s.nodes, ok))
            &&& (s2.durable_decision == Some(Decision::Abort) && s.durable_decision != Some(Decision::Abort) && s.abort_bias == 0
                ==> exists|k: u8| #[trigger] ok(k, Vote::Abort))
            &&& s2.sends_only_durable(out)
            &&& out.len() <= s.nodes.len()
        }),
{
    let (s2, out) = coordinator_receive(s, msg, at, coin);
    lemma_messages_to(s.nodes, MessageType::Prepare, Set::empty());
    lemma_messages_to(s.nodes, MessageType::DecisionCommit, Set::empty());
    lemma_messages_to(s.nodes, MessageType::DecisionAbort, Set::empty());
    match (msg.message_type, s.phase) {
        (MessageType::VoteCommit, PhaseModel::Voting { last_prepare_time, votes })
        | (MessageType::VoteAbort, PhaseModel::Voting { last_prepare_time, votes }) => {
            if let ActorId::Node(id) = msg.from {
                if !votes.contains_key(id.0) {
                    let v = vote_of(msg.message_type).unwrap();
                    let votes2 = votes.insert(id.0, v);
                    let s3 = s.with_phase(PhaseModel::Voting { last_prepare_time, votes: votes2 });
                    assert(s3.votes_satisfy(ok));
                    if s2.durable_decision == Some(Decision::Commit) {
                        assert(!has_abort_vote(votes2));
                        assert forall|k: u8| #[trigger] votes2.contains_key(k) implies votes2[k] == Vote::Commit && ok(k, Vote::Commit) by {
                            if votes2[k] != Vote::Commit {
                                assert(votes2.contains_key(k) && votes2[k] == Vote::Abort);
                            }
                        }
                        assert forall|i: int| 0 <= i < s.nodes.len() implies ok(#[trigger] s.nodes[i].0, Vote::Commit) by {
                            assert(votes2.contains_key(s.nodes[i].0));
                        }
                    }
                    if s2.durable_decision == Some(Decision::Abort) && s.durable_decision != Some(Decision::Abort) && s.abort_bias == 0 {
                        assert(has_abort_vote(votes2));
                        let k = choose|k: u8| #[trigger] votes2.contains_key(k) && votes2[k] == Vote::Abort;
                        assert(ok(k, Vote::Abort));
                    }
                }
            }
        },
        (MessageType::Ack, PhaseModel::AwaitingAcks { acks, .. }) => {
            if let ActorId::Node(id) = msg.from {
                let acks2 = acks.insert(id.0);
                assert(forall|k: u8| #[trigger] acks2.contains(k) ==> acked(k));
            }
        },
        _ => {},
    }
}

/// `messages_to(nodes, t, skip)` sends to every node whose number is not in
/// `skip`: it is not empty when some node's number is missing from `skip`.
pub proof fn lemma_messages_to_nonempty(nodes: Seq<NodeId>, t: MessageType, skip: Set<u8>, i: int)
    requires
        0 <= i < nodes.len(),
        !skip.contains(nodes[i].0),
    ensures
        messages_to(nodes, t, skip).len() > 0,
    decreases nodes.len(),
{
    if i < nodes.len() - 1 {
        lemma_messages_to_nonempty(nodes.drop_last(), t, skip, i);
        lemma_messages_to(nodes.drop_last(), t, skip);
    }
}

/// `messages_to(nodes, t, skip)` holds the message to every node whose
/// number is not in `skip`.
pub proof fn lemma_messages_to_contains(nodes: Seq<NodeId>, t: MessageType, skip: Set<u8>, i: int)
    requires
        0 <= i < nodes.len(),
        !skip.contains(nodes[i].0),
    ensures
        messages_to(nodes, t, skip).contains(coordinator_message(t, nodes[i])),
    decreases nodes.len(),
{
    let rest = messages_to(nodes.drop_last(), t, skip);
    if i < nodes.len() - 1 {
        lemma_messages_to_contains(nodes.drop_last(), t, skip, i);
        let j = choose|j: int| 0 <= j < rest.len() && rest[j] == coordinator_message(t, nodes[i]);
        if !skip.contains(nodes.last().0) {
            assert(rest.push(coordinator_message(t, nodes.last()))[j] == rest[j]);
        }
    } else {
        assert(rest.push(coordinator_message(t, nodes.last()))[rest.len() as int] == coordinator_message(t, nodes[i]));
    }
}

/// What a step on `msg` does to what the coordinator waits for: it never
/// leaves the coordinator `Decided`; in `Voting` it waits for no node it did
/// not wait for, nor for a managed node whose vote `msg` carries, unless it
/// just started and sent Prepare to every node; in `AwaitingAcks` likewise
/// for acknowledgements, unless it just decided and sent the decision to
/// every node it waits for.
pub proof fn lemma_step_awaits(s: CoordinatorModel, msg: Message, at: u64, spontaneous: bool, coin: bool)
    requires
        s.wf(),
        !(s.phase is Decided),
    ensures
        ({
            let (s2, out) = coordinator_step(s, msg, at, spontaneous, coin);
            &&& !(s2.phase is Decided)
            &&& (s2.phase matches PhaseModel::Voting { votes: votes2, .. } ==> {
                ||| (s.phase is Waiting && forall|i: int| 0 <= i < s.nodes.len()
                        ==> out.contains(#[trigger] coordinator_message(MessageType::Prepare, s.nodes[i])))
                ||| (s.phase matches PhaseModel::Voting { votes, .. } && forall|k: u8| !(#[trigger] votes2.contains_key(k))
                        ==> !votes.contains_key(k) && !(vote_of(msg.message_type) is Some && msg.from == ActorId::Node(NodeId(k))
                            && s.nodes.contains(NodeId(k))))
            })
            &&& (s2.phase matches PhaseModel::AwaitingAcks { decision: d2, acks: acks2, .. } ==> {
                ||| (forall|i: int| 0 <= i < s.nodes.len() && !acks2.contains(s.nodes[i].0)
                        ==> out.contains(#[trigger] coordinator_message(decision_message_type(d2), s.nodes[i])))
                ||| (s.phase matches PhaseModel::AwaitingAcks { decision, acks, .. } && d2 == decision
                        && forall|k: u8| !(#[trigger] acks2.contains(k))
                        ==> !acks.contains(k) && !(msg.message_type == MessageType::Ack && msg.from == ActorId::Node(NodeId(k))
                            && s.nodes.contains(NodeId(k))))
            })
        }),
{
    let (s1, out1) = coordinator_tick(s, at, spontaneous);
    let (s2, out2) = coordinator_receive(s1, msg, at, coin);
    let out = out1 + out2;
    assert forall|x: Message| out1.contains(x) implies out.contains(x) by {
        let j = choose|j: int| 0 <= j < out1.len() && out1[j] == x;
        assert(out[j] == x);
    }
    assert forall|x: Message| out2.contains(x) implies out.contains(x) by {
        let j = choose|j: int| 0 <= j < out2.len() && out2[j] == x;
        assert(out[out1.len() + j] == x);
    }
    if let PhaseModel::AwaitingAcks { decision: d2, acks: acks2, .. } = s2.phase {
        if !(s.phase is AwaitingAcks) {
            // The decision was broadcast in this step, by the tick or on receipt.
            assert forall|i: int| 0 <= i < s.nodes.len() && !acks2.contains(s.nodes[i].0)
                implies out.contains(#[trigger] coordinator_message(decision_message_type(d2), s.nodes[i])) by {
                lemma_messages_to_contains(s.nodes, decision_message_type(d2), Set::empty(), i);
                if s1.phase is AwaitingAcks {
                    assert(out1.contains(coordinator_message(decision_message_type(d2), s.nodes[i])));
                } else {
                    assert(out2.contains(coordinator_message(decision_message_type(d2), s.nodes[i])));
                }
            }
        }
    }
    if let PhaseModel::Voting { .. } = s2.phase {
        if s.phase is Waiting {
            assert forall|i: int| 0 <= i < s.nodes.len()
                implies out.contains(#[trigger] coordinator_message(MessageType::Prepare, s.nodes[i])) by {
                lemma_messages_to_contains(s.nodes, MessageType::Prepare, Set::empty(), i);
            }
        }
    }
}

/// A due tick sends to every node the coordinator then waits for: Prepare
/// to each unvoted node while `Voting`, the decision to each unacknowledged
/// node while `AwaitingAcks`; it never leaves the coordinator `Decided`.
pub proof fn lemma_due_tick_covers(c: CoordinatorModel, at: u64, spontaneous: bool)
    requires
        c.wf(),
        c.tick_due(at),
    ensures
        ({
            let (c2, out) = coordinator_tick(c, at, spontaneous);
            &&& !(c2.phase is Decided)
            &&& (c2.phase matches PhaseModel::Voting { votes: votes2, .. } ==> forall|i: int|
                0 <= i < c.nodes.len() && !votes2.contains_key(c.nodes[i].0)
                ==> out.contains(#[trigger] coordinator_message(MessageType::Prepare, c.nodes[i])))
            &&& (c2.phase matches PhaseModel::AwaitingAcks { decision: d2, acks: acks2, .. } ==> forall|i: int|
                0 <= i < c.nodes.len() && !acks2.contains(c.nodes[i].0)
                ==> out.contains(#[trigger] coordinator_message(decision_message_type(d2), c.nodes[i])))
        }),
{
    let (c2, out) = coordinator_tick(c, at, spontaneous);
    match c2.phase {
        PhaseModel::Voting { votes: votes2, .. } => {
            assert forall|i: int| 0 <= i < c.nodes.len() && !votes2.contains_key(c.nodes[i].0)
                implies out.contains(#[trigger] coordinator_message(MessageType::Prepare, c.nodes[i])) by {
                lemma_messages_to_contains(c.nodes, MessageType::Prepare, votes2.dom(), i);
            }
        },
        PhaseModel::AwaitingAcks { decision: d2, acks: acks2, .. } => {
            assert forall|i: int| 0 <= i < c.nodes.len() && !acks2.contains(c.nodes[i].0)
                implies out.contains(#[trigger] coordinator_message(decision_message_type(d2), c.nodes[i])) by {
                lemma_messages_to_contains(c.nodes, decision_message_type(d2), acks2, i);
            }
        },
        _ => {},
    }
}

/// A tick keeps some node unvoted while `Voting` and some node
/// unacknowledged while `AwaitingAcks`.
pub proof fn lemma_tick_incomplete(s: CoordinatorModel, at: u64, spontaneous: bool)
    requires
        s.incomplete(),
    ensures
        coordinator_tick(s, at, spontaneous).0.incomplete(),
{
}

/// Handling a message after the tick keeps some node unvoted while
/// `Voting` and some node unacknowledged while `AwaitingAcks`.
pub proof fn lemma_receive_incomplete(s: CoordinatorModel, msg: Message, at: u64, coin: bool)
    requires
        s.incomplete(),
    ensures
        coordinator_receive(s, msg, at, coin).0.incomplete(),
{
}

/// `msg` is a vote the coordinator counts: from a node it manages and has
/// no vote from yet, while `Voting`.
pub open spec fn counted_vote(s: CoordinatorModel, msg: Message) -> bool {
    &&& s.phase is Voting
    &&& vote_of(msg.message_type) is Some
    &&& msg.from matches ActorId::Node(id) && s.nodes.contains(id) && !s.phase->Voting_votes.contains_key(id.0)
}

/// The votes a coordinator in `Voting` holds once it has counted `msg`.
pub open spec fn votes_after(s: CoordinatorModel, msg: Message) -> Map<u8, Vote> {
    if counted_vote(s, msg) {
        s.phase->Voting_votes.insert(msg.from->Node_0.0, vote_of(msg.message_type).unwrap())
    } else {
        s.phase->Voting_votes
    }
}

/// Whether deciding from `s` flips the abort coin: while `Voting`, with no
/// Abort vote and a vote from every node it manages.
pub open spec fn decide_flips(s: CoordinatorModel) -> bool {
    s.phase matches PhaseModel::Voting { votes, .. } && !has_abort_vote(votes) && covers_all(s.nodes, votes.dom())
}

/// `g` with one more coin drawn, of chance `numerator/denominator`.
pub open spec fn with_coin(g: GeneratorModel, numerator: u32, denominator: u32) -> GeneratorModel {
    GeneratorModel { seed: g.seed, draws: g.draws.push(Draw::Ratio { numerator, denominator }) }
}

/// The coordinator's step on `msg` at `at` with its coins drawn from the
/// generator `g`: the next state, the messages sent, and the generator
/// after. The spontaneous-abort coin is drawn on the tick while `Voting`;
/// the abort coin when a counted vote completes unanimous Commit votes.
pub open spec fn coordinator_step_drawn(s: CoordinatorModel, g: GeneratorModel, msg: Message, at: u64) -> (CoordinatorModel, Seq<Message>, GeneratorModel) {
    let spontaneous_chance = capped(s.abort_bias, SPONTANEOUS_SCALE);
    let spontaneous = s.phase is Voting && ratio_outcome(g.seed, g.draws, spontaneous_chance, SPONTANEOUS_SCALE);
    let g1 = if s.phase is Voting { with_coin(g, spontaneous_chance, SPONTANEOUS_SCALE) } else { g };
    let (s1, out1) = coordinator_tick(s, at, spontaneous);
    let flips = counted_vote(s1, msg) && !has_abort_vote(votes_after(s1, msg))
        && covers_all(s1.nodes, votes_after(s1, msg).dom());
    let decide_chance = capped(s.abort_bias, PROBABILITY_SCALE);
    let coin = flips && ratio_outcome(g1.seed, g1.draws, decide_chance, PROBABILITY_SCALE);
    let g2 = if flips { with_coin(g1, decide_chance, PROBABILITY_SCALE) } else { g1 };
    let (s2, out2) = coordinator_receive(s1, msg, at, coin);
    (s2, out1 + out2, g2)
}

/// Validity (AC2) of every well-formed coordinator: a step that decides
/// Commit does so on the vote it counts, with a Commit vote then held from
/// exactly the nodes it manages, one each.
pub proof fn lemma_commit_is_unanimous(s: CoordinatorModel, msg: Message, at: u64, spontaneous: bool, coin: bool)
    requires
        s.wf(),
        s.decision() is None,
    ensures
        coordinator_step(s, msg, at, spontaneous, coin).0.decision() == Some(Decision::Commit) ==> {
            &&& counted_vote(s, msg)
            &&& forall|k: u8| #[trigger] votes_after(s, msg).contains_key(k) <==> s.nodes.contains(NodeId(k))
            &&& forall|k: u8| #[trigger] votes_after(s, msg).contains_key(k) ==> votes_after(s, msg)[k] == Vote::Commit
        },
{
    let (s2, out) = coordinator_step(s, msg, at, spontaneous, coin);
    if s2.decision() == Some(Decision::Commit) {
        let va = votes_after(s, msg);
        assert forall|k: u8| #[trigger] va.contains_key(k) implies va[k] == Vote::Commit by {
            if va[k] != Vote::Commit {
                assert(va.contains_key(k) && va[k] == Vote::Abort);
            }
        }
        assert forall|k: u8| #[trigger] va.contains_key(k) <==> s.nodes.contains(NodeId(k)) by {
            if s.nodes.contains(NodeId(k)) {
                let i = choose|i: int| 0 <= i < s.nodes.len() && s.nodes[i] == NodeId(k);
                assert(va.dom().contains(s.nodes[i].0));
            }
            if va.contains_key(k) && k != msg.from->Node_0.0 {
                assert(s.phase->Voting_votes.contains_key(k));
            }
        }
    }
}

/// With no abort bias a coordinator decides by the votes alone: a step from
/// `Voting` decides Commit exactly when it counts a vote and every node it
/// manages has then voted, none Abort; and Abort exactly when it counts a
/// vote and some vote it then holds is Abort. A step that counts no vote
/// decides nothing.
pub proof fn lemma_zero_bias_decides_by_votes(s: CoordinatorModel, msg: Message, at: u64, spontaneous: bool, coin: bool)
    requires
        s.wf(),
        s.abort_bias == 0,
        s.phase is Voting,
        s.spontaneous_coin_possible(spontaneous),
        s.decide_coin_possible(coin),
    ensures
        ({
            let d = coordinator_step(s, msg, at, spontaneous, coin).0.decision();
            let va = votes_after(s, msg);
            &&& (d == Some(Decision::Commit) <==> counted_vote(s, msg) && covers_all(s.nodes, va.dom()) && !has_abort_vote(va))
            &&& (d == Some(Decision::Abort) <==> counted_vote(s, msg) && has_abort_vote(va))
        }),
{
}

/// With no abort bias, neither of the coordinator's coins can come up: it
/// never aborts spontaneously nor despite unanimous Commit votes, so its
/// steps are determined by the messages it receives.
pub proof fn lemma_zero_bias_is_deterministic(s: CoordinatorModel, spontaneous: bool, coin: bool)
    requires
        s.abort_bias == 0,
        s.spontaneous_coin_possible(spontaneous),
        s.decide_coin_possible(coin),
    ensures
        !spontaneous,
        !coin,
{
}

/// A quiescent coordinator (`Waiting` or `Done`) stays silent on tick: its
/// tick changes nothing and sends nothing.
pub proof fn lemma_quiescent_tick_is_silent(s: CoordinatorModel, at: u64, spontaneous: bool)
    requires
        s.phase is Waiting || s.phase is Done,
    ensures
        coordinator_tick(s, at, spontaneous) == (s, Seq::<Message>::empty()),
{
}

/// Recovery sets up an immediate resend: with a durable decision, the next
/// tick, whenever it comes, broadcasts it to every node; without one, the
/// next tick, whenever it comes, retransmits Prepare to every node, unless
/// the spontaneous-abort coin comes up.
pub proof fn lemma_recovery_resends_at_once(s: CoordinatorModel, at: u64, later: u64)
    requires
        s.wf(),
    ensures
        ({
            let r = coordinator_recovered(s, at);
            match s.durable_decision {
                Some(d) => coordinator_tick(r, later, false).1 == messages_to(s.nodes, decision_message_type(d), Set::empty())
                    && coordinator_tick(r, later, true).1 == messages_to(s.nodes, decision_message_type(d), Set::empty()),
                None => coordinator_tick(r, later, false).1 == messages_to(s.nodes, MessageType::Prepare, Set::empty()),
            }
        }),
{
    assert(Map::<u8, Vote>::empty().dom() =~= Set::<u8>::empty());
}

impl Coordinator {
    /// Create a coordinator managing the given participant `nodes`, with a
    /// seed for its coins, the abort bias in millionths, and the number of
    /// ticks before it retransmits Prepare or the decision.
    pub fn new(nodes: Vec<NodeId>, rng_seed: u64, abort_bias: u32, retransmit_timeout: u64) -> (c: Self)
        ensures
            c@ == (CoordinatorModel {
                nodes: nodes@,
                phase: PhaseModel::Waiting,
                durable_decision: None,
                abort_bias,
                retransmit_timeout,
                resend_prepare: false,
            }),
            c@.wf(),
            c.generator() == (GeneratorModel { seed: rng_seed, draws: Seq::empty() }),
    {
        Coordinator {
            nodes,
            phase: CoordinatorPhase::Waiting,
            durable_state: DurableState { decision: None },
            config: Config { rng: seeded_rng(rng_seed), abort_bias, retransmit_timeout },
            resend_prepare: false,
        }
    }

    /// The generator behind this coordinator's coins.
    pub closed spec fn generator(&self) -> GeneratorModel {
        self.config.rng@
    }

    /// Current protocol phase.
    pub fn phase(&self) -> (phase: &CoordinatorPhase)
        ensures
            phase@ == self@.phase,
    {
        &self.phase
    }

    /// The decision this coordinator reached, if any.
    pub fn decision(&self) -> (d: Option<Decision>)
        ensures
            d == self@.decision(),
    {
        match &self.phase {
            CoordinatorPhase::Decided(d) => Some(*d),
            CoordinatorPhase::Done(d) => Some(*d),
            CoordinatorPhase::AwaitingAcks { decision, .. } => Some(*decision),
            _ => None,
        }
    }

    /// The participant node IDs this coordinator manages.
    pub fn nodes(&self) -> (nodes: &[NodeId])
        ensures
            nodes@ == self@.nodes,
    {
        self.nodes.as_slice()
    }

    /// Messages of type `t` to every node whose number is not in `skip`.
    fn messages_to(&self, t: MessageType, skip: Ghost<Set<u8>>, skip_votes: Option<&BTreeMap<u8, Vote>>, skip_acks: Option<&BTreeSet<u8>>) -> (out: Vec<Message>)
        requires
            skip_votes.is_none() || skip_acks.is_none(),
            skip_votes.is_some() ==> skip@ == skip_votes.unwrap()@.dom(),
            skip_acks.is_some() ==> skip@ == skip_acks.unwrap()@,
            skip_votes.is_none() && skip_acks.is_none() ==> skip@ == Set::<u8>::empty(),
        ensures
            out@ == messages_to(self@.nodes, t, skip@),
    {
        let mut out: Vec<Message> = Vec::new();
        let mut i: usize = 0;
        while i < self.nodes.len()
            invariant
                i <= self.nodes@.len(),
                out@ == messages_to(self.nodes@.take(i as int), t, skip@),
                skip_votes.is_some() ==> skip@ == skip_votes.unwrap()@.dom(),
                skip_acks.is_some() ==> skip@ == skip_acks.unwrap()@,
                skip_votes.is_none() && skip_acks.is_none() ==> skip@ == Set::<u8>::empty(),
                skip_votes.is_none() || skip_acks.is_none(),
            decreases self.nodes@.len() - i,
        {
            let node = self.nodes[i];
            let skipped = match skip_votes {
                Some(votes) => votes.contains_key(&node.0),
                None => match skip_acks {
                    Some(acks) => acks.contains(&node.0),
                    None => false,
                },
            };
            assert(self.nodes@.take(i + 1).drop_last() == self.nodes@.take(i as int));
            if !skipped {
                out.push(Message { message_type: t, from: ActorId::Coordinator, to: ActorId::Node(node) });
            }
            i = i + 1;
        }
        assert(self.nodes@.take(i as int) == self.nodes@);
        out
    }

    /// Whether `node` is one of the nodes this coordinator manages.
    fn manages(&self, node: NodeId) -> (b: bool)
        ensures
            b == self@.nodes.contains(node),
    {
        let mut i: usize = 0;
        while i < self.nodes.len()
            invariant
                i <= self.nodes@.len(),
                forall|j: int| 0 <= j < i ==> self.nodes@[j] != node,
            decreases self.nodes@.len() - i,
        {
            if self.nodes[i].0 == node.0 {
                assert(self.nodes@[i as int] == node);
                return true;
            }
            i = i + 1;
        }
        false
    }

    /// Whether every node this coordinator manages has its number among the
    /// keys of `votes`, or else in `acks`.
    fn covers_all(&self, votes: Option<&BTreeMap<u8, Vote>>, acks: Option<&BTreeSet<u8>>) -> (b: bool)
        requires
            votes.is_some() != acks.is_some(),
        ensures
            votes.is_some() ==> b == covers_all(self@.nodes, votes.unwrap()@.dom()),
            acks.is_some() ==> b == covers_all(self@.nodes, acks.unwrap()@),
    {
        let mut i: usize = 0;
        while i < self.nodes.len()
            invariant
                i <= self.nodes@.len(),
                votes.is_some() != acks.is_some(),
                votes.is_some() ==> forall|j: int| 0 <= j < i ==> votes.unwrap()@.dom().contains(#[trigger] self.nodes@[j].0),
                acks.is_some() ==> forall|j: int| 0 <= j < i ==> acks.unwrap()@.contains(#[trigger] self.nodes@[j].0),
            decreases self.nodes@.len() - i,
        {
            let k = self.nodes[i].0;
            let present = match votes {
                Some(v) => v.contains_key(&k),
                None => match acks {
                    Some(a) => a.contains(&k),
                    None => false,
                },
            };
            if !present {
                return false;
            }
            i = i + 1;
        }
        true
    }

    /// From `Voting`: decide Abort on any Abort vote; once every managed
    /// node has voted and all voted Commit, decide Commit unless the abort
    /// coin comes up.
    fn try_decide(&mut self) -> (coin: Ghost<bool>)
        ensures
            old(self)@.decide_coin_possible(coin@),
            final(self)@ == try_decide(old(self)@, coin@),
            if decide_flips(old(self)@) {
                drew_coin(
                    old(self).generator(),
                    final(self).generator(),
                    capped(old(self)@.abort_bias, PROBABILITY_SCALE),
                    PROBABILITY_SCALE,
                    coin@,
                )
            } else {
                final(self).generator() == old(self).generator()
            },
    {
        let ghost coin = capped(self.config.abort_bias, PROBABILITY_SCALE) == PROBABILITY_SCALE;
        let (has_abort, all_in) = match &self.phase {
            CoordinatorPhase::Voting { votes, .. } => {
                let mut has_abort = false;
                let ghost items = spec_btree_map_iter(votes).remaining();
                for kv in it: votes.iter()
                    invariant
                        it.seq() == items,
                        has_abort <==> exists|j: int| 0 <= j < it.index() && *items[j].1 == Vote::Abort,
                {
                    if *kv.1 == Vote::Abort {
                        has_abort = true;
                    }
                }
                proof {
                    if has_abort {
                        let j = choose|j: int| 0 <= j < items.len() && *items[j].1 == Vote::Abort;
                        assert(votes@.contains_key(*items[j].0));
                    } else {
                        assert forall|k: u8| #[trigger] votes@.contains_key(k) implies votes@[k] != Vote::Abort by {
                            assert(items.contains((&k, &votes@[k])));
                        }
                    }
                }
                (has_abort, self.covers_all(Some(votes), None))
            },
            _ => {
                return Ghost(coin);
            },
        };
        if has_abort {
            self.phase = CoordinatorPhase::Decided(Decision::Abort);
        } else if all_in {
            let abort = flip(&mut self.config.rng, self.config.abort_bias, PROBABILITY_SCALE);
            proof {
                coin = abort;
            }
            let decision = if abort { Decision::Abort } else { Decision::Commit };
            self.phase = CoordinatorPhase::Decided(decision);
        }
        Ghost(coin)
    }

    /// From `Decided`: make the decision durable, broadcast it to all
    /// participants, and move to `AwaitingAcks`. Nothing in any other phase.
    fn try_send_decision(&mut self, at_time: u64) -> (out: Vec<Message>)
        ensures
            (final(self)@, out@) == send_decision(old(self)@, at_time),
            final(self).generator() == old(self).generator(),
    {
        let decision = match self.phase {
            CoordinatorPhase::Decided(d) => d,
            _ => {
                return Vec::new();
            },
        };
        self.durable_state.decision = Some(decision);
        self.resend_prepare = false;
        self.phase = CoordinatorPhase::AwaitingAcks {
            decision,
            last_decision_time: at_time,
            acks: BTreeSet::new(),
        };
        self.messages_to(decision_type(decision), Ghost(Set::empty()), None, None)
    }

    /// A tick whose spontaneous-abort coin did not come up: retransmit
    /// Prepare to unvoted nodes, or the decision to unacked nodes, once the
    /// timeout has elapsed; broadcast a decision not yet sent.
    fn tick_without_abort(&mut self, at_time: u64) -> (out: Vec<Message>)
        ensures
            (final(self)@, out@) == coordinator_tick(old(self)@, at_time, false),
            final(self).generator() == old(self).generator(),
    {
        let timeout = self.config.retransmit_timeout;
        let prepare_due = match &self.phase {
            CoordinatorPhase::Voting { last_prepare_time, .. } => {
                Some(self.resend_prepare || at_time.saturating_sub(*last_prepare_time) >= timeout)
            },
            _ => None,
        };
        let decision_due = match &self.phase {
            CoordinatorPhase::AwaitingAcks { decision, last_decision_time, .. } => {
                if at_time.saturating_sub(*last_decision_time) >= timeout { Some(*decision) } else { None }
            },
            _ => None,
        };
        if let Some(due) = prepare_due {
            if !due {
                return Vec::new();
            }
            // Voting: retransmit Prepare to nodes with no recorded vote.
            let out = match &self.phase {
                CoordinatorPhase::Voting { votes, .. } => self.messages_to(MessageType::Prepare, Ghost(votes@.dom()), Some(votes), None),
                _ => Vec::new(),
            };
            if let CoordinatorPhase::Voting { last_prepare_time, .. } = &mut self.phase {
                *last_prepare_time = at_time;
            }
            self.resend_prepare = false;
            out
        } else if let CoordinatorPhase::Decided(_) = self.phase {
            self.try_send_decision(at_time)
        } else if let Some(decision) = decision_due {
            // AwaitingAcks: retransmit the decision to unacked nodes.
            let out = match &self.phase {
                CoordinatorPhase::AwaitingAcks { acks, .. } => self.messages_to(decision_type(decision), Ghost(acks@), None, Some(acks)),
                _ => Vec::new(),
            };
            if let CoordinatorPhase::AwaitingAcks { last_decision_time, .. } = &mut self.phase {
                *last_decision_time = at_time;
            }
            out
        } else {
            Vec::new()
        }
    }
}

impl StateMachine for Coordinator {
    /// Tick at `at_time`, then handle `msg`: start the transaction, record a
    /// vote (deciding and broadcasting when possible), or record an Ack
    /// (completing once every node acknowledged). Votes and Acks from nodes
    /// this coordinator does not manage, and anything else, are ignored.
    fn on_message(&mut self, msg: &Message, at_time: u64) -> (outgoing: Vec<Message>)
        ensures
            exists|spontaneous: bool, coin: bool|
                #![trigger old(self)@.spontaneous_coin_possible(spontaneous), old(self)@.decide_coin_possible(coin)]
                old(self)@.spontaneous_coin_possible(spontaneous) && old(self)@.decide_coin_possible(coin)
                    && (final(self)@, outgoing@) == coordinator_step(old(self)@, *msg, at_time, spontaneous, coin),
            old(self)@.wf() ==> final(self)@.wf(),
            old(self)@.wf() && old(self)@.durable_decision is Some ==> final(self)@.durable_decision == old(self)@.durable_decision,
            (final(self)@, outgoing@, final(self).generator())
                == coordinator_step_drawn(old(self)@, old(self).generator(), *msg, at_time),
    {
        let mut outgoing = self.tick(at_time);
        let ghost s1 = self@;
        let ghost spontaneous = choose|c: bool| old(self)@.spontaneous_coin_possible(c)
            && (s1, outgoing@) == coordinator_tick(old(self)@, at_time, c);
        let ghost mut coin = capped(self.config.abort_bias, PROBABILITY_SCALE) == PROBABILITY_SCALE;
        match msg.message_type {
            MessageType::StartTransaction => {
                if let CoordinatorPhase::Waiting = self.phase {
                    self.phase = CoordinatorPhase::Voting { last_prepare_time: at_time, votes: BTreeMap::new() };
                    let mut prepares = self.messages_to(MessageType::Prepare, Ghost(Set::empty()), None, None);
                    outgoing.append(&mut prepares);
                }
            },
            MessageType::VoteCommit | MessageType::VoteAbort => {
                if let CoordinatorPhase::Voting { .. } = self.phase {
                    if let ActorId::Node(node) = msg.from {
                        let vote = if msg.message_type == MessageType::VoteCommit { Vote::Commit } else { Vote::Abort };
                        let mut fresh = false;
                        let managed = self.manages(node);
                        if let CoordinatorPhase::Voting { votes, .. } = &mut self.phase {
                            if managed && !votes.contains_key(&node.0) {
                                votes.insert(node.0, vote);
                                fresh = true;
                            }
                        }
                        if fresh {
                            let c = self.try_decide();
                            proof {
                                coin = c@;
                            }
                            let mut decision_messages = self.try_send_decision(at_time);
                            outgoing.append(&mut decision_messages);
                        }
                    }
                }
            },
            MessageType::Ack => {
                let mut done: Option<Decision> = None;
                if let ActorId::Node(node) = msg.from {
                    if self.manages(node) {
                        if let CoordinatorPhase::AwaitingAcks { acks, .. } = &mut self.phase {
                            acks.insert(node.0);
                        }
                        done = match &self.phase {
                            CoordinatorPhase::AwaitingAcks { acks, decision, .. } => {
                                if self.covers_all(None, Some(acks)) { Some(*decision) } else { None }
                            },
                            _ => None,
                        };
                    }
                }
                if let Some(decision) = done {
                    self.phase = CoordinatorPhase::Done(decision);
                }
            },
            _ => {},
        }
        proof {
            assert(old(self)@.decide_coin_possible(coin));
            assert((self@, outgoing@) == coordinator_step(old(self)@, *msg, at_time, spontaneous, coin));
            if old(self)@.wf() {
                let ok = |k: u8, v: Vote| true;
                let acked = |k: u8| true;
                lemma_tick_safe(old(self)@, at_time, spontaneous, ok, acked);
                lemma_receive_safe(s1, *msg, at_time, coin, ok, acked);
            }
        }
        outgoing
    }

    /// Flip the spontaneous-abort coin while `Voting`; retransmit Prepare to
    /// unvoted nodes, or the decision to unacked nodes, once the timeout has
    /// elapsed; broadcast a decision not yet sent.
    fn tick(&mut self, at_time: u64) -> (outgoing: Vec<Message>)
        ensures
            exists|spontaneous: bool| #[trigger] old(self)@.spontaneous_coin_possible(spontaneous)
                && (final(self)@, outgoing@) == coordinator_tick(old(self)@, at_time, spontaneous)
                && (old(self)@.phase is Voting ==> drew_coin(
                    old(self).generator(),
                    final(self).generator(),
                    capped(old(self)@.abort_bias, SPONTANEOUS_SCALE),
                    SPONTANEOUS_SCALE,
                    spontaneous,
                )),
            !(old(self)@.phase is Voting) ==> final(self).generator() == old(self).generator(),
            old(self)@.wf() ==> final(self)@.wf(),
    {
        let ghost mut spontaneous = capped(self.config.abort_bias, SPONTANEOUS_SCALE) == SPONTANEOUS_SCALE;
        let mut abort = false;
        if let CoordinatorPhase::Voting { .. } = self.phase {
            abort = flip(&mut self.config.rng, self.config.abort_bias, SPONTANEOUS_SCALE);
            proof {
                spontaneous = abort;
            }
        }
        let outgoing = if abort {
            self.phase = CoordinatorPhase::Decided(Decision::Abort);
            self.try_send_decision(at_time)
        } else {
            self.tick_without_abort(at_time)
        };
        proof {
            assert(old(self)@.spontaneous_coin_possible(spontaneous));
            if old(self)@.wf() {
                lemma_tick_safe(old(self)@, at_time, spontaneous, |k: u8, v: Vote| true, |k: u8| true);
            }
        }
        outgoing
    }

    /// Quiescent in `Waiting` (protocol not started) or `Done` (protocol
    /// complete); every other phase may still send on tick.
    fn is_quiescent(&self) -> (q: bool)
        ensures
            q == (self@.phase is Waiting || self@.phase is Done),
    {
        match self.phase {
            CoordinatorPhase::Waiting | CoordinatorPhase::Done(_) => true,
            _ => false,
        }
    }

    /// Restore from durable state after a crash: a durable decision resets
    /// to `Decided` (broadcast again on the next tick); otherwise restart
    /// `Voting` with no votes, backdated by the timeout, and mark Prepare as
    /// due so that the next tick retransmits it at once.
    fn recover(&mut self, at_time: u64)
        ensures
            final(self)@ == coordinator_recovered(old(self)@, at_time),
            old(self)@.wf() ==> final(self)@.wf(),
            final(self).generator() == old(self).generator(),
    {
        match self.durable_state.decision {
            Some(d) => {
                self.phase = CoordinatorPhase::Decided(d);
                self.resend_prepare = false;
            },
            None => {
                self.phase = CoordinatorPhase::Voting {
                    last_prepare_time: at_time.saturating_sub(self.config.retransmit_timeout),
                    votes: BTreeMap::new(),
                };
                self.resend_prepare = true;
            },
        }
    }
}

/// Commit on unanimity, whatever the bias: a Commit vote that completes
/// Commit votes from every node the coordinator manages decides Commit
/// unless the abort coin comes up, the coin of chance
/// `min(abort_bias, scale) / scale` drawn after the tick's spontaneous-abort
/// coin; it decides Abort exactly when that coin comes up. The decision is
/// made durable and sent to every node.
pub proof fn lemma_unanimous_commit_follows_coin(s: CoordinatorModel, g: GeneratorModel, msg: Message, at: u64, id: NodeId)
    requires
        s.phase is Voting,
        msg.message_type == MessageType::VoteCommit,
        msg.from == ActorId::Node(id),
        s.nodes.contains(id),
        !s.phase->Voting_votes.contains_key(id.0),
        forall|k: u8| #[trigger] s.phase->Voting_votes.contains_key(k) ==> s.phase->Voting_votes[k] == Vote::Commit,
        forall|i: int| 0 <= i < s.nodes.len() && s.nodes[i] != id ==> s.phase->Voting_votes.contains_key(#[trigger] s.nodes[i].0),
    ensures
        ({
            let spontaneous_chance = capped(s.abort_bias, SPONTANEOUS_SCALE);
            let spontaneous = ratio_outcome(g.seed, g.draws, spontaneous_chance, SPONTANEOUS_SCALE);
            let draws = g.draws.push(Draw::Ratio { numerator: spontaneous_chance, denominator: SPONTANEOUS_SCALE });
            let coin = ratio_outcome(g.seed, draws, capped(s.abort_bias, PROBABILITY_SCALE), PROBABILITY_SCALE);
            let (s2, out, _) = coordinator_step_drawn(s, g, msg, at);
            let d = if coin { Decision::Abort } else { Decision::Commit };
            !spontaneous ==> {
                &&& s2.phase matches PhaseModel::AwaitingAcks { decision, .. } && decision == d
                &&& s2.durable_decision == Some(d)
                &&& (d == Decision::Commit <==> !coin)
                &&& forall|i: int| 0 <= i < s.nodes.len()
                    ==> out.contains(#[trigger] coordinator_message(decision_message_type(d), s.nodes[i]))
            }
        }),
{
    let spontaneous_chance = capped(s.abort_bias, SPONTANEOUS_SCALE);
    let spontaneous = ratio_outcome(g.seed, g.draws, spontaneous_chance, SPONTANEOUS_SCALE);
    if !spontaneous {
        let (s1, out1) = coordinator_tick(s, at, false);
        let votes = s.phase->Voting_votes;
        assert(s1.phase is Voting && s1.phase->Voting_votes == votes);
        assert(s1.nodes == s.nodes);
        assert(counted_vote(s1, msg));
        let va = votes_after(s1, msg);
        assert(va == votes.insert(id.0, Vote::Commit));
        assert(!has_abort_vote(va));
        assert forall|i: int| 0 <= i < s.nodes.len() implies va.dom().contains(#[trigger] s.nodes[i].0) by {
            if s.nodes[i] != id {
                assert(votes.contains_key(s.nodes[i].0));
            }
        }
        let (s2, out, _) = coordinator_step_drawn(s, g, msg, at);
        let draws = g.draws.push(Draw::Ratio { numerator: spontaneous_chance, denominator: SPONTANEOUS_SCALE });
        let coin = ratio_outcome(g.seed, draws, capped(s.abort_bias, PROBABILITY_SCALE), PROBABILITY_SCALE);
        let d = if coin { Decision::Abort } else { Decision::Commit };
        let (s3, out2) = coordinator_receive(s1, msg, at, coin);
        assert(out == out1 + out2);
        assert forall|i: int| 0 <= i < s.nodes.len()
            implies out.contains(#[trigger] coordinator_message(decision_message_type(d), s.nodes[i])) by {
            lemma_messages_to_contains(s.nodes, decision_message_type(d), Set::empty(), i);
            let m = coordinator_message(decision_message_type(d), s.nodes[i]);
            let j = choose|j: int| 0 <= j < out2.len() && out2[j] == m;
            assert(out[out1.len() + j] == m);
        }
    }
}

/// An Abort vote vetoes, whatever the bias: a counted Abort vote from a
/// node the coordinator manages, with no spontaneous abort on the tick,
/// decides Abort, makes it durable, and sends it to every node; no abort
/// coin is drawn for it.
pub proof fn lemma_abort_vote_decides_abort(s: CoordinatorModel, g: GeneratorModel, msg: Message, at: u64, id: NodeId)
    requires
        s.phase is Voting,
        msg.message_type == MessageType::VoteAbort,
        msg.from == ActorId::Node(id),
        s.nodes.contains(id),
        !s.phase->Voting_votes.contains_key(id.0),
    ensures
        ({
            let spontaneous_chance = capped(s.abort_bias, SPONTANEOUS_SCALE);
            let spontaneous = ratio_outcome(g.seed, g.draws, spontaneous_chance, SPONTANEOUS_SCALE);
            let (s2, out, g2) = coordinator_step_drawn(s, g, msg, at);
            !spontaneous ==> {
                &&& s2.phase matches PhaseModel::AwaitingAcks { decision, .. } && decision == Decision::Abort
                &&& s2.durable_decision == Some(Decision::Abort)
                &&& g2 == with_coin(g, spontaneous_chance, SPONTANEOUS_SCALE)
                &&& forall|i: int| 0 <= i < s.nodes.len()
                    ==> out.contains(#[trigger] coordinator_message(MessageType::DecisionAbort, s.nodes[i]))
            }
        }),
{
    let spontaneous_chance = capped(s.abort_bias, SPONTANEOUS_SCALE);
    let spontaneous = ratio_outcome(g.seed, g.draws, spontaneous_chance, SPONTANEOUS_SCALE);
    if !spontaneous {
        let (s1, out1) = coordinator_tick(s, at, false);
        let votes = s.phase->Voting_votes;
        assert(s1.phase is Voting && s1.phase->Voting_votes == votes);
        assert(counted_vote(s1, msg));
        let va = votes_after(s1, msg);
        assert(va.contains_key(id.0) && va[id.0] == Vote::Abort);
        assert(has_abort_vote(va));
        let (s2, out, _) = coordinator_step_drawn(s, g, msg, at);
        let (s3, out2) = coordinator_receive(s1, msg, at, false);
        assert(out == out1 + out2);
        assert(decision_message_type(Decision::Abort) == MessageType::DecisionAbort);
        assert forall|i: int| 0 <= i < s.nodes.len()
            implies out.contains(#[trigger] coordinator_message(MessageType::DecisionAbort, s.nodes[i])) by {
            lemma_messages_to_contains(s.nodes, MessageType::DecisionAbort, Set::empty(), i);
            let m = coordinator_message(MessageType::DecisionAbort, s.nodes[i]);
            let j = choose|j: int| 0 <= j < out2.len() && out2[j] == m;
            assert(out[out1.len() + j] == m);
        }
    }
}

} // verus!
