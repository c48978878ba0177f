//! The 2PC participant state machine.
//!
//! ```text
//! Waiting --Prepare--> Voted(v)
//! Waiting --Decision(X)--> Decided { vote: None, decision: X }
//! Voted(v) --Decision(X)--> Decided { vote: Some(v), decision: X }
//! ```
//!
//! A participant can receive the coordinator's decision before it has voted,
//! for example when another participant's abort caused an early decision.
//!
//! On [`recover`](StateMachine::recover) the participant restores its phase
//! from its durable state: a durable decision gives `Decided`, a durable vote
//! alone gives `Voted`, neither gives `Waiting`.  Duplicate Prepare in `Voted`
//! re-sends the vote already cast; duplicate Decision in `Decided` re-sends Ack.
use crate::rng::{
    capped, coin_outcome_possible, drew_coin, flip, ratio_outcome, seeded_rng, Draw, GeneratorModel, PROBABILITY_SCALE,
};
use crate::state_machine::StateMachine;
use crate::types::{
    decision_message_type, decision_of, vote_message_type, vote_of, vote_type, ActorId, Decision, Message, MessageType, NodeId, Vote,
};
use crate::rng::SeededRng;
use vstd::prelude::*;

verus! {

/// The participant's phase in the protocol.
#[derive(Debug, Clone, Copy, PartialEq, Eq, Structural)]
pub enum ParticipantPhase {
    /// Waiting for a `Prepare` message from the coordinator.
    Waiting,
    /// Voted; waiting for the coordinator's final decision.
    Voted(Vote),
    /// Received the coordinator's decision. `vote` is `None` if the decision
    /// arrived before Prepare (the participant never voted).
    Decided { vote: Option<Vote>, decision: Decision },
}

/// Simulation configuration.
struct Config {
    rng: SeededRng,
    /// Probability, in millionths, that the participant votes Abort.
    abort_bias: u32,
}

/// Durable state that survives crashes: written before sending messages,
/// read on recovery.
struct DurableState {
    vote: Option<Vote>,
    decision: Option<Decision>,
}

/// A participant in the two-phase commit protocol.
pub struct Participant {
    id: NodeId,
    phase: ParticipantPhase,
    durable_state: DurableState,
    config: Config,
}

/// The abstract state of a participant.
pub struct ParticipantModel {
    pub id: NodeId,
    pub phase: ParticipantPhase,
    pub durable_vote: Option<Vote>,
    pub durable_decision: Option<Decision>,
    pub abort_bias: u32,
}

impl View for Participant {
    type V = ParticipantModel;

    closed spec fn view(&self) -> ParticipantModel {
        ParticipantModel {
            id: self.id,
            phase: self.phase,
            durable_vote: self.durable_state.vote,
            durable_decision: self.durable_state.decision,
            abort_bias: self.config.abort_bias,
        }
    }
}

/// The phase that recovery restores from durable state.
pub open spec fn recovered_phase(vote: Option<Vote>, decision: Option<Decision>) -> ParticipantPhase {
    match decision {
        Some(d) => ParticipantPhase::Decided { vote, decision: d },
        None => match vote {
            Some(v) => ParticipantPhase::Voted(v),
            None => ParticipantPhase::Waiting,
        },
    }
}

impl ParticipantModel {
    /// The phase always agrees with durable state, so a crash loses nothing
    /// that recovery cannot restore.
    pub open spec fn wf(self) -> bool {
        self.phase == recovered_phase(self.durable_vote, self.durable_decision)
    }

    /// The vote this participant cast, if any.
    pub open spec fn vote(self) -> Option<Vote> {
        match self.phase {
            ParticipantPhase::Voted(v) => Some(v),
            ParticipantPhase::Decided { vote, .. } => vote,
            ParticipantPhase::Waiting => None,
        }
    }

    /// The decision this participant received, if any.
    pub open spec fn decision(self) -> Option<Decision> {
        match self.phase {
            ParticipantPhase::Decided { decision, .. } => Some(decision),
            _ => None,
        }
    }

    /// The vote this participant casts on its first Prepare, given the
    /// outcome of its abort coin.
    pub open spec fn vote_for_coin(abort_coin: bool) -> Vote {
        if abort_coin { Vote::Abort } else { Vote::Commit }
    }

    /// Whether `abort_coin` is an outcome this participant's coin can have.
    pub open spec fn coin_possible(self, abort_coin: bool) -> bool {
        coin_outcome_possible(capped(self.abort_bias, PROBABILITY_SCALE), PROBABILITY_SCALE, abort_coin)
    }
}

/// The vote message participant `id` sends for vote `v`.
pub open spec fn vote_message(id: NodeId, v: Vote) -> Message {
    Message { message_type: vote_message_type(v), from: ActorId::Node(id), to: ActorId::Coordinator }
}

/// The Ack message participant `id` sends.
pub open spec fn ack_message(id: NodeId) -> Message {
    Message { message_type: MessageType::Ack, from: ActorId::Node(id), to: ActorId::Coordinator }
}

/// What a participant in state `s` does on `msg`, given the outcome of its
/// abort coin (flipped only on the first Prepare): its next state and the
/// messages it sends.
pub open spec fn participant_step(s: ParticipantModel, msg: Message, abort_coin: bool) -> (ParticipantModel, Seq<Message>) {
    match (msg.message_type, s.phase) {
        (MessageType::Prepare, ParticipantPhase::Waiting) => {
            let v = ParticipantModel::vote_for_coin(abort_coin);
            (ParticipantModel { phase: ParticipantPhase::Voted(v), durable_vote: Some(v), ..s }, seq![vote_message(s.id, v)])
        },
        (MessageType::Prepare, ParticipantPhase::Voted(v)) => (s, seq![vote_message(s.id, v)]),
        (MessageType::DecisionCommit, ParticipantPhase::Decided { .. })
        | (MessageType::DecisionAbort, ParticipantPhase::Decided { .. }) => (s, seq![ack_message(s.id)]),
        (MessageType::DecisionCommit, _) | (MessageType::DecisionAbort, _) => {
            let d = decision_of(msg.message_type).unwrap();
            (
                ParticipantModel {
                    phase: ParticipantPhase::Decided { vote: s.vote(), decision: d },
                    durable_decision: Some(d),
                    ..s
                },
                seq![ack_message(s.id)],
            )
        },
        _ => (s, seq![]),
    }
}

/// The participant's step on `msg` with its coin drawn from the generator
/// `g`: the next state, the messages sent, and the generator after. The
/// coin is drawn on the first Prepare.
pub open spec fn participant_step_drawn(s: ParticipantModel, g: GeneratorModel, msg: Message) -> (ParticipantModel, Seq<Message>, GeneratorModel) {
    let flips = msg.message_type == MessageType::Prepare && s.phase is Waiting;
    let chance = capped(s.abort_bias, PROBABILITY_SCALE);
    let coin = flips && ratio_outcome(g.seed, g.draws, chance, PROBABILITY_SCALE);
    let g2 = if flips {
        GeneratorModel { seed: g.seed, draws: g.draws.push(Draw::Ratio { numerator: chance, denominator: PROBABILITY_SCALE }) }
    } else {
        g
    };
    let (s2, out) = participant_step(s, msg, coin);
    (s2, out, g2)
}

/// What a participant's step keeps: well-formedness, its identity and
/// bias; a durable vote or decision, once made, never changes; a new durable
/// decision is the one the message carried. It sends at most one message,
/// from itself to the coordinator, carrying no decision; a vote it sends is
/// its durable vote, and it acknowledges only once its decision is durable.
pub proof fn lemma_participant_step_safe(s: ParticipantModel, msg: Message, abort_coin: bool)
    requires
        s.wf(),
    ensures
        ({
            let (s2, out) = participant_step(s, msg, abort_coin);
            &&& s2.wf()
            &&& s2.id == s.id
            &&& s2.abort_bias == s.abort_bias
            &&& (s.durable_vote is Some ==> s2.durable_vote == s.durable_vote)
            &&& (s.durable_decision is Some ==> s2.durable_decision == s.durable_decision)
            &&& (s2.durable_decision != s.durable_decision ==> s2.durable_decision == decision_of(msg.message_type))
            &&& out.len() <= 1
            &&& forall|i: int| 0 <= i < out.len() ==> {
                &&& (#[trigger] out[i]).from == ActorId::Node(s.id)
                &&& out[i].to == ActorId::Coordinator
                &&& decision_of(out[i].message_type).is_none()
                &&& match vote_of(out[i].message_type) {
                    Some(v) => s2.durable_vote == Some(v),
                    None => true,
                }
                &&& (out[i].message_type == MessageType::Ack ==> s2.durable_decision is Some)
            }
        }),
{
}

impl Participant {
    /// The generator behind this participant's vote coin.
    pub closed spec fn generator(&self) -> GeneratorModel {
        self.config.rng@
    }

    /// Create a participant with the given `id`, seed for its vote coin, and
    /// probability (in millionths) that it votes Abort on Prepare.
    pub fn new(id: NodeId, rng_seed: u64, abort_bias: u32) -> (p: Self)
        ensures
            p@.wf(),
            p.generator() == (GeneratorModel { seed: rng_seed, draws: Seq::empty() }),
            p@ == (ParticipantModel {
                id,
                phase: ParticipantPhase::Waiting,
                durable_vote: None,
                durable_decision: None,
                abort_bias,
            }),
    {
        Participant {
            id,
            phase: ParticipantPhase::Waiting,
            durable_state: DurableState { vote: None, decision: None },
            config: Config { rng: seeded_rng(rng_seed), abort_bias },
        }
    }

    /// Create a participant whose vote is fixed: a Commit voter never aborts,
    /// an Abort voter always does.
    pub fn with_fixed_vote(id: NodeId, vote: Vote) -> (p: Self)
        ensures
            p@.wf(),
            p@.id == id,
            p@.phase == ParticipantPhase::Waiting,
            p@.durable_vote.is_none(),
            p@.durable_decision.is_none(),
            forall|c: bool| #[trigger] p@.coin_possible(c) ==> ParticipantModel::vote_for_coin(c) == vote,
    {
        let abort_bias: u32 = match vote {
            Vote::Commit => 0,
            Vote::Abort => PROBABILITY_SCALE,
        };
        Self::new(id, 0, abort_bias)
    }

    /// The participant's identifier.
    pub fn id(&self) -> (id: NodeId)
        ensures
            id == self@.id,
    {
        self.id
    }

    /// Current protocol phase.
    pub fn phase(&self) -> (phase: ParticipantPhase)
        ensures
            phase == self@.phase,
    {
        self.phase
    }

    /// The vote this participant cast, if any.
    pub fn vote(&self) -> (vote: Option<Vote>)
        ensures
            vote == self@.vote(),
    {
        match self.phase {
            ParticipantPhase::Voted(v) => Some(v),
            ParticipantPhase::Decided { vote, .. } => vote,
            ParticipantPhase::Waiting => None,
        }
    }

    /// The decision received from the coordinator, if any.
    pub fn decision(&self) -> (decision: Option<Decision>)
        ensures
            decision == self@.decision(),
    {
        match self.phase {
            ParticipantPhase::Decided { decision, .. } => Some(decision),
            _ => None,
        }
    }

    /// Whether this participant has cast a vote.
    pub fn has_voted(&self) -> (voted: bool)
        ensures
            voted == self@.vote().is_some(),
    {
        match self.phase {
            ParticipantPhase::Voted(_) => true,
            ParticipantPhase::Decided { vote: Some(_), .. } => true,
            _ => false,
        }
    }

    fn make_ack(&self) -> (m: Message)
        ensures
            m == ack_message(self@.id),
    {
        Message { message_type: MessageType::Ack, from: ActorId::Node(self.id), to: ActorId::Coordinator }
    }

    fn make_vote_msg(&self, vote: Vote) -> (m: Message)
        ensures
            m == vote_message(self@.id, vote),
    {
        Message { message_type: vote_type(vote), from: ActorId::Node(self.id), to: ActorId::Coordinator }
    }
}

impl StateMachine for Participant {
    /// Handle `msg`: vote on the first Prepare, re-send the vote on a
    /// duplicate Prepare, record the decision and Ack it, re-Ack a duplicate
    /// decision, and ignore anything else.
    fn on_message(&mut self, msg: &Message, at_time: u64) -> (outgoing: Vec<Message>)
        ensures
            exists|c: bool| #[trigger] old(self)@.coin_possible(c)
                && (final(self)@, outgoing@) == participant_step(old(self)@, *msg, c)
                && (msg.message_type == MessageType::Prepare && old(self)@.phase is Waiting ==> drew_coin(
                    old(self).generator(),
                    final(self).generator(),
                    capped(old(self)@.abort_bias, PROBABILITY_SCALE),
                    PROBABILITY_SCALE,
                    c,
                )),
            !(msg.message_type == MessageType::Prepare && old(self)@.phase is Waiting)
                ==> final(self).generator() == old(self).generator(),
            (final(self)@, outgoing@, final(self).generator())
                == participant_step_drawn(old(self)@, old(self).generator(), *msg),
            old(self)@.wf() ==> final(self)@.wf(),
    {
        let mut outgoing = self.tick(at_time);
        let ghost mut coin: bool = capped(self.config.abort_bias, PROBABILITY_SCALE) == PROBABILITY_SCALE;
        match (msg.message_type, self.phase) {
            (MessageType::Prepare, ParticipantPhase::Waiting) => {
                let abort = flip(&mut self.config.rng, self.config.abort_bias, PROBABILITY_SCALE);
                proof {
                    coin = abort;
                }
                let vote = if abort { Vote::Abort } else { Vote::Commit };
                self.durable_state.vote = Some(vote);
                self.phase = ParticipantPhase::Voted(vote);
                outgoing.push(self.make_vote_msg(vote));
            },
            (MessageType::Prepare, ParticipantPhase::Voted(vote)) => {
                outgoing.push(self.make_vote_msg(vote));
            },
            (MessageType::DecisionCommit, ParticipantPhase::Decided { .. })
            | (MessageType::DecisionAbort, ParticipantPhase::Decided { .. }) => {
                outgoing.push(self.make_ack());
            },
            (MessageType::DecisionCommit, _) | (MessageType::DecisionAbort, _) => {
                let vote = match self.phase {
                    ParticipantPhase::Voted(v) => Some(v),
                    _ => None,
                };
                let decision = if msg.message_type == MessageType::DecisionCommit {
                    Decision::Commit
                } else {
                    Decision::Abort
                };
                self.durable_state.decision = Some(decision);
                self.phase = ParticipantPhase::Decided { vote, decision };
                outgoing.push(self.make_ack());
            },
            _ => {},
        }
        proof {
            assert(old(self)@.coin_possible(coin));
            assert((self@, outgoing@) == participant_step(old(self)@, *msg, coin));
        }
        outgoing
    }

    /// The participant is purely reactive: it has no timer and never sends
    /// anything spontaneously.
    fn tick(&mut self, at_time: u64) -> (outgoing: Vec<Message>)
        ensures
            final(self)@ == old(self)@,
            final(self).generator() == old(self).generator(),
            outgoing@ == Seq::<Message>::empty(),
    {
        Vec::new()
    }

    /// Restore the phase from durable state.
    fn recover(&mut self, at_time: u64)
        ensures
            final(self)@ == (ParticipantModel {
                phase: recovered_phase(old(self)@.durable_vote, old(self)@.durable_decision),
                ..old(self)@
            }),
            final(self)@.wf(),
            final(self).generator() == old(self).generator(),
    {
        if let Some(decision) = self.durable_state.decision {
            self.phase = ParticipantPhase::Decided { vote: self.durable_state.vote, decision };
        } else if let Some(vote) = self.durable_state.vote {
            self.phase = ParticipantPhase::Voted(vote);
        } else {
            self.phase = ParticipantPhase::Waiting;
        }
    }

    /// Quiescent in `Waiting` (not yet part of a transaction) or `Decided`
    /// (final; will only re-send Ack if prompted).
    fn is_quiescent(&self) -> (q: bool)
        ensures
            q == !(self@.phase is Voted),
    {
        match self.phase {
            ParticipantPhase::Voted(_) => false,
            _ => true,
        }
    }
}

/// The vote on the first Prepare follows the abort coin alone, whatever the
/// bias: with the coin of chance `min(abort_bias, scale) / scale` drawn from
/// `g`, a waiting participant votes Abort exactly when the coin comes up and
/// Commit otherwise, records the vote durably, and sends it to the
/// coordinator.
pub proof fn lemma_first_prepare_vote_follows_coin(s: ParticipantModel, g: GeneratorModel, msg: Message)
    requires
        s.phase is Waiting,
        msg.message_type == MessageType::Prepare,
    ensures
        ({
            let coin = ratio_outcome(g.seed, g.draws, capped(s.abort_bias, PROBABILITY_SCALE), PROBABILITY_SCALE);
            let (s2, out, _) = participant_step_drawn(s, g, msg);
            &&& s2.phase matches ParticipantPhase::Voted(v) && (v == Vote::Abort <==> coin)
            &&& (!coin ==> s2.phase == ParticipantPhase::Voted(Vote::Commit))
            &&& s2.durable_vote == Some(s2.phase->Voted_0)
            &&& out.len() == 1
            &&& out[0].from == ActorId::Node(s.id) && out[0].to == ActorId::Coordinator
            &&& out[0].message_type == (if coin { MessageType::VoteAbort } else { MessageType::VoteCommit })
        }),
{
}

/// A decision is recorded and acknowledged: on DecisionCommit or
/// DecisionAbort a well-formed participant holds that decision durably (a
/// decision it already holds stays), keeps its vote, draws no coin, and
/// acknowledges it to the coordinator.
pub proof fn lemma_decision_recorded_and_acked(s: ParticipantModel, g: GeneratorModel, msg: Message, d: Decision)
    requires
        s.wf(),
        msg.message_type == decision_message_type(d),
    ensures
        ({
            let (s2, out, g2) = participant_step_drawn(s, g, msg);
            &&& s2.durable_decision == (if s.durable_decision is Some { s.durable_decision } else { Some(d) })
            &&& s2.phase is Decided
            &&& s2.durable_vote == s.durable_vote
            &&& s2.vote() == s.vote()
            &&& g2 == g
            &&& out == seq![Message { message_type: MessageType::Ack, from: ActorId::Node(s.id), to: ActorId::Coordinator }]
        }),
{
}

/// A repeated Prepare draws no coin and changes nothing: a participant that
/// has voted sends the same vote again.
pub proof fn lemma_repeated_prepare_resends_vote(s: ParticipantModel, g: GeneratorModel, msg: Message, v: Vote)
    requires
        s.phase == ParticipantPhase::Voted(v),
        msg.message_type == MessageType::Prepare,
    ensures
        ({
            let (s2, out, g2) = participant_step_drawn(s, g, msg);
            &&& s2 == s
            &&& g2 == g
            &&& out == seq![Message {
                message_type: if v == Vote::Commit { MessageType::VoteCommit } else { MessageType::VoteAbort },
                from: ActorId::Node(s.id),
                to: ActorId::Coordinator,
            }]
        }),
{
}

} // verus!
