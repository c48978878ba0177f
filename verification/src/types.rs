//! Core types shared across the crate.
use vstd::prelude::*;

verus! {

/// Identifier for a participant node.
///
/// The coordinator has its own identifier, see [`ActorId`].
#[derive(Debug, Clone, Copy, PartialEq, Eq, Structural, PartialOrd, Ord, Hash)]
pub struct NodeId(pub u8);

/// A participant's vote on whether to commit or abort the transaction.
#[derive(Debug, Clone, Copy, PartialEq, Eq, Structural)]
pub enum Vote {
    Commit,
    Abort,
}

/// The coordinator's final decision about the transaction: either all nodes
/// must commit it, or all nodes must abort it.
#[derive(Debug, Clone, Copy, PartialEq, Eq, Structural)]
pub enum Decision {
    Commit,
    Abort,
}

/// Identifier for a protocol actor.
#[derive(Debug, Clone, Copy, PartialEq, Eq, Structural, PartialOrd, Ord, Hash)]
pub enum ActorId {
    Coordinator,
    Node(NodeId),
}

/// Messages exchanged during the protocol.
#[derive(Debug, Clone, Copy, PartialEq, Eq, Structural, PartialOrd, Ord)]
pub enum MessageType {
    /// External trigger that begins the protocol (client to coordinator).
    StartTransaction,
    /// Phase 1: coordinator asks each participant to vote.
    Prepare,
    /// Participant votes to commit the transaction.
    VoteCommit,
    /// Participant votes to abort the transaction.
    VoteAbort,
    /// Phase 2: coordinator broadcasts a commit decision.
    DecisionCommit,
    /// Phase 2: coordinator broadcasts an abort decision.
    DecisionAbort,
    /// Participant acknowledges receipt of the decision.
    Ack,
}

/// A message in transit between two actors.
#[derive(Debug, Clone, Copy, PartialEq, Eq, Structural, PartialOrd, Ord)]
pub struct Message {
    pub message_type: MessageType,
    pub from: ActorId,
    pub to: ActorId,
}

/// The message type that carries decision `d`.
pub open spec fn decision_message_type(d: Decision) -> MessageType {
    match d {
        Decision::Commit => MessageType::DecisionCommit,
        Decision::Abort => MessageType::DecisionAbort,
    }
}

/// The message type that carries vote `v`.
pub open spec fn vote_message_type(v: Vote) -> MessageType {
    match v {
        Vote::Commit => MessageType::VoteCommit,
        Vote::Abort => MessageType::VoteAbort,
    }
}

/// The decision carried by a decision message type, if it is one.
pub open spec fn decision_of(t: MessageType) -> Option<Decision> {
    match t {
        MessageType::DecisionCommit => Some(Decision::Commit),
        MessageType::DecisionAbort => Some(Decision::Abort),
        _ => None,
    }
}

/// The vote carried by a vote message type, if it is one.
pub open spec fn vote_of(t: MessageType) -> Option<Vote> {
    match t {
        MessageType::VoteCommit => Some(Vote::Commit),
        MessageType::VoteAbort => Some(Vote::Abort),
        _ => None,
    }
}

/// The message type that carries decision `d`.
pub fn decision_type(d: Decision) -> (t: MessageType)
    ensures
        t == decision_message_type(d),
        decision_of(t) == Some(d),
{
    match d {
        Decision::Commit => MessageType::DecisionCommit,
        Decision::Abort => MessageType::DecisionAbort,
    }
}

/// The message type that carries vote `v`.
pub fn vote_type(v: Vote) -> (t: MessageType)
    ensures
        t == vote_message_type(v),
        vote_of(t) == Some(v),
{
    match v {
        Vote::Commit => MessageType::VoteCommit,
        Vote::Abort => MessageType::VoteAbort,
    }
}

} // verus!
