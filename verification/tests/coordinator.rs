use std::collections::{BTreeMap, BTreeSet};
use two_phase_commit::coordinator::{Coordinator, CoordinatorPhase};
use two_phase_commit::state_machine::StateMachine;
use two_phase_commit::types::{ActorId, Decision, Message, MessageType, NodeId, Vote};

fn two_nodes() -> Vec<NodeId> {
    vec![NodeId(0), NodeId(1)]
}

fn start_msg() -> Message {
    Message {
        message_type: MessageType::StartTransaction,
        from: ActorId::Coordinator,
        to: ActorId::Coordinator,
    }
}

fn vote_msg(node: u8, t: MessageType) -> Message {
    Message { message_type: t, from: ActorId::Node(NodeId(node)), to: ActorId::Coordinator }
}

fn ack_msg(node: u8) -> Message {
    Message { message_type: MessageType::Ack, from: ActorId::Node(NodeId(node)), to: ActorId::Coordinator }
}

/// A coordinator over two nodes, started at time 0 (in `Voting` since 0).
fn voting_coordinator() -> Coordinator {
    let mut coord = Coordinator::new(two_nodes(), 0, 0, 5);
    coord.on_message(&start_msg(), 0);
    coord
}

/// A coordinator over two nodes that decided Commit at time 0.
fn committed_coordinator() -> Coordinator {
    let mut coord = voting_coordinator();
    coord.on_message(&vote_msg(0, MessageType::VoteCommit), 0);
    coord.on_message(&vote_msg(1, MessageType::VoteCommit), 0);
    coord
}

#[test]
fn start_transaction_sends_prepare() {
    let mut coord = Coordinator::new(two_nodes(), 0, 0, 5);
    let msgs = coord.on_message(&start_msg(), 0);
    assert_eq!(
        coord.phase(),
        &CoordinatorPhase::Voting { last_prepare_time: 0, votes: BTreeMap::new() }
    );
    assert_eq!(msgs.len(), 2);
    assert!(msgs.iter().all(|m| m.message_type == MessageType::Prepare));
}

#[test]
fn all_commit_votes_enters_awaiting_acks() {
    let mut coord = voting_coordinator();
    coord.on_message(&vote_msg(0, MessageType::VoteCommit), 1);
    assert!(matches!(coord.phase(), CoordinatorPhase::Voting { .. }));

    let msgs = coord.on_message(&vote_msg(1, MessageType::VoteCommit), 2);
    assert_eq!(
        coord.phase(),
        &CoordinatorPhase::AwaitingAcks {
            decision: Decision::Commit,
            last_decision_time: 2,
            acks: BTreeSet::new()
        }
    );
    assert_eq!(coord.decision(), Some(Decision::Commit));
    assert_eq!(msgs.len(), 2);
    assert!(msgs.iter().all(|m| m.message_type == MessageType::DecisionCommit));
}

#[test]
fn abort_vote_enters_awaiting_acks() {
    let mut coord = voting_coordinator();
    let msgs = coord.on_message(&vote_msg(0, MessageType::VoteAbort), 1);
    assert_eq!(
        coord.phase(),
        &CoordinatorPhase::AwaitingAcks {
            decision: Decision::Abort,
            last_decision_time: 1,
            acks: BTreeSet::new()
        }
    );
    assert_eq!(coord.decision(), Some(Decision::Abort));
    assert_eq!(msgs.len(), 2);
    assert!(msgs.iter().all(|m| m.message_type == MessageType::DecisionAbort));
}

#[test]
fn tick_decided_sends_decision_messages() {
    let mut coord = committed_coordinator();
    // Recovery from the durable Commit decision leaves the coordinator in
    // `Decided(Commit)`, not yet broadcast.
    coord.recover(0);
    assert_eq!(coord.phase(), &CoordinatorPhase::Decided(Decision::Commit));

    let msgs = coord.tick(0);
    assert_eq!(
        coord.phase(),
        &CoordinatorPhase::AwaitingAcks {
            decision: Decision::Commit,
            last_decision_time: 0,
            acks: BTreeSet::new()
        }
    );
    assert_eq!(msgs.len(), 2);
    assert!(msgs.iter().all(|m| m.message_type == MessageType::DecisionCommit));
}

#[test]
fn acks_complete_protocol() {
    let mut coord = committed_coordinator();
    coord.on_message(&ack_msg(0), 1);
    assert!(matches!(
        coord.phase(),
        CoordinatorPhase::AwaitingAcks { decision: Decision::Commit, .. }
    ));

    coord.on_message(&ack_msg(1), 2);
    assert_eq!(coord.phase(), &CoordinatorPhase::Done(Decision::Commit));
}

#[test]
fn retransmit_prepare_on_timeout() {
    let mut coord = voting_coordinator();
    // Record one vote so only the other node gets the retransmission.
    coord.on_message(&vote_msg(0, MessageType::VoteCommit), 0);

    // Before the timeout: no retransmission.
    let msgs = coord.tick(4);
    assert!(msgs.is_empty());

    // At the timeout: retransmit to the node that has not voted.
    let msgs = coord.tick(5);
    assert_eq!(msgs.len(), 1);
    assert_eq!(msgs[0].to, ActorId::Node(NodeId(1)));
    assert_eq!(msgs[0].message_type, MessageType::Prepare);
}

#[test]
fn retransmit_decision_on_timeout() {
    let mut coord = committed_coordinator();
    // Record one ack.
    coord.on_message(&ack_msg(0), 0);

    let msgs = coord.tick(4);
    assert!(msgs.is_empty());

    let msgs = coord.tick(5);
    assert_eq!(msgs.len(), 1);
    assert_eq!(msgs[0].to, ActorId::Node(NodeId(1)));
    assert_eq!(msgs[0].message_type, MessageType::DecisionCommit);
}

#[test]
fn recover_with_decision() {
    let mut coord = committed_coordinator();
    coord.on_message(&ack_msg(0), 0);
    coord.recover(10);
    assert_eq!(coord.phase(), &CoordinatorPhase::Decided(Decision::Commit));

    // The next tick sends the decision again, with no acks recorded.
    let msgs = coord.tick(10);
    assert_eq!(msgs.len(), 2);
    assert_eq!(
        coord.phase(),
        &CoordinatorPhase::AwaitingAcks {
            decision: Decision::Commit,
            last_decision_time: 10,
            acks: BTreeSet::new()
        }
    );
}

#[test]
fn recover_without_decision() {
    let mut coord = Coordinator::new(two_nodes(), 0, 0, 5);
    coord.recover(10);
    assert_eq!(
        coord.phase(),
        &CoordinatorPhase::Voting { last_prepare_time: 5, votes: BTreeMap::new() }
    );

    // The next tick retransmits Prepare.
    let msgs = coord.tick(10);
    assert_eq!(msgs.len(), 2);
    assert!(msgs.iter().all(|m| m.message_type == MessageType::Prepare));
}

#[test]
fn recover_early_retransmits_at_once() {
    let mut coord = Coordinator::new(two_nodes(), 0, 0, 5);
    coord.recover(3);
    assert_eq!(
        coord.phase(),
        &CoordinatorPhase::Voting { last_prepare_time: 0, votes: BTreeMap::new() }
    );

    // Less than a timeout has passed since time 0, yet the next tick
    // retransmits Prepare to every node.
    let msgs = coord.tick(3);
    assert_eq!(msgs.len(), 2);
    assert!(msgs.iter().all(|m| m.message_type == MessageType::Prepare));
    assert_eq!(
        coord.phase(),
        &CoordinatorPhase::Voting { last_prepare_time: 3, votes: BTreeMap::new() }
    );

    // After that, retransmission waits for the timeout again.
    assert!(coord.tick(4).is_empty());
    assert_eq!(coord.tick(8).len(), 2);
}

#[test]
fn duplicate_vote_is_ignored() {
    let mut coord = voting_coordinator();
    coord.on_message(&vote_msg(0, MessageType::VoteCommit), 1);
    let msgs = coord.on_message(&vote_msg(0, MessageType::VoteAbort), 2);
    assert!(msgs.is_empty());
    let mut expected = BTreeMap::new();
    expected.insert(0u8, Vote::Commit);
    assert_eq!(coord.phase(), &CoordinatorPhase::Voting { last_prepare_time: 0, votes: expected });
}

#[test]
fn vote_from_coordinator_is_ignored() {
    let mut coord = voting_coordinator();
    let msg = Message { message_type: MessageType::VoteAbort, from: ActorId::Coordinator, to: ActorId::Coordinator };
    let msgs = coord.on_message(&msg, 1);
    assert!(msgs.is_empty());
    assert_eq!(coord.decision(), None);
}

#[test]
fn unexpected_message_is_ignored() {
    let mut coord = Coordinator::new(two_nodes(), 0, 0, 5);
    let msgs = coord.on_message(&ack_msg(0), 0);
    assert!(msgs.is_empty());
    assert_eq!(coord.phase(), &CoordinatorPhase::Waiting);
    assert!(coord.is_quiescent());
}

#[test]
fn full_abort_bias_aborts_despite_unanimous_commit() {
    let mut coord = Coordinator::new(two_nodes(), 7, 1_000_000, 5);
    coord.on_message(&start_msg(), 0);
    coord.on_message(&vote_msg(0, MessageType::VoteCommit), 0);
    coord.on_message(&vote_msg(1, MessageType::VoteCommit), 0);
    assert_eq!(coord.decision(), Some(Decision::Abort));
}

#[test]
fn nodes_and_quiescence() {
    let mut coord = committed_coordinator();
    assert_eq!(coord.nodes(), &[NodeId(0), NodeId(1)]);
    assert!(!coord.is_quiescent());
    coord.on_message(&ack_msg(0), 1);
    coord.on_message(&ack_msg(1), 1);
    assert!(coord.is_quiescent());
    // A duplicate ack after completion changes nothing.
    let msgs = coord.on_message(&ack_msg(1), 2);
    assert!(msgs.is_empty());
    assert_eq!(coord.phase(), &CoordinatorPhase::Done(Decision::Commit));
}

#[test]
fn vote_from_unmanaged_node_is_ignored() {
    let mut coord = voting_coordinator();
    coord.on_message(&vote_msg(0, MessageType::VoteCommit), 1);
    let msgs = coord.on_message(&vote_msg(7, MessageType::VoteCommit), 2);
    assert!(msgs.is_empty());
    assert_eq!(coord.decision(), None);
    let mut expected = BTreeMap::new();
    expected.insert(0u8, Vote::Commit);
    assert_eq!(coord.phase(), &CoordinatorPhase::Voting { last_prepare_time: 0, votes: expected });

    // An Abort vote from outside does not abort either.
    coord.on_message(&vote_msg(9, MessageType::VoteAbort), 3);
    assert_eq!(coord.decision(), None);

    // Node 1's vote completes the round.
    coord.on_message(&vote_msg(1, MessageType::VoteCommit), 4);
    assert_eq!(coord.decision(), Some(Decision::Commit));
}

#[test]
fn ack_from_unmanaged_node_is_ignored() {
    let mut coord = committed_coordinator();
    coord.on_message(&ack_msg(0), 1);
    coord.on_message(&ack_msg(7), 2);
    let mut acks = BTreeSet::new();
    acks.insert(0u8);
    assert_eq!(
        coord.phase(),
        &CoordinatorPhase::AwaitingAcks { decision: Decision::Commit, last_decision_time: 0, acks }
    );
    coord.on_message(&ack_msg(1), 3);
    assert_eq!(coord.phase(), &CoordinatorPhase::Done(Decision::Commit));
}
