use two_phase_commit::simulator::properties::{
    all_decided, check_agreement, check_all_invariants, check_validity, Observations, Violation,
};
use two_phase_commit::types::{ActorId, Decision, Message, MessageType, NodeId, Vote};

fn from_node(node: u8, t: MessageType) -> Message {
    Message { message_type: t, from: ActorId::Node(NodeId(node)), to: ActorId::Coordinator }
}

fn to_node(node: u8, t: MessageType) -> Message {
    Message { message_type: t, from: ActorId::Coordinator, to: ActorId::Node(NodeId(node)) }
}

#[test]
fn empty_observations_are_safe() {
    let obs = Observations::new();
    assert_eq!(check_all_invariants(&obs), Ok(()));
    assert!(all_decided(&obs, &[]));
    assert!(!all_decided(&obs, &[NodeId(0)]));
}

#[test]
fn records_votes_and_decisions() {
    let mut obs = Observations::new();
    obs.record_sent(&from_node(2, MessageType::VoteCommit));
    obs.record_sent(&from_node(2, MessageType::VoteCommit));
    obs.record_sent(&to_node(2, MessageType::DecisionCommit));
    obs.record_sent(&to_node(2, MessageType::Prepare));
    obs.record_delivered(&to_node(2, MessageType::DecisionCommit));
    obs.record_delivered(&from_node(2, MessageType::VoteCommit));
    assert_eq!(obs.votes().len(), 1);
    assert_eq!(obs.votes()[&2], Vote::Commit);
    assert_eq!(obs.coordinator_decision(), Some(Decision::Commit));
    assert_eq!(obs.participant_decisions()[&2], Decision::Commit);
    assert!(all_decided(&obs, &[NodeId(2)]));
    assert_eq!(check_all_invariants(&obs), Ok(()));
}

#[test]
fn disagreement_lists_both_sides_in_order() {
    let mut obs = Observations::new();
    obs.record_delivered(&to_node(3, MessageType::DecisionCommit));
    obs.record_delivered(&to_node(1, MessageType::DecisionAbort));
    obs.record_delivered(&to_node(0, MessageType::DecisionCommit));
    let expected = Violation::Agreement { committed: vec![NodeId(0), NodeId(3)], aborted: vec![NodeId(1)] };
    assert_eq!(check_agreement(&obs), Err(expected.clone()));
    assert_eq!(check_all_invariants(&obs), Err(expected));
}

#[test]
fn commit_without_unanimity_names_first_dissenter() {
    let mut obs = Observations::new();
    obs.record_sent(&from_node(4, MessageType::VoteAbort));
    obs.record_sent(&from_node(1, MessageType::VoteCommit));
    obs.record_sent(&from_node(2, MessageType::VoteAbort));
    obs.record_sent(&to_node(1, MessageType::DecisionCommit));
    assert_eq!(check_agreement(&obs), Ok(()));
    let expected = Violation::CommitWithoutUnanimity { node: NodeId(2), vote: Vote::Abort };
    assert_eq!(check_validity(&obs), Err(expected.clone()));
    assert_eq!(check_all_invariants(&obs), Err(expected));
}

#[test]
fn abort_with_committed_participant_is_reported() {
    let mut obs = Observations::new();
    obs.record_sent(&to_node(0, MessageType::DecisionAbort));
    obs.record_delivered(&to_node(5, MessageType::DecisionCommit));
    assert_eq!(check_validity(&obs), Err(Violation::AbortedButCommitted { node: NodeId(5) }));
}

#[test]
fn single_decision_always_agrees() {
    let mut obs = Observations::new();
    obs.record_delivered(&to_node(9, MessageType::DecisionAbort));
    assert_eq!(check_agreement(&obs), Ok(()));
}

#[test]
fn abort_with_aborted_participants_is_valid() {
    let mut obs = Observations::new();
    obs.record_sent(&from_node(0, MessageType::VoteAbort));
    obs.record_sent(&to_node(0, MessageType::DecisionAbort));
    obs.record_delivered(&to_node(0, MessageType::DecisionAbort));
    obs.record_delivered(&to_node(1, MessageType::DecisionAbort));
    assert_eq!(check_validity(&obs), Ok(()));
    assert_eq!(check_all_invariants(&obs), Ok(()));
}
