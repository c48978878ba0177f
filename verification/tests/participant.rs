use two_phase_commit::participant::{Participant, ParticipantPhase};
use two_phase_commit::state_machine::StateMachine;
use two_phase_commit::types::{ActorId, Decision, Message, MessageType, NodeId, Vote};

fn prepare_msg(dest: NodeId) -> Message {
    Message { message_type: MessageType::Prepare, from: ActorId::Coordinator, to: ActorId::Node(dest) }
}

fn commit_msg(dest: NodeId) -> Message {
    Message { message_type: MessageType::DecisionCommit, from: ActorId::Coordinator, to: ActorId::Node(dest) }
}

fn fixed_commit_vote_case() {
    let mut p = Participant::with_fixed_vote(NodeId(0), Vote::Commit);
    let msgs = p.on_message(&prepare_msg(NodeId(0)), 0);
    assert_eq!(p.phase(), ParticipantPhase::Voted(Vote::Commit));
    assert_eq!(p.vote(), Some(Vote::Commit));
    assert_eq!(msgs.len(), 1);
    assert_eq!(msgs[0].message_type, MessageType::VoteCommit);
}

fn fixed_abort_vote_case() {
    let mut p = Participant::with_fixed_vote(NodeId(0), Vote::Abort);
    let msgs = p.on_message(&prepare_msg(NodeId(0)), 0);
    assert_eq!(p.phase(), ParticipantPhase::Voted(Vote::Abort));
    assert_eq!(p.vote(), Some(Vote::Abort));
    assert_eq!(msgs.len(), 1);
    assert_eq!(msgs[0].message_type, MessageType::VoteAbort);
}

fn receive_decision_sends_ack_case() {
    let mut p = Participant::with_fixed_vote(NodeId(0), Vote::Commit);
    p.on_message(&prepare_msg(NodeId(0)), 0);
    let msgs = p.on_message(&commit_msg(NodeId(0)), 1);
    assert_eq!(p.decision(), Some(Decision::Commit));
    assert_eq!(p.vote(), Some(Vote::Commit));
    assert_eq!(msgs.len(), 1);
    assert_eq!(msgs[0].message_type, MessageType::Ack);
}

fn duplicate_prepare_resends_vote_case() {
    let mut p = Participant::with_fixed_vote(NodeId(0), Vote::Commit);
    p.on_message(&prepare_msg(NodeId(0)), 0);
    let msgs = p.on_message(&prepare_msg(NodeId(0)), 1);
    assert_eq!(msgs.len(), 1);
    assert_eq!(msgs[0].message_type, MessageType::VoteCommit);
}

fn duplicate_decision_resends_ack_case() {
    let mut p = Participant::with_fixed_vote(NodeId(0), Vote::Commit);
    p.on_message(&prepare_msg(NodeId(0)), 0);
    p.on_message(&commit_msg(NodeId(0)), 1);
    let msgs = p.on_message(&commit_msg(NodeId(0)), 2);
    assert_eq!(msgs.len(), 1);
    assert_eq!(msgs[0].message_type, MessageType::Ack);
}

fn recover_after_decision_restores_decided_case() {
    let mut p = Participant::with_fixed_vote(NodeId(0), Vote::Commit);
    p.on_message(&prepare_msg(NodeId(0)), 0);
    p.on_message(&commit_msg(NodeId(0)), 1);
    assert_eq!(p.decision(), Some(Decision::Commit));

    // Durable state holds both vote and decision: recovery restores Decided.
    p.recover(5);
    assert_eq!(p.decision(), Some(Decision::Commit));
    assert_eq!(p.vote(), Some(Vote::Commit));
}

fn recover_after_vote_restores_voted_case() {
    let mut p = Participant::with_fixed_vote(NodeId(0), Vote::Commit);
    p.on_message(&prepare_msg(NodeId(0)), 0);
    assert_eq!(p.phase(), ParticipantPhase::Voted(Vote::Commit));

    // Durable state holds the vote only: recovery restores Voted.
    p.recover(5);
    assert_eq!(p.phase(), ParticipantPhase::Voted(Vote::Commit));
    assert_eq!(p.decision(), None);
}

fn recover_without_vote_case() {
    let mut p = Participant::with_fixed_vote(NodeId(0), Vote::Commit);
    p.recover(5);
    assert_eq!(p.phase(), ParticipantPhase::Waiting);
}

#[test]
fn participant_fixed_commit_vote() {
    fixed_commit_vote_case();
}

#[test]
fn participant_fixed_abort_vote() {
    fixed_abort_vote_case();
}

#[test]
fn participant_receive_decision_sends_ack() {
    receive_decision_sends_ack_case();
}

#[test]
fn participant_duplicate_prepare_resends_vote() {
    duplicate_prepare_resends_vote_case();
}

#[test]
fn participant_duplicate_decision_resends_ack() {
    duplicate_decision_resends_ack_case();
}

#[test]
fn participant_recover_after_decision_restores_decided() {
    recover_after_decision_restores_decided_case();
}

#[test]
fn participant_recover_after_vote_restores_voted() {
    recover_after_vote_restores_voted_case();
}

#[test]
fn participant_recover_without_vote() {
    recover_without_vote_case();
}

#[test]
fn tests_fixed_commit_vote() {
    fixed_commit_vote_case();
}

#[test]
fn tests_fixed_abort_vote() {
    fixed_abort_vote_case();
}

#[test]
fn tests_receive_decision_sends_ack() {
    receive_decision_sends_ack_case();
}

#[test]
fn tests_duplicate_prepare_resends_vote() {
    duplicate_prepare_resends_vote_case();
}

#[test]
fn tests_duplicate_decision_resends_ack() {
    duplicate_decision_resends_ack_case();
}

#[test]
fn tests_recover_after_decision_restores_decided() {
    recover_after_decision_restores_decided_case();
}

#[test]
fn tests_recover_after_vote_restores_voted() {
    recover_after_vote_restores_voted_case();
}

#[test]
fn tests_recover_without_vote() {
    recover_without_vote_case();
}

#[test]
fn decision_before_prepare_decides_without_vote() {
    let mut p = Participant::new(NodeId(3), 1, 0);
    let abort = Message { message_type: MessageType::DecisionAbort, from: ActorId::Coordinator, to: ActorId::Node(NodeId(3)) };
    let msgs = p.on_message(&abort, 0);
    assert_eq!(p.phase(), ParticipantPhase::Decided { vote: None, decision: Decision::Abort });
    assert!(!p.has_voted());
    assert_eq!(msgs, vec![Message { message_type: MessageType::Ack, from: ActorId::Node(NodeId(3)), to: ActorId::Coordinator }]);
    // A late Prepare is ignored: the participant never votes after deciding.
    let msgs = p.on_message(&prepare_msg(NodeId(3)), 1);
    assert!(msgs.is_empty());
    assert_eq!(p.vote(), None);
}

#[test]
fn vote_message_comes_from_the_participant() {
    let mut p = Participant::with_fixed_vote(NodeId(7), Vote::Abort);
    let msgs = p.on_message(&prepare_msg(NodeId(7)), 0);
    assert_eq!(msgs, vec![Message { message_type: MessageType::VoteAbort, from: ActorId::Node(NodeId(7)), to: ActorId::Coordinator }]);
    assert!(p.has_voted());
    assert_eq!(p.id(), NodeId(7));
}

#[test]
fn participant_quiescence_and_tick() {
    let mut p = Participant::with_fixed_vote(NodeId(0), Vote::Commit);
    assert!(p.is_quiescent());
    p.on_message(&prepare_msg(NodeId(0)), 0);
    assert!(!p.is_quiescent());
    assert!(p.tick(100).is_empty());
    p.on_message(&commit_msg(NodeId(0)), 1);
    assert!(p.is_quiescent());
}

#[test]
fn recovery_keeps_the_vote_already_cast() {
    let mut p = Participant::with_fixed_vote(NodeId(0), Vote::Abort);
    p.on_message(&prepare_msg(NodeId(0)), 0);
    p.recover(3);
    let msgs = p.on_message(&prepare_msg(NodeId(0)), 4);
    assert_eq!(msgs[0].message_type, MessageType::VoteAbort);
}
