use std::collections::BTreeMap;
use two_phase_commit::coordinator::{Coordinator, CoordinatorPhase};
use two_phase_commit::participant::Participant;
use two_phase_commit::rng::PROBABILITY_SCALE;
use two_phase_commit::simulator::properties::{all_decided, check_all_invariants, Observations};
use two_phase_commit::simulator::{ExternalEvent, LogEntry, Simulator};
use two_phase_commit::state_machine::StateMachine;
use two_phase_commit::types::{ActorId, Decision, Message, MessageType, NodeId, Vote};

/// Drive the protocol to completion with fixed votes using a simple message
/// queue, recording what is sent and delivered.
fn manual_protocol(votes: &[Vote], abort_bias: u32) {
    let nodes: Vec<NodeId> = (0..votes.len() as u8).map(NodeId).collect();
    let mut coord = Coordinator::new(nodes.clone(), 0, abort_bias, 5);
    let mut participants: Vec<Participant> = votes
        .iter()
        .enumerate()
        .map(|(i, &v)| Participant::with_fixed_vote(NodeId(i as u8), v))
        .collect();
    let mut obs = Observations::new();

    let mut queue: Vec<Message> = vec![Message {
        message_type: MessageType::StartTransaction,
        from: ActorId::Coordinator,
        to: ActorId::Coordinator,
    }];

    let mut time: u64 = 0;
    while !queue.is_empty() || !matches!(coord.phase(), CoordinatorPhase::Done(_)) {
        time += 1;
        let batch = std::mem::take(&mut queue);
        for msg in batch {
            obs.record_delivered(&msg);
            let outgoing = match msg.to {
                ActorId::Coordinator => coord.on_message(&msg, time),
                ActorId::Node(id) => participants[id.0 as usize].on_message(&msg, time),
            };
            for m in &outgoing {
                obs.record_sent(m);
            }
            queue.extend(outgoing);
        }
        if queue.is_empty() && !matches!(coord.phase(), CoordinatorPhase::Done(_)) {
            let out = coord.tick(time);
            for m in &out {
                obs.record_sent(m);
            }
            queue.extend(out);
            for p in &mut participants {
                queue.extend(p.tick(time));
            }
        }
        assert!(time < 100, "Protocol did not terminate within 100 steps");
    }

    assert_eq!(check_all_invariants(&obs), Ok(()));
    assert!(all_decided(&obs, &nodes), "Not all participants decided");

    let expected_decision = if abort_bias >= PROBABILITY_SCALE {
        Decision::Abort
    } else if votes.iter().any(|v| *v == Vote::Abort) {
        Decision::Abort
    } else {
        Decision::Commit
    };
    assert_eq!(coord.decision(), Some(expected_decision));
    for p in &participants {
        assert_eq!(p.decision(), Some(expected_decision));
    }
}

#[test]
fn all_commit() {
    manual_protocol(&[Vote::Commit, Vote::Commit], 0);
}

#[test]
fn one_abort() {
    manual_protocol(&[Vote::Commit, Vote::Abort], 0);
}

#[test]
fn all_abort() {
    manual_protocol(&[Vote::Abort, Vote::Abort], 0);
}

#[test]
fn coordinator_abort_despite_all_commits() {
    manual_protocol(&[Vote::Commit, Vote::Commit], PROBABILITY_SCALE);
}

#[test]
fn single_participant_commit() {
    manual_protocol(&[Vote::Commit], 0);
}

#[test]
fn single_participant_abort() {
    manual_protocol(&[Vote::Abort], 0);
}

fn run(sim: &mut Simulator) {
    sim.run();
}

/// Every participant that decided agrees with the others; a Commit comes
/// with every participant voting Commit.
fn assert_actor_safety(sim: &Simulator) {
    let decisions: Vec<Decision> = sim.participants().values().filter_map(|p| p.decision()).collect();
    assert!(decisions.windows(2).all(|w| w[0] == w[1]));
    if sim.coordinator().decision() == Some(Decision::Commit) {
        assert!(sim.participants().values().all(|p| p.vote() == Some(Vote::Commit)));
    }
    assert_eq!(check_all_invariants(sim.observations()), Ok(()));
}

#[test]
fn happy_path_commits() {
    let mut sim = Simulator::new(2, 1, 0, 0, 0..0, 5);
    sim.enqueue_external(ExternalEvent::StartTransaction, 0);
    run(&mut sim);
    assert!(sim.drain(50));
    assert!(sim.all_decided());
    assert_eq!(sim.coordinator().decision(), Some(Decision::Commit));
    assert_eq!(sim.observations().coordinator_decision(), Some(Decision::Commit));
    assert_actor_safety(&sim);
}

#[test]
fn zero_bias_commits_iff_all_vote_commit() {
    for seed in 0..40u64 {
        let mut sim = Simulator::new(3, seed, 0, 300_000, 0..4, 5);
        sim.enqueue_external(ExternalEvent::StartTransaction, 0);
        run(&mut sim);
        sim.drain(200);
        assert!(sim.all_decided());
        let all_commit = sim.participants().values().all(|p| p.vote() == Some(Vote::Commit));
        let expected = if all_commit { Decision::Commit } else { Decision::Abort };
        assert_eq!(sim.coordinator().decision(), Some(expected));
        assert_actor_safety(&sim);
    }
}

#[test]
fn safety_under_crashes_and_recovery() {
    for seed in 0..60u64 {
        let n: u8 = 1 + (seed % 4) as u8;
        let mut sim = Simulator::new(n, seed, 100_000, 200_000, 0..(seed % 7), 5);
        sim.enqueue_external(ExternalEvent::StartTransaction, 0);
        let mut time: u64 = 0;
        for step in 0..40u64 {
            time += 1;
            let action = (seed.wrapping_mul(31).wrapping_add(step * 17)) % 31;
            let event = match action {
                0..=20 => ExternalEvent::TickAll,
                21..=24 => ExternalEvent::Crash(ActorId::Node(NodeId((action as u8 - 21) % n))),
                25..=28 => ExternalEvent::Recover(ActorId::Node(NodeId((action as u8 - 25) % n))),
                29 => ExternalEvent::Crash(ActorId::Coordinator),
                _ => ExternalEvent::Recover(ActorId::Coordinator),
            };
            sim.enqueue_external(event, time);
        }
        // Recover every actor, then drain.
        time += 1;
        sim.enqueue_external(ExternalEvent::Recover(ActorId::Coordinator), time);
        for i in 0..n {
            time += 1;
            sim.enqueue_external(ExternalEvent::Recover(ActorId::Node(NodeId(i))), time);
        }
        run(&mut sim);
        sim.drain(time as usize + 200);
        assert_actor_safety(&sim);
        assert!(sim.all_decided(), "seed {seed}: not all participants decided after recovery");
    }
}

#[test]
fn coordinator_crash_before_decision_recovers() {
    // Every message takes one tick: Prepare arrives at 1, the votes at 2,
    // when the coordinator has just crashed.
    let mut sim = Simulator::new(2, 1, 0, 0, 1..2, 5);
    sim.enqueue_external(ExternalEvent::StartTransaction, 0);
    sim.enqueue_external(ExternalEvent::Crash(ActorId::Coordinator), 2);
    sim.enqueue_external(ExternalEvent::Recover(ActorId::Coordinator), 8);
    run(&mut sim);
    assert!(sim.drain(100));
    assert!(sim.all_decided());
    assert!(sim.log().iter().any(|e| matches!(e, LogEntry::Drop { .. })));
    assert_eq!(sim.coordinator().decision(), Some(Decision::Commit));
    assert_actor_safety(&sim);
}

#[test]
fn messages_to_crashed_participant_are_dropped() {
    let mut sim = Simulator::new(1, 3, 0, 0, 0..0, 5);
    sim.enqueue_external(ExternalEvent::Crash(ActorId::Node(NodeId(0))), 0);
    sim.enqueue_external(ExternalEvent::StartTransaction, 0);
    run(&mut sim);
    let drops: Vec<&LogEntry> = sim.log().iter().filter(|e| matches!(e, LogEntry::Drop { .. })).collect();
    assert_eq!(drops.len(), 1);
    assert!(sim.participants()[&0].vote().is_none());
    assert!(!sim.is_quiescent());
}

#[test]
fn delivery_delays_stay_in_range() {
    let mut sim = Simulator::new(3, 11, 0, 0, 2..6, 5);
    sim.enqueue_external(ExternalEvent::StartTransaction, 0);
    run(&mut sim);
    let mut delays = std::collections::BTreeSet::new();
    for entry in sim.log() {
        if let LogEntry::Send { at, deliver_at, .. } = entry {
            assert!(*deliver_at >= at + 2 && *deliver_at < at + 6, "delay out of range: {at} -> {deliver_at}");
            delays.insert(deliver_at - at);
        }
    }
    // The delays are drawn, not fixed at the start of the range.
    assert!(delays.len() > 1);
}

#[test]
fn empty_delay_range_delivers_at_once() {
    let mut sim = Simulator::new(2, 5, 0, 0, 0..0, 5);
    sim.enqueue_external(ExternalEvent::StartTransaction, 10);
    run(&mut sim);
    for entry in sim.log() {
        if let LogEntry::Send { at, deliver_at, .. } = entry {
            assert_eq!(deliver_at, at);
        }
    }
    // Everything happens at the time the transaction started.
    assert!(sim.log().iter().all(|e| match e {
        LogEntry::ExternalEvent { at, .. } | LogEntry::Deliver { at, .. } | LogEntry::Drop { at, .. } => *at == 10,
        LogEntry::Send { at, deliver_at, .. } => *at == 10 && *deliver_at == 10,
    }));
    assert!(sim.all_decided());
}

#[test]
fn same_seed_same_run() {
    let mut a = Simulator::new(3, 42, 50_000, 300_000, 0..5, 5);
    let mut b = Simulator::new(3, 42, 50_000, 300_000, 0..5, 5);
    a.enqueue_external(ExternalEvent::StartTransaction, 0);
    b.enqueue_external(ExternalEvent::StartTransaction, 0);
    run(&mut a);
    run(&mut b);
    assert_eq!(a.log(), b.log());
}

#[test]
fn events_run_in_time_then_insertion_order() {
    let mut sim = Simulator::new(1, 0, 0, 0, 0..0, 5);
    sim.enqueue_external(ExternalEvent::Crash(ActorId::Node(NodeId(0))), 5);
    sim.enqueue_external(ExternalEvent::TickAll, 3);
    sim.enqueue_external(ExternalEvent::Recover(ActorId::Node(NodeId(0))), 5);
    run(&mut sim);
    assert_eq!(
        sim.log(),
        &[
            LogEntry::ExternalEvent { at: 3, event: ExternalEvent::TickAll },
            LogEntry::ExternalEvent { at: 5, event: ExternalEvent::Crash(ActorId::Node(NodeId(0))) },
            LogEntry::ExternalEvent { at: 5, event: ExternalEvent::Recover(ActorId::Node(NodeId(0))) },
        ]
    );
}

#[test]
fn step_on_empty_queue_reports_false() {
    let mut sim = Simulator::new(2, 0, 0, 0, 0..0, 5);
    assert!(!sim.step());
    assert!(sim.is_quiescent());
    assert!(sim.drain(10));
    assert!(sim.log().is_empty());
}

#[test]
fn participant_abort_vote_forces_abort() {
    let mut sim = Simulator::new(2, 9, 0, PROBABILITY_SCALE, 0..0, 5);
    sim.enqueue_external(ExternalEvent::StartTransaction, 0);
    run(&mut sim);
    sim.drain(50);
    assert_eq!(sim.coordinator().decision(), Some(Decision::Abort));
    let votes: BTreeMap<u8, Vote> = sim.observations().votes().clone();
    assert!(votes.values().all(|v| *v == Vote::Abort));
    assert_actor_safety(&sim);
}

#[test]
fn crashed_coordinator_ignores_start_transaction() {
    let mut sim = Simulator::new(2, 4, 0, 0, 0..0, 5);
    sim.enqueue_external(ExternalEvent::Crash(ActorId::Coordinator), 0);
    sim.enqueue_external(ExternalEvent::StartTransaction, 1);
    run(&mut sim);
    assert_eq!(sim.coordinator().phase(), &CoordinatorPhase::Waiting);
    assert!(!sim.log().iter().any(|e| matches!(e, LogEntry::Send { .. })));
    assert!(sim.participants().values().all(|p| p.vote().is_none()));
    assert!(sim.is_quiescent());
}

#[test]
fn drain_of_quiescent_simulator_returns_at_once() {
    let mut sim = Simulator::new(2, 0, 0, 0, 0..0, 5);
    assert!(sim.is_quiescent());
    assert!(sim.drain(0));
    assert!(sim.log().is_empty());
    assert!(sim.drain(7));
    assert!(sim.log().is_empty());
}

#[test]
fn drain_with_no_rounds_leaves_pending_work() {
    let mut sim = Simulator::new(2, 0, 0, 0, 0..0, 5);
    sim.enqueue_external(ExternalEvent::StartTransaction, 0);
    assert!(!sim.drain(0));
    assert!(sim.log().is_empty());
    assert!(!sim.is_quiescent());
}

#[test]
fn drain_true_ends_with_quiet_probes_or_quiescence() {
    // With a retransmit timeout longer than the probe run, the coordinator
    // waits for a lost vote longer than drain probes for.
    let mut sim = Simulator::new(2, 6, 0, 0, 0..0, 100);
    sim.enqueue_external(ExternalEvent::Crash(ActorId::Node(NodeId(1))), 0);
    sim.enqueue_external(ExternalEvent::StartTransaction, 0);
    run(&mut sim);
    let before = sim.log().len();
    assert!(sim.drain(50));
    assert!(!sim.is_quiescent());
    let log = sim.log();
    assert!(log.len() >= before + 12);
    assert!(log[log.len() - 12..]
        .iter()
        .all(|e| matches!(e, LogEntry::ExternalEvent { event: ExternalEvent::TickAll, .. })));
    // The probes are one tick apart.
    let times: Vec<u64> = log[log.len() - 12..]
        .iter()
        .map(|e| match e {
            LogEntry::ExternalEvent { at, .. } => *at,
            _ => unreachable!(),
        })
        .collect();
    assert!(times.windows(2).all(|w| w[1] == w[0] + 1));
}

#[test]
fn quiescent_simulation_has_every_participant_decided() {
    for seed in 0..20u64 {
        let mut sim = Simulator::new(3, seed, 0, 300_000, 0..4, 5);
        sim.enqueue_external(ExternalEvent::StartTransaction, 0);
        run(&mut sim);
        assert!(sim.drain(200));
        assert!(sim.is_quiescent());
        assert!(matches!(sim.coordinator().phase(), CoordinatorPhase::Done(_)));
        let decision = sim.coordinator().decision();
        assert!(decision.is_some());
        assert!(sim.participants().values().all(|p| p.decision() == decision));
    }
}

#[test]
fn commit_decision_has_every_node_commit_vote_on_record() {
    let mut sim = Simulator::new(3, 2, 0, 0, 0..3, 5);
    sim.enqueue_external(ExternalEvent::StartTransaction, 0);
    run(&mut sim);
    assert!(sim.drain(100));
    assert_eq!(sim.observations().coordinator_decision(), Some(Decision::Commit));
    for node in sim.coordinator().nodes() {
        assert_eq!(sim.observations().votes().get(&node.0), Some(&Vote::Commit));
    }
}

#[test]
fn recovered_coordinator_retransmits_prepare_on_next_tick() {
    // The coordinator crashes right after sending Prepare, so the votes
    // arriving at time 2 are dropped; it recovers at time 3, before a
    // retransmit timeout has passed since time 0, and the TickAll at time 4
    // retransmits Prepare to every node.
    let mut sim = Simulator::new(2, 1, 0, 0, 1..2, 5);
    sim.enqueue_external(ExternalEvent::StartTransaction, 0);
    sim.enqueue_external(ExternalEvent::Crash(ActorId::Coordinator), 0);
    sim.enqueue_external(ExternalEvent::Recover(ActorId::Coordinator), 3);
    sim.enqueue_external(ExternalEvent::TickAll, 4);
    run(&mut sim);
    let drops = sim.log().iter().filter(|e| matches!(e, LogEntry::Drop { at: 2, .. })).count();
    assert_eq!(drops, 2);
    let prepares_at_4 = sim
        .log()
        .iter()
        .filter(|e| matches!(e, LogEntry::Send { at: 4, msg, .. } if msg.message_type == MessageType::Prepare))
        .count();
    assert_eq!(prepares_at_4, 2);
    assert!(sim.drain(100));
    assert!(sim.all_decided());
}

/// A small deterministic generator for test inputs.
struct Inputs(u64);

impl Inputs {
    fn next(&mut self, bound: u64) -> u64 {
        self.0 = self.0.wrapping_mul(6364136223846793005).wrapping_add(1442695040888963407);
        (self.0 >> 33) % bound
    }
}

#[test]
fn termination_without_crashes() {
    for case in 0..60u64 {
        let mut inputs = Inputs(case);
        let n = 1 + inputs.next(4) as u8;
        let delay = inputs.next(11);
        let mut sim = Simulator::new(n, case * 7919, 0, 500_000, 0..delay, 5);
        sim.enqueue_external(ExternalEvent::StartTransaction, 0);
        let mut time: u64 = 0;
        for _ in 0..1 + inputs.next(30) {
            time += inputs.next(11);
            sim.enqueue_external(ExternalEvent::TickAll, time);
        }
        run(&mut sim);
        sim.drain(time as usize + 100);
        assert!(sim.participants().values().all(|p| p.decision().is_some()), "case {case}");
        assert_actor_safety(&sim);
    }
}

#[test]
fn termination_after_crashes_and_recovery() {
    for case in 0..60u64 {
        let mut inputs = Inputs(case + 1000);
        let n = 1 + inputs.next(4) as u8;
        let delay = inputs.next(11);
        let mut sim = Simulator::new(n, case * 104729, 0, 500_000, 0..delay, 5);
        sim.enqueue_external(ExternalEvent::StartTransaction, 0);
        let mut time: u64 = 0;
        for _ in 0..1 + inputs.next(40) {
            time += 1;
            let action = inputs.next(31) as u8;
            let event = match action {
                0..=20 => ExternalEvent::TickAll,
                21..=24 => ExternalEvent::Crash(ActorId::Node(NodeId((action - 21) % n))),
                25..=28 => ExternalEvent::Recover(ActorId::Node(NodeId((action - 25) % n))),
                29 => ExternalEvent::Crash(ActorId::Coordinator),
                _ => ExternalEvent::Recover(ActorId::Coordinator),
            };
            sim.enqueue_external(event, time);
        }
        time += 1;
        sim.enqueue_external(ExternalEvent::Recover(ActorId::Coordinator), time);
        for i in 0..n {
            time += 1;
            sim.enqueue_external(ExternalEvent::Recover(ActorId::Node(NodeId(i))), time);
        }
        run(&mut sim);
        sim.drain(time as usize + 200);
        assert!(sim.participants().values().all(|p| p.decision().is_some()), "case {case}");
        assert_actor_safety(&sim);
    }
}

#[test]
fn crash_free_run_empties_queue_only_when_done() {
    for case in 0..40u64 {
        let mut inputs = Inputs(case + 5000);
        let n = 1 + inputs.next(4) as u8;
        let delay = inputs.next(11);
        let mut sim = Simulator::new(n, case, 100_000, 300_000, 0..delay, 5);
        sim.enqueue_external(ExternalEvent::StartTransaction, 0);
        let mut time: u64 = 0;
        for _ in 0..inputs.next(20) {
            time += inputs.next(6);
            sim.enqueue_external(ExternalEvent::TickAll, time);
        }
        run(&mut sim);
        // No drain: with no crash, an empty queue already means completion.
        assert!(matches!(sim.coordinator().phase(), CoordinatorPhase::Done(_)), "case {case}");
        let decision = sim.coordinator().decision();
        assert!(sim.participants().values().all(|p| p.decision() == decision), "case {case}");
        assert!(sim.is_quiescent());
    }
}

/// The timeline line of `entry`, written with `format!`.
fn expected_line(entry: &LogEntry) -> String {
    fn actor(a: ActorId) -> String {
        match a {
            ActorId::Coordinator => "Coordinator".to_string(),
            ActorId::Node(id) => format!("Node({})", id.0),
        }
    }
    match entry {
        LogEntry::ExternalEvent { at, event } => format!("t={at:<4} [Event]   {event:?}"),
        LogEntry::Deliver { at, msg } => {
            format!("t={at:<4} [Deliver] {} → {}: {:?}", actor(msg.from), actor(msg.to), msg.message_type)
        }
        LogEntry::Send { at, deliver_at, msg } => format!(
            "t={at:<4} [Send]    {} → {}: {:?} (deliver@{deliver_at})",
            actor(msg.from),
            actor(msg.to),
            msg.message_type
        ),
        LogEntry::Drop { at, msg } => {
            format!("t={at:<4} [Drop]    {} → {}: {:?}", actor(msg.from), actor(msg.to), msg.message_type)
        }
    }
}

#[test]
fn timeline_lines_match_their_format() {
    let mut sim = Simulator::new(3, 17, 0, 400_000, 0..1500, 5);
    sim.enqueue_external(ExternalEvent::StartTransaction, 0);
    sim.enqueue_external(ExternalEvent::Crash(ActorId::Node(NodeId(2))), 3);
    sim.enqueue_external(ExternalEvent::Tick { to: ActorId::Coordinator }, 7);
    sim.enqueue_external(ExternalEvent::Tick { to: ActorId::Node(NodeId(1)) }, 99);
    sim.enqueue_external(ExternalEvent::Recover(ActorId::Node(NodeId(2))), 1200);
    sim.enqueue_external(ExternalEvent::Crash(ActorId::Coordinator), 12345);
    sim.enqueue_external(ExternalEvent::Recover(ActorId::Coordinator), 12346);
    sim.enqueue_external(ExternalEvent::TickAll, 12347);
    run(&mut sim);
    assert!(sim.log().len() > 10);
    for entry in sim.log() {
        assert_eq!(entry.text(), expected_line(entry));
    }
    let expected: Vec<String> = sim.log().iter().map(expected_line).collect();
    assert_eq!(sim.format_log(), expected.join("\n"));
}

#[test]
fn timeline_of_a_one_node_commit() {
    let mut sim = Simulator::new(1, 0, 0, 0, 0..0, 5);
    sim.enqueue_external(ExternalEvent::StartTransaction, 0);
    run(&mut sim);
    let text = sim.format_log();
    let lines: Vec<&str> = text.lines().collect();
    assert_eq!(lines[0], "t=0    [Event]   StartTransaction");
    assert_eq!(lines[1], "t=0    [Send]    Coordinator → Node(0): Prepare (deliver@0)");
    assert_eq!(lines[2], "t=0    [Deliver] Coordinator → Node(0): Prepare");
    assert_eq!(lines[3], "t=0    [Send]    Node(0) → Coordinator: VoteCommit (deliver@0)");
    assert_eq!(lines.len(), sim.log().len());
    assert_eq!(Simulator::new(1, 0, 0, 0, 0..0, 5).format_log(), "");
}

#[test]
fn recovery_then_due_tick_then_run_decides() {
    // The coordinator crashes before the votes arrive, so they are dropped
    // and the run comes to rest with the coordinator recovered in Voting.
    let mut sim = Simulator::new(3, 4, 0, 0, 1..3, 5);
    sim.enqueue_external(ExternalEvent::StartTransaction, 0);
    sim.enqueue_external(ExternalEvent::Crash(ActorId::Coordinator), 1);
    sim.enqueue_external(ExternalEvent::Recover(ActorId::Coordinator), 20);
    run(&mut sim);
    assert!(matches!(sim.coordinator().phase(), CoordinatorPhase::Voting { .. }));
    assert!(!sim.all_decided());
    // Recovery made the coordinator due: one tick, then a run, decides all.
    sim.enqueue_external(ExternalEvent::TickAll, 21);
    run(&mut sim);
    assert_eq!(sim.coordinator().phase(), &CoordinatorPhase::Done(Decision::Commit));
    assert!(sim.participants().values().all(|p| p.decision() == Some(Decision::Commit)));
    assert!(sim.is_quiescent());
}

#[test]
fn drain_after_recovery_decides() {
    // Node 1 is down when the Prepare reaches it; once it is back and the
    // queue is empty, the probes of drain reach the retransmit timeout.
    let mut sim = Simulator::new(3, 4, 0, 0, 1..3, 5);
    sim.enqueue_external(ExternalEvent::StartTransaction, 0);
    sim.enqueue_external(ExternalEvent::Crash(ActorId::Node(NodeId(1))), 0);
    sim.enqueue_external(ExternalEvent::Recover(ActorId::Node(NodeId(1))), 10);
    run(&mut sim);
    assert!(matches!(sim.coordinator().phase(), CoordinatorPhase::Voting { .. }));
    assert!(!sim.all_decided());
    assert!(sim.drain(100));
    assert_eq!(sim.coordinator().phase(), &CoordinatorPhase::Done(Decision::Commit));
    assert!(sim.participants().values().all(|p| p.decision() == Some(Decision::Commit)));
}
