//! Discrete-event simulator for the 2PC protocol.
//!
//! Events live in a priority queue ordered by timestamp. On each
//! [`step`](Simulator::step):
//!
//! 1. The earliest event is popped and the clock advances to its timestamp.
//! 2. The event is dispatched to the appropriate actor.
//! 3. Any messages returned by the actor are enqueued as `Deliver` events at
//!    `clock + delay`, the delay drawn from `delivery_delay` (zero for an
//!    empty range: the message arrives at the current time).
//! 4. The safety invariants are checked, and proved to hold.
//!
//! `Crash(id)` marks an actor as crashed; messages delivered to it are
//! dropped. `Recover(id)` calls the actor's `recover` and marks it operating.
//!
//! [`run`](Simulator::run) processes events until the queue is empty, which
//! it always reaches. After all external events have been processed,
//! [`drain`](Simulator::drain) probes for quiescence by injecting `TickAll`
//! events and checking whether any actor produces new messages.
//! [`format_log`](Simulator::format_log) gives the event log as a timeline.
pub mod event;
pub mod laws;
pub mod model;
pub mod progress;
pub mod properties;
mod safety;
pub mod termination;
pub mod timeline;

pub use event::ExternalEvent;
use event::{Event, EventQueue, InternalEvent, TimestampedEvent};
use laws::lemma_safe_observations;
use model::{
    after_all_sent, ends_with_probes, node_range, participant_models, SimulatorModel, MAX_SENDS_PER_STEP,
    QUIESCENCE_THRESHOLD,
};
use properties::{check_all_invariants, Observations, ObservationsModel};

use crate::coordinator::{coordinator_step, coordinator_tick, Coordinator};
use crate::participant::{participant_step, Participant};
use crate::rng::{random_in_range, random_u64, seeded_rng, word_outcome, Draw, GeneratorModel};
use crate::state_machine::StateMachine;
use crate::types::{ActorId, Message, MessageType, NodeId};
use crate::rng::SeededRng;
use std::collections::BTreeMap;
use std::ops::Range;
use vstd::prelude::*;

verus! {

broadcast use vstd::laws_cmp::group_laws_cmp;

/// Whether a protocol actor is currently operating or has crashed.
#[derive(Debug, Clone, Copy, PartialEq, Eq, Structural)]
enum ActorStatus {
    Operating,
    Crashed,
}

/// A record of something that happened during simulation.
#[derive(Debug, Clone, Copy, PartialEq, Eq, Structural)]
pub enum LogEntry {
    /// An external event was processed.
    ExternalEvent { at: u64, event: ExternalEvent },
    /// A message was delivered to an actor and processed.
    Deliver { at: u64, msg: Message },
    /// A message was enqueued for future delivery.
    Send { at: u64, deliver_at: u64, msg: Message },
    /// A message was dropped because the recipient had crashed.
    Drop { at: u64, msg: Message },
}

/// Discrete-event simulator that drives the 2PC protocol actors.
pub struct Simulator {
    coordinator: Coordinator,
    participants: BTreeMap<u8, Participant>,
    coordinator_status: ActorStatus,
    node_status: BTreeMap<u8, ActorStatus>,
    event_queue: EventQueue,
    /// Simulated wall-clock time, advanced to the timestamp of each event.
    clock: u64,
    rng: SeededRng,
    /// Random delay added to each message delivery. An empty range means
    /// zero delay.
    delivery_delay: Range<u64>,
    /// Wire-level observations collected for property checking.
    observations: Observations,
    /// Append-only record of every event processed and message sent.
    action_log: Vec<LogEntry>,
}


/// `k` draws of a `u64`.
pub open spec fn word_draws(k: int) -> Seq<Draw> {
    Seq::new(k as nat, |i: int| Draw::Word)
}

impl Simulator {
    /// The generator behind the delivery delays.
    pub closed spec fn generator(&self) -> GeneratorModel {
        self.rng@
    }

    /// The coordinator's generator.
    pub closed spec fn coordinator_generator(&self) -> GeneratorModel {
        self.coordinator.generator()
    }

    /// Participant `k`'s generator.
    pub closed spec fn participant_generator(&self, k: u8) -> GeneratorModel {
        self.participants@[k].generator()
    }
}

impl View for Simulator {
    type V = SimulatorModel;

    closed spec fn view(&self) -> SimulatorModel {
        SimulatorModel {
            coordinator: self.coordinator@,
            participants: participant_models(self.participants@),
            coordinator_crashed: self.coordinator_status == ActorStatus::Crashed,
            crashed_nodes: Set::new(|k: u8| self.node_status@.contains_key(k) && self.node_status@[k] == ActorStatus::Crashed),
            pending: self.event_queue@.pending,
            next_sequence_number: self.event_queue@.next_sequence_number,
            clock: self.clock,
            delay_start: self.delivery_delay.start,
            delay_end: self.delivery_delay.end,
            observations: self.observations@,
            log: self.action_log@,
        }
    }
}


/// Replacing a participant replaces its abstract state.
proof fn lemma_models_insert(participants: Map<u8, Participant>, id: u8, p: Participant)
    ensures
        participant_models(participants.insert(id, p)) == participant_models(participants).insert(id, p@),
{
    assert(participant_models(participants.insert(id, p)) =~= participant_models(participants).insert(id, p@));
}





impl Simulator {
    /// Create a simulator with `n_participants` participant nodes, numbered
    /// from 0.
    ///
    /// - `seed`: seed of the simulator's generator, which also seeds each actor.
    /// - `abort_bias`: the coordinator's probability (in millionths) of
    ///   aborting despite unanimous Commit votes.
    /// - `participant_abort_bias`: each participant's probability (in
    ///   millionths) of voting Abort.
    /// - `delivery_delay`: range of the random delay added to each message
    ///   (an empty range means none).
    /// - `retransmit_timeout`: ticks before the coordinator retransmits.
    pub fn new(
        n_participants: u8,
        seed: u64,
        abort_bias: u32,
        participant_abort_bias: u32,
        delivery_delay: Range<u64>,
        retransmit_timeout: u64,
    ) -> (sim: Self)
        ensures
            sim@.safe(),
            sim@.progressing(),
            sim@.coordinator.nodes == node_range(n_participants as nat),
            sim@.coordinator.phase is Waiting,
            sim@.coordinator.durable_decision.is_none(),
            sim@.coordinator.abort_bias == abort_bias,
            sim@.coordinator.retransmit_timeout == retransmit_timeout,
            forall|k: u8| #[trigger] sim@.participants.contains_key(k) <==> k < n_participants,
            forall|k: u8| k < n_participants ==> (#[trigger] sim@.participants[k]).phase is Waiting
                && sim@.participants[k].durable_vote.is_none()
                && sim@.participants[k].durable_decision.is_none()
                && sim@.participants[k].abort_bias == participant_abort_bias,
            !sim@.coordinator_crashed,
            sim@.crashed_nodes == Set::<u8>::empty(),
            sim@.pending == Seq::<TimestampedEvent>::empty(),
            sim@.next_sequence_number == 0,
            sim@.clock == 0,
            sim@.delay_start == delivery_delay.start,
            sim@.delay_end == delivery_delay.end,
            sim@.observations == ObservationsModel::empty(),
            sim@.log == Seq::<LogEntry>::empty(),
            sim.generator() == (GeneratorModel { seed, draws: word_draws(n_participants + 1) }),
            sim.coordinator_generator() == (GeneratorModel { seed: word_outcome(seed, word_draws(0)), draws: Seq::empty() }),
            forall|k: u8| k < n_participants ==> #[trigger] sim.participant_generator(k) == (GeneratorModel {
                seed: word_outcome(seed, word_draws(k + 1)),
                draws: Seq::empty(),
            }),
    {
        let mut rng = seeded_rng(seed);
        let mut nodes: Vec<NodeId> = Vec::new();
        let mut i: u8 = 0;
        while i < n_participants
            invariant
                i <= n_participants,
                nodes@ == node_range(i as nat),
            decreases n_participants - i,
        {
            nodes.push(NodeId(i));
            i = i + 1;
            assert(nodes@ == node_range(i as nat));
        }
        assert(rng@.draws =~= word_draws(0));
        let coordinator_seed = random_u64(&mut rng);
        assert(rng@.draws =~= word_draws(1));
        let coordinator = Coordinator::new(nodes.clone(), coordinator_seed, abort_bias, retransmit_timeout);
        let mut participants: BTreeMap<u8, Participant> = BTreeMap::new();
        let mut node_status: BTreeMap<u8, ActorStatus> = BTreeMap::new();
        let mut j: usize = 0;
        while j < nodes.len()
            invariant
                nodes@ == node_range(n_participants as nat),
                j <= nodes@.len(),
                participants@.dom() == Set::new(|k: u8| k < j),
                participants@.dom().finite(),
                participants@.dom().len() == j,
                forall|k: u8| #[trigger] participants@.contains_key(k) ==> {
                    let m = participants@[k]@;
                    &&& m.id == NodeId(k)
                    &&& m.phase is Waiting
                    &&& m.durable_vote.is_none()
                    &&& m.durable_decision.is_none()
                    &&& m.abort_bias == participant_abort_bias
                },
                forall|k: u8| #[trigger] node_status@.contains_key(k) ==> node_status@[k] == ActorStatus::Operating,
                rng@ == (GeneratorModel { seed, draws: word_draws(j + 1) }),
                coordinator.generator() == (GeneratorModel { seed: word_outcome(seed, word_draws(0)), draws: Seq::empty() }),
                forall|k: u8| #[trigger] participants@.contains_key(k) ==> participants@[k].generator() == (GeneratorModel {
                    seed: word_outcome(seed, word_draws(k + 1)),
                    draws: Seq::empty(),
                }),
            decreases nodes@.len() - j,
        {
            let node_id = nodes[j];
            let participant_seed = random_u64(&mut rng);
            assert(rng@.draws =~= word_draws(j + 2));
            assert(node_id.0 == j);
            assert(!participants@.dom().contains(node_id.0));
            participants.insert(node_id.0, Participant::new(node_id, participant_seed, participant_abort_bias));
            node_status.insert(node_id.0, ActorStatus::Operating);
            j = j + 1;
            assert(participants@.dom() == Set::new(|k: u8| k < j));
        }
        let sim = Simulator {
            coordinator,
            participants,
            coordinator_status: ActorStatus::Operating,
            node_status,
            event_queue: EventQueue::new(),
            clock: 0,
            rng,
            delivery_delay,
            observations: Observations::new(),
            action_log: Vec::new(),
        };
        proof {
            assert(sim@.crashed_nodes =~= Set::<u8>::empty());
            assert forall|k: u8| #[trigger] sim@.participants.contains_key(k) <==> k < n_participants by {
                assert(participants@.dom().contains(k) <==> k < n_participants);
            }
            assert(sim@.participants.dom() =~= participants@.dom());
            assert forall|k: u8| k < n_participants implies #[trigger] sim.participant_generator(k) == (GeneratorModel {
                seed: word_outcome(seed, word_draws(k + 1)),
                draws: Seq::empty(),
            }) by {
                assert(participants@.dom().contains(k));
            }
            assert forall|k: u8| k < n_participants implies (#[trigger] sim@.participants[k]).phase is Waiting
                && sim@.participants[k].durable_vote.is_none()
                && sim@.participants[k].durable_decision.is_none()
                && sim@.participants[k].abort_bias == participant_abort_bias by {
                assert(participants@.dom().contains(k));
                assert(sim@.participants[k] == participants@[k]@);
            }
        }
        sim
    }

    /// Whether `actor` is operating: only an actor marked crashed is not.
    fn is_operating(&self, actor: ActorId) -> (operating: bool)
        ensures
            operating == match actor {
                ActorId::Coordinator => !self@.coordinator_crashed,
                ActorId::Node(id) => !self@.crashed_nodes.contains(id.0),
            },
    {
        match actor {
            ActorId::Coordinator => match self.coordinator_status {
                ActorStatus::Crashed => false,
                ActorStatus::Operating => true,
            },
            ActorId::Node(id) => match self.node_status.get(&id.0) {
                Some(ActorStatus::Crashed) => false,
                _ => true,
            },
        }
    }

    /// Schedule an external event for `at_time`. External events are not
    /// subject to delivery delay.
    pub fn enqueue_external(&mut self, event: ExternalEvent, at_time: u64)
        requires
            old(self)@.next_sequence_number < u64::MAX,
        ensures
            final(self)@ == (SimulatorModel {
                pending: old(self)@.pending.push(TimestampedEvent {
                    timestamp: at_time,
                    sequence_number: old(self)@.next_sequence_number,
                    event: Event::External(event),
                }),
                next_sequence_number: (old(self)@.next_sequence_number + 1) as u64,
                ..old(self)@
            }),
            old(self)@.safe() ==> final(self)@.safe(),
            old(self)@.progressing() ==> final(self)@.progressing(),
            old(self)@.durable_kept(final(self)@),
            final(self)@.latest() == if old(self)@.latest() < at_time { at_time as int } else { old(self)@.latest() },
    {
        self.event_queue.insert(at_time, Event::External(event));
        proof {
            assert(self@.pending.drop_last() =~= old(self)@.pending);
            let o = old(self)@;
            let n = self@;
            if o.safe() {
                assert forall|i: int| 0 <= i < n.pending.len() implies n.event_ok(#[trigger] n.pending[i].event) by {
                    if i < o.pending.len() {
                        assert(o.event_ok(o.pending[i].event));
                    }
                }
            }
            if o.progressing() {
                progress::lemma_queued_progressing(o, n);
            }
        }
    }

    /// The coordinator.
    pub fn coordinator(&self) -> (c: &Coordinator)
        ensures
            c@ == self@.coordinator,
    {
        &self.coordinator
    }

    /// The participants, by node number.
    pub fn participants(&self) -> (p: &BTreeMap<u8, Participant>)
        ensures
            participant_models(p@) == self@.participants,
    {
        &self.participants
    }

    /// Wire-level observations collected during this simulation.
    pub fn observations(&self) -> (o: &Observations)
        ensures
            o@ == self@.observations,
    {
        &self.observations
    }

    /// Whether every participant managed by the coordinator has received a
    /// decision.
    pub fn all_decided(&self) -> (all: bool)
        ensures
            all == forall|i: int| 0 <= i < self@.coordinator.nodes.len()
                ==> #[trigger] self@.observations.participant_decisions.contains_key(self@.coordinator.nodes[i].0),
    {
        properties::all_decided(&self.observations, self.coordinator.nodes())
    }

    /// Append-only record of every event processed during this simulation.
    pub fn log(&self) -> (log: &[LogEntry])
        ensures
            log@ == self@.log,
    {
        self.action_log.as_slice()
    }
}

/// A bound on the clock and on every pending timestamp bounds the latest
/// time reached.
proof fn lemma_latest_bound(m: SimulatorModel, bound: int)
    requires
        0 <= bound,
        m.clock <= bound,
        forall|j: int| 0 <= j < m.pending.len() ==> #[trigger] m.pending[j].timestamp <= bound,
    ensures
        m.latest() <= bound,
{
    safety::lemma_max_timestamp_least(m.pending, bound);
}


impl Simulator {
    /// Deliver `msg` to participant `id`, if there is one.
    fn deliver_to_participant(&mut self, id: u8, msg: &Message) -> (out: Vec<Message>)
        requires
            old(self)@.safe(),
            old(self)@.sendable(*msg),
        ensures
            final(self)@.safe(),
            old(self)@.durable_kept(final(self)@),
            forall|x: Message| #[trigger] old(self)@.sendable(x) ==> final(self)@.sendable(x),
            forall|i: int| 0 <= i < out@.len() ==> final(self)@.sendable(#[trigger] out@[i]),
            out@.len() <= 1,
            old(self)@.participants.contains_key(id) ==> exists|coin: bool| {
                &&& #[trigger] old(self)@.participants[id].coin_possible(coin)
                &&& final(self)@ == old(self)@.with_participant(id, participant_step(old(self)@.participants[id], *msg, coin).0)
                &&& out@ == participant_step(old(self)@.participants[id], *msg, coin).1
            },
            !old(self)@.participants.contains_key(id) ==> final(self)@ == old(self)@ && out@.len() == 0,
    {
        let ghost e = self.participants@;
        match self.participants.remove(&id) {
            Some(mut p) => {
                let out = p.on_message(msg, self.clock);
                let ghost coin = choose|c: bool| e[id]@.coin_possible(c) && (p@, out@) == participant_step(e[id]@, *msg, c);
                self.participants.insert(id, p);
                proof {
                    assert(e.remove(id).insert(id, p) == e.insert(id, p));
                    lemma_models_insert(e, id, p);
                    assert(old(self)@.participants[id] == e[id]@);
                    safety::lemma_participant_update(old(self)@, id, *msg, coin);
                }
                out
            },
            None => {
                proof {
                    assert(e.remove(id) =~= e);
                    assert(self@ == old(self)@);
                }
                Vec::new()
            },
        }
    }

    /// Tick participant `id`, if there is one. Participants never send
    /// anything spontaneously.
    fn tick_participant(&mut self, id: u8) -> (out: Vec<Message>)
        ensures
            final(self)@ == old(self)@,
            out@.len() == 0,
    {
        let ghost e = self.participants@;
        match self.participants.remove(&id) {
            Some(mut p) => {
                let out = p.tick(self.clock);
                self.participants.insert(id, p);
                proof {
                    assert(e.remove(id).insert(id, p) == e.insert(id, p));
                    lemma_models_insert(e, id, p);
                    assert(participant_models(e).insert(id, p@) =~= participant_models(e));
                }
                out
            },
            None => {
                proof {
                    assert(e.remove(id) =~= e);
                }
                Vec::new()
            },
        }
    }

    /// Recover participant `id` from its durable state, if there is one.
    fn recover_participant(&mut self, id: u8)
        requires
            old(self)@.safe(),
        ensures
            final(self)@ == old(self)@,
    {
        let ghost e = self.participants@;
        match self.participants.remove(&id) {
            Some(mut p) => {
                p.recover(self.clock);
                self.participants.insert(id, p);
                proof {
                    assert(e.remove(id).insert(id, p) == e.insert(id, p));
                    lemma_models_insert(e, id, p);
                    assert(old(self)@.participants[id] == e[id]@);
                    safety::lemma_participant_recover(old(self)@, id);
                }
            },
            None => {
                proof {
                    assert(e.remove(id) =~= e);
                }
            },
        }
    }

    /// Deliver `msg` to the coordinator.
    fn deliver_to_coordinator(&mut self, msg: &Message) -> (out: Vec<Message>)
        requires
            old(self)@.safe(),
            old(self)@.deliverable(*msg),
        ensures
            final(self)@.safe(),
            old(self)@.durable_kept(final(self)@),
            forall|x: Message| #[trigger] old(self)@.sendable(x) ==> final(self)@.sendable(x),
            forall|i: int| 0 <= i < out@.len() ==> final(self)@.sendable(#[trigger] out@[i]),
            out@.len() <= 2 * old(self)@.coordinator.nodes.len(),
            exists|spontaneous: bool, coin: bool| {
                &&& #[trigger] old(self)@.coordinator.spontaneous_coin_possible(spontaneous)
                &&& #[trigger] old(self)@.coordinator.decide_coin_possible(coin)
                &&& final(self)@ == old(self)@.with_coordinator(coordinator_step(old(self)@.coordinator, *msg, old(self)@.clock, spontaneous, coin).0)
                &&& out@ == coordinator_step(old(self)@.coordinator, *msg, old(self)@.clock, spontaneous, coin).1
            },
    {
        let out = self.coordinator.on_message(msg, self.clock);
        proof {
            let (sp, c) = choose|sp: bool, c: bool| old(self)@.coordinator.spontaneous_coin_possible(sp)
                && old(self)@.coordinator.decide_coin_possible(c)
                && (self.coordinator@, out@) == coordinator_step(old(self)@.coordinator, *msg, old(self)@.clock, sp, c);
            safety::lemma_coordinator_step_update(old(self)@, *msg, old(self)@.clock, sp, c);
        }
        out
    }

    /// Tick the coordinator.
    fn tick_coordinator(&mut self) -> (out: Vec<Message>)
        requires
            old(self)@.safe(),
        ensures
            final(self)@.safe(),
            old(self)@.durable_kept(final(self)@),
            forall|x: Message| #[trigger] old(self)@.sendable(x) ==> final(self)@.sendable(x),
            forall|i: int| 0 <= i < out@.len() ==> final(self)@.sendable(#[trigger] out@[i]),
            out@.len() <= old(self)@.coordinator.nodes.len(),
            exists|spontaneous: bool| {
                &&& #[trigger] old(self)@.coordinator.spontaneous_coin_possible(spontaneous)
                &&& final(self)@ == old(self)@.with_coordinator(coordinator_tick(old(self)@.coordinator, old(self)@.clock, spontaneous).0)
                &&& out@ == coordinator_tick(old(self)@.coordinator, old(self)@.clock, spontaneous).1
            },
    {
        let out = self.coordinator.tick(self.clock);
        proof {
            let sp = choose|sp: bool| old(self)@.coordinator.spontaneous_coin_possible(sp)
                && (self.coordinator@, out@) == coordinator_tick(old(self)@.coordinator, old(self)@.clock, sp);
            safety::lemma_coordinator_tick_update(old(self)@, old(self)@.clock, sp);
        }
        out
    }
}

impl Simulator {
    /// Record each outgoing message as sent, then queue its delivery at
    /// `clock + delay`, the delay drawn from the delivery-delay range (zero
    /// when the range is empty).
    fn enqueue_outgoing(&mut self, messages: Vec<Message>)
        requires
            old(self)@.safe(),
            forall|i: int| 0 <= i < messages@.len() ==> old(self)@.sendable(#[trigger] messages@[i]),
            old(self)@.clock + old(self)@.time_per_step() <= u64::MAX,
            old(self)@.next_sequence_number + messages@.len() <= u64::MAX,
        ensures
            final(self)@.safe(),
            old(self)@.durable_kept(final(self)@),
            old(self)@.sends(messages@, final(self)@),
    {
        let mut i: usize = 0;
        while i < messages.len()
            invariant
                i <= messages@.len(),
                self@.safe(),
                old(self)@.durable_kept(self@),
                self@ == (SimulatorModel { observations: after_all_sent(old(self)@.observations, messages@.take(i as int)), ..old(self)@ }),
                forall|j: int| 0 <= j < messages@.len() ==> old(self)@.sendable(#[trigger] messages@[j]),
                forall|j: int| 0 <= j < i ==> self@.deliverable(#[trigger] messages@[j]),
            decreases messages@.len() - i,
        {
            let ghost before = self@;
            proof {
                assert(self@.sendable(messages@[i as int]));
                safety::lemma_record_sent(self@, messages@[i as int]);
                assert(messages@.take(i + 1).drop_last() == messages@.take(i as int));
            }
            self.observations.record_sent(&messages[i]);
            proof {
                safety::lemma_durable_kept_trans(old(self)@, before, self@);
            }
            i = i + 1;
        }
        assert(messages@.take(i as int) == messages@);
        let ghost start = self@;
        assert(old(self)@.durable_kept(start));
        let mut j: usize = 0;
        while j < messages.len()
            invariant
                j <= messages@.len(),
                self@.safe(),
                start.safe(),
                old(self)@.durable_kept(start),
                start.clock + start.time_per_step() <= u64::MAX,
                start.next_sequence_number + messages@.len() <= u64::MAX,
                forall|k: int| 0 <= k < messages@.len() ==> start.deliverable(#[trigger] messages@[k]),
                self@ == (SimulatorModel {
                    pending: self@.pending,
                    next_sequence_number: (start.next_sequence_number + j) as u64,
                    log: self@.log,
                    ..start
                }),
                self@.pending.len() == start.pending.len() + j,
                self@.log.len() == start.log.len() + j,
                forall|k: int| 0 <= k < start.pending.len() ==> #[trigger] self@.pending[k] == start.pending[k],
                forall|k: int| 0 <= k < start.log.len() ==> #[trigger] self@.log[k] == start.log[k],
                forall|k: int| 0 <= k < j ==> {
                    let deliver_at = self@.pending[start.pending.len() + k].timestamp;
                    &&& start.delivery_time_ok(deliver_at)
                    &&& #[trigger] self@.pending[start.pending.len() + k] == TimestampedEvent {
                        timestamp: deliver_at,
                        sequence_number: (start.next_sequence_number + k) as u64,
                        event: Event::Internal(InternalEvent::Deliver { to: messages@[k].to, msg: messages@[k] }),
                    }
                    &&& self@.log[start.log.len() + k] == LogEntry::Send { at: start.clock, deliver_at, msg: messages@[k] }
                },
            decreases messages@.len() - j,
        {
            let msg = messages[j];
            let delay = if self.delivery_delay.start < self.delivery_delay.end {
                random_in_range(&mut self.rng, self.delivery_delay.start, self.delivery_delay.end)
            } else {
                0
            };
            let deliver_at = self.clock + delay;
            self.action_log.push(LogEntry::Send { at: self.clock, deliver_at, msg });
            proof {
                assert(start.deliverable(messages@[j as int]));
                assert(self@.deliverable(msg));
                safety::lemma_queue_delivery(self@, deliver_at, msg);
            }
            self.event_queue.insert(deliver_at, Event::Internal(InternalEvent::Deliver { to: msg.to, msg }));
            j = j + 1;
        }
        proof {
            safety::lemma_durable_kept_refl(start, self@);
            safety::lemma_durable_kept_trans(old(self)@, start, self@);
        }
    }
}

impl Simulator {
    /// Dispatch an external event.
    fn handle_external(&mut self, event: ExternalEvent) -> (out: Vec<Message>)
        requires
            old(self)@.safe(),
        ensures
            final(self)@.safe(),
            old(self)@.durable_kept(final(self)@),
            forall|i: int| 0 <= i < out@.len() ==> final(self)@.sendable(#[trigger] out@[i]),
            out@.len() <= 2 * old(self)@.coordinator.nodes.len(),
            old(self)@.handled_external(event, final(self)@, out@),
            final(self)@.coordinator.nodes == old(self)@.coordinator.nodes,
    {
        match event {
            ExternalEvent::StartTransaction => {
                if !self.is_operating(ActorId::Coordinator) {
                    Vec::new()
                } else {
                    let msg = Message {
                        message_type: MessageType::StartTransaction,
                        from: ActorId::Coordinator,
                        to: ActorId::Coordinator,
                    };
                    self.deliver_to_coordinator(&msg)
                }
            },
            ExternalEvent::Tick { to } => {
                if !self.is_operating(to) {
                    Vec::new()
                } else {
                    match to {
                        ActorId::Coordinator => self.tick_coordinator(),
                        ActorId::Node(id) => self.tick_participant(id.0),
                    }
                }
            },
            ExternalEvent::TickAll => {
                let mut out = if self.is_operating(ActorId::Coordinator) {
                    self.tick_coordinator()
                } else {
                    Vec::new()
                };
                let node_ids = crate::ordered::keys(&self.participants);
                let ghost after_coordinator = self@;
                let ghost out_coordinator = out@;
                let mut i: usize = 0;
                while i < node_ids.len()
                    invariant
                        self@ == after_coordinator,
                        out@ == out_coordinator,
                    decreases node_ids@.len() - i,
                {
                    let id = node_ids[i];
                    if self.is_operating(ActorId::Node(NodeId(id))) {
                        let mut ticked = self.tick_participant(id);
                        out.append(&mut ticked);
                        assert(out@ == out_coordinator);
                    }
                    i = i + 1;
                }
                out
            },
            ExternalEvent::Crash(actor) => {
                match actor {
                    ActorId::Coordinator => {
                        self.coordinator_status = ActorStatus::Crashed;
                    },
                    ActorId::Node(id) => {
                        self.node_status.insert(id.0, ActorStatus::Crashed);
                        assert(self@.crashed_nodes =~= old(self)@.crashed_nodes.insert(id.0));
                    },
                }
                Vec::new()
            },
            ExternalEvent::Recover(actor) => {
                let was_crashed = !self.is_operating(actor);
                match actor {
                    ActorId::Coordinator => {
                        self.coordinator_status = ActorStatus::Operating;
                    },
                    ActorId::Node(id) => {
                        self.node_status.insert(id.0, ActorStatus::Operating);
                        assert(self@.crashed_nodes =~= old(self)@.crashed_nodes.remove(id.0));
                    },
                }
                if was_crashed {
                    match actor {
                        ActorId::Coordinator => {
                            proof {
                                safety::lemma_coordinator_recover(self@, self@.clock);
                            }
                            self.coordinator.recover(self.clock);
                        },
                        ActorId::Node(id) => {
                            self.recover_participant(id.0);
                        },
                    }
                }
                Vec::new()
            },
        }
    }

    /// Process one event: pop the earliest, advance the clock to it,
    /// dispatch it, and queue what the actor sends. A message to a crashed
    /// actor is dropped. Returns `false` if the queue was empty.
    ///
    /// The safety invariants are checked after the event, and hold.
    pub fn step(&mut self) -> (progressed: bool)
        requires
            old(self)@.safe(),
            old(self)@.room_for_step(),
        ensures
            final(self)@.safe(),
            progressed == (old(self)@.pending.len() > 0),
            !progressed ==> final(self)@ == old(self)@,
            progressed ==> final(self)@.log.len() > old(self)@.log.len(),
            progressed ==> exists|i: int| #[trigger] old(self)@.is_earliest(i) && old(self)@.stepped(i, final(self)@),
            final(self)@.latest() <= old(self)@.latest() + old(self)@.time_per_step(),
            final(self)@.next_sequence_number <= old(self)@.next_sequence_number + MAX_SENDS_PER_STEP,
            final(self)@.delay_start == old(self)@.delay_start,
            final(self)@.delay_end == old(self)@.delay_end,
            final(self)@.coordinator.nodes == old(self)@.coordinator.nodes,
            old(self)@.log.is_prefix_of(final(self)@.log),
            old(self)@.durable_kept(final(self)@),
            old(self)@.progressing() ==> final(self)@.progressing(),
    {
        let ghost queue_before = self.event_queue@;
        let next = self.event_queue.next();
        let (timestamp, ev) = match next {
            None => {
                return false;
            },
            Some(x) => x,
        };
        let ghost i = choose|i: int| {
            &&& queue_before.is_earliest(i)
            &&& next == Some((queue_before.pending[i].timestamp, queue_before.pending[i].event))
            &&& self.event_queue@.pending == queue_before.pending.remove(i)
        };
        proof {
            assert(old(self)@.is_earliest(i));
            safety::lemma_take_event(old(self)@, i);
            safety::lemma_max_timestamp_bounds(old(self)@.pending);
        }
        self.clock = timestamp;
        let ghost taken = self@;
        assert(taken.safe());
        if let Event::Internal(InternalEvent::Deliver { msg, .. }) = ev {
            if !self.is_operating(msg.to) {
                self.action_log.push(LogEntry::Drop { at: self.clock, msg });
                proof {
                    let b = old(self)@.latest() + old(self)@.time_per_step();
                    assert forall|j: int| 0 <= j < self@.pending.len() implies #[trigger] self@.pending[j].timestamp <= b by {
                        assert(self@.pending[j] == old(self)@.pending.remove(i)[j]);
                        if j < i {
                            assert(self@.pending[j] == old(self)@.pending[j]);
                        } else {
                            assert(self@.pending[j] == old(self)@.pending[j + 1]);
                        }
                    }
                    lemma_latest_bound(self@, b);
                    if old(self)@.progressing() {
                        assert(old(self)@.stepped(i, self@));
                        progress::lemma_step_progressing(old(self)@, i, self@);
                    }
                }
                return true;
            }
        }
        let outgoing = match ev {
            Event::External(ext) => {
                self.action_log.push(LogEntry::ExternalEvent { at: self.clock, event: ext });
                self.handle_external(ext)
            },
            Event::Internal(InternalEvent::Deliver { to, msg }) => {
                self.action_log.push(LogEntry::Deliver { at: self.clock, msg });
                proof {
                    assert(old(self)@.event_ok(old(self)@.pending[i].event));
                    safety::lemma_record_delivered(self@, msg);
                }
                self.observations.record_delivered(&msg);
                match to {
                    ActorId::Coordinator => self.deliver_to_coordinator(&msg),
                    ActorId::Node(id) => self.deliver_to_participant(id.0, &msg),
                }
            },
        };
        let ghost before_send = self@;
        assert(before_send.pending == taken.pending);
        self.enqueue_outgoing(outgoing);
        let verdict = check_all_invariants(&self.observations);
        proof {
            lemma_safe_observations(self@);
            let b = old(self)@.latest() + old(self)@.time_per_step();
            assert forall|j: int| 0 <= j < self@.pending.len() implies #[trigger] self@.pending[j].timestamp <= b by {
                if j < taken.pending.len() {
                    assert(self@.pending[j] == taken.pending[j]);
                    assert(taken.pending[j] == old(self)@.pending.remove(i)[j]);
                    if j < i {
                        assert(taken.pending[j] == old(self)@.pending[j]);
                    } else {
                        assert(taken.pending[j] == old(self)@.pending[j + 1]);
                    }
                } else {
                    let k = j - taken.pending.len();
                    assert(self@.pending[before_send.pending.len() + k] == self@.pending[j]);
                    assert(before_send.delivery_time_ok(self@.pending[j].timestamp));
                }
            }
            lemma_latest_bound(self@, b);
            if old(self)@.progressing() {
                assert(old(self)@.stepped(i, self@));
                progress::lemma_step_progressing(old(self)@, i, self@);
            }
        }
        assert(verdict.is_ok());
        true
    }
}

/// Every participant holds the coordinator's decision, the coordinator
/// having completed; or the coordinator has not started.
pub open spec fn drain_decided(m: SimulatorModel) -> bool {
    ||| m.coordinator.phase is Waiting
    ||| m.coordinator.phase is Done && forall|k: u8| #[trigger] m.participants.contains_key(k)
        ==> m.participants[k].decision() is Some && m.participants[k].decision() == m.coordinator.decision()
}

/// Where a drain ends with nothing pending, settled or quiescent with the
/// coordinator operating, the protocol is over.
proof fn lemma_drain_result(end: SimulatorModel)
    requires
        end.safe(),
    ensures
        end.coordinator.nodes.len() > 0 && end.pending.len() == 0
            && (end.settled() || end.quiescent() && !end.coordinator_crashed) ==> drain_decided(end),
{
    if end.coordinator.nodes.len() > 0 && end.pending.len() == 0 {
        if end.settled() {
            laws::lemma_rest_means_decided(end);
        } else if end.quiescent() && !end.coordinator_crashed {
            if end.coordinator.phase is Done {
                assert forall|k: u8| #[trigger] end.participants.contains_key(k)
                    implies end.participants[k].decision() is Some && end.participants[k].decision() == end.coordinator.decision() by {
                    assert((end.participant_decided())(k));
                }
            }
        }
    }
}

/// `a * k <= b * k` for `a <= b` and nonnegative `k`.
proof fn lemma_mul_le(a: int, b: int, k: int)
    requires
        a <= b,
        0 <= k,
    ensures
        a * k <= b * k,
{
    assert(a * k <= b * k) by (nonlinear_arith)
        requires
            a <= b,
            0 <= k,
    ;
}

impl Simulator {
    /// Whether the event queue is empty and every operating actor reports
    /// [`StateMachine::is_quiescent`].
    pub fn is_quiescent(&self) -> (quiescent: bool)
        ensures
            quiescent == self@.quiescent(),
    {
        if !self.event_queue.is_empty() {
            return false;
        }
        if self.is_operating(ActorId::Coordinator) && !self.coordinator.is_quiescent() {
            return false;
        }
        let ids = crate::ordered::keys(&self.participants);
        let mut i: usize = 0;
        while i < ids.len()
            invariant
                i <= ids@.len(),
                forall|j: int| 0 <= j < ids@.len() ==> #[trigger] self.participants@.contains_key(ids@[j]),
                forall|k: u8| #[trigger] self.participants@.contains_key(k) ==> exists|j: int| 0 <= j < ids@.len() && ids@[j] == k,
                forall|j: int| 0 <= j < i ==> {
                    let k = #[trigger] ids@[j];
                    self@.crashed_nodes.contains(k) || !(self@.participants[k].phase is Voted)
                },
            decreases ids@.len() - i,
        {
            let id = ids[i];
            match self.participants.get(&id) {
                Some(p) => {
                    if self.is_operating(ActorId::Node(NodeId(id))) && !p.is_quiescent() {
                        assert(self@.participants.contains_key(id));
                        assert(self@.participants[id] == p@);
                        assert(!self@.crashed_nodes.contains(id));
                        assert(self@.participants[id].phase is Voted);
                        return false;
                    }
                },
                None => {},
            }
            i = i + 1;
        }
        proof {
            assert forall|k: u8| #[trigger] self@.participants.contains_key(k) && !self@.crashed_nodes.contains(k)
                implies !(self@.participants[k].phase is Voted) by {
                assert(self.participants@.contains_key(k));
                let j = choose|j: int| 0 <= j < ids@.len() && ids@[j] == k;
            }
        }
        true
    }

    /// Drain the event queue, ticking all actors, until no new events are
    /// produced for several consecutive rounds, for at most `max_rounds`
    /// rounds. Returns whether the system is quiescent.
    ///
    /// If [`is_quiescent`](Self::is_quiescent) holds, returns `true` at once
    /// without processing or injecting anything. Otherwise each round takes
    /// the next event, returning `true` once the simulation is quiescent;
    /// with an empty queue it injects a `TickAll` probe one tick later, and
    /// it declares quiescence after `QUIESCENCE_THRESHOLD` consecutive
    /// rounds whose probe produced nothing, since actors with retransmit
    /// timeouts may send only after enough time has passed. Every round
    /// processes at least one event, so `false` comes only after all
    /// `max_rounds` rounds ran.
    pub fn drain(&mut self, max_rounds: usize) -> (quiescent: bool)
        requires
            old(self)@.safe(),
            old(self)@.room_for_drain(max_rounds as int),
        ensures
            final(self)@.safe(),
            old(self)@.quiescent() ==> quiescent && final(self)@ == old(self)@,
            max_rounds == 0 ==> quiescent == old(self)@.quiescent() && final(self)@ == old(self)@,
            quiescent ==> final(self)@.pending.len() == 0,
            quiescent ==> final(self)@.quiescent() || {
                &&& final(self)@.log.len() >= old(self)@.log.len() + QUIESCENCE_THRESHOLD
                &&& ends_with_probes(final(self)@.log, QUIESCENCE_THRESHOLD as int, final(self)@.clock)
                &&& (!final(self)@.coordinator_crashed && final(self)@.coordinator.nodes.len() > 0
                    ==> !final(self)@.coordinator.tick_due(final(self)@.clock))
            },
            !quiescent ==> final(self)@.log.len() >= old(self)@.log.len() + max_rounds,
            old(self)@.durable_kept(final(self)@),
            old(self)@.progressing() ==> final(self)@.progressing(),
            (old(self)@.settled() || old(self)@.due_within_probes() || old(self)@.recovered_at_rest()) && quiescent
                && old(self)@.coordinator.nodes.len() > 0 ==> drain_decided(final(self)@),
            final(self)@.delay_start == old(self)@.delay_start,
            final(self)@.delay_end == old(self)@.delay_end,
            final(self)@.coordinator.nodes == old(self)@.coordinator.nodes,
            old(self)@.log.is_prefix_of(final(self)@.log),
    {
        proof {
            if old(self)@.recovered_at_rest() {
                progress::lemma_recovered_rest_probes(old(self)@);
            }
        }
        if self.is_quiescent() {
            proof {
                if old(self)@.settled() || old(self)@.due_within_probes() {
                    lemma_drain_result(self@);
                }
            }
            return true;
        }
        let mut consecutive_empty: usize = 0;
        let ghost t = old(self)@.time_per_step();
        let ghost l0 = old(self)@.latest();
        let ghost s0 = old(self)@.next_sequence_number as int;
        let mut round: usize = 0;
        while round < max_rounds
            invariant
                !old(self)@.quiescent(),
                self@.safe(),
                round <= max_rounds,
                consecutive_empty <= round,
                self@.log.len() >= old(self)@.log.len() + round,
                ends_with_probes(self@.log, consecutive_empty as int, self@.clock),
                consecutive_empty > 0 && !self@.coordinator_crashed && self@.coordinator.nodes.len() > 0
                    ==> !self@.coordinator.tick_due(self@.clock),
                round == 0 ==> self@ == old(self)@,
                t == self@.time_per_step(),
                1 <= t,
                self@.delay_start == old(self)@.delay_start,
                self@.delay_end == old(self)@.delay_end,
                self@.coordinator.nodes == old(self)@.coordinator.nodes,
                old(self)@.log.is_prefix_of(self@.log),
                old(self)@.durable_kept(self@),
                old(self)@.progressing() ==> self@.progressing(),
                old(self)@.settled() || old(self)@.due_within_probes() ==> self@.settled() || {
                    &&& old(self)@.due_within_probes()
                    &&& self@.pending.len() == 0
                    &&& !self@.coordinator_crashed
                    &&& self@.crashed_nodes == Set::<u8>::empty()
                    &&& self@.coordinator == old(self)@.coordinator
                    &&& self@.clock == old(self)@.clock + consecutive_empty
                    &&& consecutive_empty < QUIESCENCE_THRESHOLD
                },
                self@.latest() <= l0 + round * (3 * t + 1),
                self@.next_sequence_number <= s0 + round * (3 * MAX_SENDS_PER_STEP + 1),
                l0 + max_rounds * (3 * t + 1) <= u64::MAX,
                s0 + max_rounds * (3 * MAX_SENDS_PER_STEP + 1) <= u64::MAX,
            decreases max_rounds - round,
        {
            proof {
                lemma_mul_le(round + 1, max_rounds as int, 3 * t + 1);
                lemma_mul_le(round + 1, max_rounds as int, 3 * MAX_SENDS_PER_STEP + 1);
                assert((round + 1) * (3 * t + 1) == round * (3 * t + 1) + 3 * t + 1) by (nonlinear_arith);
                assert((round + 1) * (3 * MAX_SENDS_PER_STEP + 1) == round * (3 * MAX_SENDS_PER_STEP + 1) + 3 * MAX_SENDS_PER_STEP + 1) by (nonlinear_arith);
            }
            let ghost l_round = self@.latest();
            let ghost at_round = self@;
            let ghost s_round = self@.next_sequence_number as int;
            let ghost log_round = self@.log;
            let progressed = self.step();
            proof {
                if at_round.settled() {
                    progress::lemma_step_result_settled(at_round, self@);
                }
            }
            if progressed {
                consecutive_empty = 0;
                if self.is_quiescent() {
                    proof {
                        if old(self)@.settled() || old(self)@.due_within_probes() {
                            lemma_drain_result(self@);
                        }
                    }
                    return true;
                }
            } else {
                if self.is_quiescent() {
                    proof {
                        if old(self)@.settled() || old(self)@.due_within_probes() {
                            lemma_drain_result(self@);
                        }
                    }
                    return true;
                }
                // Inject a TickAll probe one tick later.
                self.clock = self.clock + 1;
                let now = self.clock;
                self.enqueue_external(ExternalEvent::TickAll, now);
                proof {
                    safety::lemma_max_timestamp_bounds(self@.pending);
                    let b = l_round + 1;
                    assert forall|j: int| 0 <= j < self@.pending.len() implies #[trigger] self@.pending[j].timestamp <= b by {
                    }
                    lemma_latest_bound(self@, b);
                }
                let ghost probe_state = self@;
                proof {
                    if at_round.settled() {
                        progress::lemma_probe_queued(at_round, probe_state, now);
                    }
                }
                self.step();
                let ghost after_probe = self@;
                proof {
                    if probe_state.settled() {
                        progress::lemma_step_result_settled(probe_state, after_probe);
                    } else if old(self)@.settled() || old(self)@.due_within_probes() {
                        let i = choose|i: int| #[trigger] probe_state.is_earliest(i) && probe_state.stepped(i, after_probe);
                        assert(i == 0);
                        progress::lemma_probe_from_rest(probe_state, after_probe);
                        if !after_probe.settled() {
                            if now >= old(self)@.clock + QUIESCENCE_THRESHOLD {
                                progress::lemma_due_later(old(self)@.coordinator, (old(self)@.clock + QUIESCENCE_THRESHOLD) as u64, now);
                            }
                        }
                    }
                }
                let progressed_again = self.step();
                proof {
                    if after_probe.settled() {
                        progress::lemma_step_result_settled(after_probe, self@);
                    }
                }
                if progressed_again {
                    consecutive_empty = 0;
                } else {
                    proof {
                        safety::lemma_quiet_probe(probe_state, after_probe);
                        assert(probe_state.pending[0].timestamp == at_round.clock + 1);
                        assert(probe_state.log == log_round);
                        let n = consecutive_empty as int + 1;
                        assert forall|j: int| self@.log.len() - n <= j < self@.log.len()
                            implies #[trigger] self@.log[j] == LogEntry::ExternalEvent {
                                at: (self@.clock - (self@.log.len() - 1 - j)) as u64,
                                event: ExternalEvent::TickAll,
                            } by {
                            if j < log_round.len() {
                                assert(self@.log[j] == log_round[j]);
                            }
                        }
                    }
                    consecutive_empty = consecutive_empty + 1;
                    if consecutive_empty >= QUIESCENCE_THRESHOLD {
                        proof {
                            if old(self)@.settled() || old(self)@.due_within_probes() {
                                lemma_drain_result(self@);
                            }
                        }
                        return true;
                    }
                }
            }
            proof {
                safety::lemma_durable_kept_trans(old(self)@, at_round, self@);
            }
            round = round + 1;
        }
        false
    }
}

impl Simulator {
    /// Whether one more [`step`](Self::step) has room: its delivery times and
    /// sequence numbers fit in 64 bits.
    pub fn room_for_step(&self) -> (room: bool)
        ensures
            room == self@.room_for_step(),
    {
        let (latest, per_step) = self.latest_and_time_per_step();
        latest <= u64::MAX - per_step && self.event_queue.next_sequence_number() <= u64::MAX - MAX_SENDS_PER_STEP
    }

    /// Whether [`drain`](Self::drain) has room for `rounds` rounds.
    pub fn room_for_drain(&self, rounds: usize) -> (room: bool)
        ensures
            room == self@.room_for_drain(rounds as int),
    {
        let (latest, per_step) = self.latest_and_time_per_step();
        let time_per_round: u128 = 3 * (per_step as u128) + 1;
        let sends_per_round: u128 = 3 * (MAX_SENDS_PER_STEP as u128) + 1;
        let time_left: u128 = (u64::MAX - latest) as u128;
        let sequence_left: u128 = (u64::MAX - self.event_queue.next_sequence_number()) as u128;
        let r = rounds as u128;
        let room = r <= time_left / time_per_round && r <= sequence_left / sends_per_round;
        proof {
            lemma_room_by_division(r as int, time_left as int, time_per_round as int);
            lemma_room_by_division(r as int, sequence_left as int, sends_per_round as int);
        }
        room
    }

    fn latest_and_time_per_step(&self) -> (r: (u64, u64))
        ensures
            r.0 == self@.latest(),
            r.1 == self@.time_per_step(),
    {
        let queued = self.event_queue.latest_timestamp();
        let latest = if self.clock < queued { queued } else { self.clock };
        let per_step = if self.delivery_delay.start < self.delivery_delay.end { self.delivery_delay.end } else { 1 };
        (latest, per_step)
    }
}

/// `r * k <= left` exactly when `r <= left / k`, for positive `k`.
proof fn lemma_room_by_division(r: int, left: int, k: int)
    requires
        0 <= r,
        0 <= left,
        0 < k,
    ensures
        (r * k <= left) == (r <= left / k),
{
    assert((r * k <= left) == (r <= left / k)) by (nonlinear_arith)
        requires
            0 <= r,
            0 <= left,
            0 < k,
    ;
}

} // verus!
