//! Safety invariants checked after every simulator step.
//!
//! Properties are checked against wire-level [`Observations`]: votes,
//! coordinator decisions, and participant decisions recorded by observing
//! messages at send and delivery time, independently of actor-internal
//! state, so that crash recovery (which resets volatile state) does not hide
//! anything.
//!
//! - Agreement (AC1): all participants that received a decision agree.
//! - Validity (AC2, commit direction): a coordinator that sent Commit saw
//!   only Commit votes.
//! - Abort safety: a coordinator that sent Abort left no participant with a
//!   Commit decision.
use crate::ordered::{entries, lists_entries};
use crate::types::{decision_of, vote_of, ActorId, Decision, Message, NodeId, Vote};
use std::collections::BTreeMap;
use vstd::prelude::*;

verus! {

broadcast use vstd::laws_cmp::group_laws_cmp;

/// Wire-level observations collected during simulation.
///
/// - Votes are recorded when a participant sends one, so the record survives
///   coordinator crashes that clear the coordinator's votes.
/// - The coordinator's decision is recorded when it sends one, and checked
///   consistent across all sends, retransmissions after recovery included.
/// - Participant decisions are recorded when a decision is delivered to (and
///   processed by) a participant.
#[derive(Debug, Clone)]
pub struct Observations {
    votes: BTreeMap<u8, Vote>,
    coordinator_decision: Option<Decision>,
    participant_decisions: BTreeMap<u8, Decision>,
}

/// The abstract value of [`Observations`].
pub struct ObservationsModel {
    /// Votes sent, by node number.
    pub votes: Map<u8, Vote>,
    /// The decision the coordinator sent.
    pub coordinator_decision: Option<Decision>,
    /// Decisions delivered to participants, by node number.
    pub participant_decisions: Map<u8, Decision>,
}

impl View for Observations {
    type V = ObservationsModel;

    closed spec fn view(&self) -> ObservationsModel {
        ObservationsModel {
            votes: self.votes@,
            coordinator_decision: self.coordinator_decision,
            participant_decisions: self.participant_decisions@,
        }
    }
}

/// A safety violation found in the observations.
#[derive(Debug, Clone, PartialEq, Eq)]
pub enum Violation {
    /// Participants received different decisions: those listed committed,
    /// the others aborted.
    Agreement { committed: Vec<NodeId>, aborted: Vec<NodeId> },
    /// The coordinator sent Commit although `node` voted `vote`.
    CommitWithoutUnanimity { node: NodeId, vote: Vote },
    /// The coordinator sent Abort although `node` received Commit.
    AbortedButCommitted { node: NodeId },
}

/// `s` lists the node numbers in `keys`, each once, in increasing order.
pub open spec fn lists_nodes(s: Seq<NodeId>, keys: Set<u8>) -> bool {
    &&& forall|i: int, j: int| 0 <= i < j < s.len() ==> #[trigger] s[i].0 < #[trigger] s[j].0
    &&& forall|i: int| 0 <= i < s.len() ==> #[trigger] keys.contains(s[i].0)
    &&& forall|k: u8| #[trigger] keys.contains(k) ==> exists|i: int| 0 <= i < s.len() && s[i].0 == k
}

/// The node numbers that `m` maps to `d`.
pub open spec fn deciding(m: Map<u8, Decision>, d: Decision) -> Set<u8> {
    Set::new(|k: u8| m.contains_key(k) && m[k] == d)
}

impl ObservationsModel {
    pub open spec fn empty() -> ObservationsModel {
        ObservationsModel { votes: Map::empty(), coordinator_decision: None, participant_decisions: Map::empty() }
    }

    /// Recording `msg` as sent would not contradict an earlier record: a
    /// participant sends one vote, the coordinator one decision.
    pub open spec fn sent_consistent(self, msg: Message) -> bool {
        match (vote_of(msg.message_type), decision_of(msg.message_type), msg.from) {
            (Some(v), _, ActorId::Node(id)) => self.votes.contains_key(id.0) ==> self.votes[id.0] == v,
            (_, Some(d), ActorId::Coordinator) => self.coordinator_decision.is_some() ==> self.coordinator_decision == Some(d),
            _ => true,
        }
    }

    /// The observations after `msg` was sent.
    pub open spec fn after_sent(self, msg: Message) -> ObservationsModel {
        match (vote_of(msg.message_type), decision_of(msg.message_type), msg.from) {
            (Some(v), _, ActorId::Node(id)) => ObservationsModel {
                votes: if self.votes.contains_key(id.0) { self.votes } else { self.votes.insert(id.0, v) },
                ..self
            },
            (_, Some(d), ActorId::Coordinator) => ObservationsModel {
                coordinator_decision: if self.coordinator_decision.is_some() { self.coordinator_decision } else { Some(d) },
                ..self
            },
            _ => self,
        }
    }

    /// Recording `msg` as delivered would not contradict an earlier record:
    /// a participant receives one decision.
    pub open spec fn delivered_consistent(self, msg: Message) -> bool {
        match (decision_of(msg.message_type), msg.to) {
            (Some(d), ActorId::Node(id)) => self.participant_decisions.contains_key(id.0) ==> self.participant_decisions[id.0] == d,
            _ => true,
        }
    }

    /// The observations after `msg` was delivered.
    pub open spec fn after_delivered(self, msg: Message) -> ObservationsModel {
        match (decision_of(msg.message_type), msg.to) {
            (Some(d), ActorId::Node(id)) => ObservationsModel {
                participant_decisions: if self.participant_decisions.contains_key(id.0) {
                    self.participant_decisions
                } else {
                    self.participant_decisions.insert(id.0, d)
                },
                ..self
            },
            _ => self,
        }
    }

    /// AC1: no participant received Commit while another received Abort.
    pub open spec fn agreement(self) -> bool {
        forall|a: u8, b: u8|
            #![trigger self.participant_decisions[a], self.participant_decisions[b]]
            self.participant_decisions.contains_key(a) && self.participant_decisions.contains_key(b)
                ==> self.participant_decisions[a] == self.participant_decisions[b]
    }

    /// AC2 and abort safety: a Commit sent by the coordinator comes with
    /// only Commit votes; an Abort sent by it with no participant committed.
    pub open spec fn validity(self) -> bool {
        match self.coordinator_decision {
            Some(Decision::Commit) => forall|k: u8| #[trigger] self.votes.contains_key(k) ==> self.votes[k] == Vote::Commit,
            Some(Decision::Abort) => forall|k: u8|
                #[trigger] self.participant_decisions.contains_key(k) ==> self.participant_decisions[k] != Decision::Commit,
            None => true,
        }
    }

    /// `v` reports the disagreement: the committed and the aborted nodes,
    /// each list in increasing order.
    pub open spec fn reports_disagreement(self, v: Violation) -> bool {
        v matches Violation::Agreement { committed, aborted }
            && lists_nodes(committed@, deciding(self.participant_decisions, Decision::Commit))
            && lists_nodes(aborted@, deciding(self.participant_decisions, Decision::Abort))
    }

    /// `v` reports the validity violation at the node with the smallest number.
    pub open spec fn reports_invalidity(self, v: Violation) -> bool {
        match v {
            Violation::CommitWithoutUnanimity { node, vote } => {
                &&& self.coordinator_decision == Some(Decision::Commit)
                &&& self.votes.contains_key(node.0) && self.votes[node.0] == vote && vote != Vote::Commit
                &&& forall|k: u8| #[trigger] self.votes.contains_key(k) && k < node.0 ==> self.votes[k] == Vote::Commit
            },
            Violation::AbortedButCommitted { node } => {
                &&& self.coordinator_decision == Some(Decision::Abort)
                &&& self.participant_decisions.contains_key(node.0)
                &&& self.participant_decisions[node.0] == Decision::Commit
                &&& forall|k: u8| #[trigger] self.participant_decisions.contains_key(k) && k < node.0
                    ==> self.participant_decisions[k] != Decision::Commit
            },
            Violation::Agreement { .. } => false,
        }
    }
}

impl Observations {
    /// An empty set of observations.
    pub fn new() -> (obs: Self)
        ensures
            obs@ == ObservationsModel::empty(),
    {
        Observations { votes: BTreeMap::new(), coordinator_decision: None, participant_decisions: BTreeMap::new() }
    }

    /// Record what a sent message shows: a participant's vote, or the
    /// coordinator's decision. A participant that sends two different votes,
    /// or a coordinator that sends two different decisions, is a protocol
    /// bug; `requires` rules it out.
    pub fn record_sent(&mut self, msg: &Message)
        requires
            old(self)@.sent_consistent(*msg),
        ensures
            final(self)@ == old(self)@.after_sent(*msg),
    {
        match (msg.message_type, msg.from) {
            (crate::types::MessageType::VoteCommit, ActorId::Node(id)) => {
                self.record_vote(id, Vote::Commit);
            },
            (crate::types::MessageType::VoteAbort, ActorId::Node(id)) => {
                self.record_vote(id, Vote::Abort);
            },
            (crate::types::MessageType::DecisionCommit, ActorId::Coordinator) => {
                self.record_coordinator_decision(Decision::Commit);
            },
            (crate::types::MessageType::DecisionAbort, ActorId::Coordinator) => {
                self.record_coordinator_decision(Decision::Abort);
            },
            _ => {},
        }
    }

    /// Record what a delivered message shows: the decision a participant
    /// received. A participant that receives two different decisions is a
    /// protocol bug; `requires` rules it out.
    pub fn record_delivered(&mut self, msg: &Message)
        requires
            old(self)@.delivered_consistent(*msg),
        ensures
            final(self)@ == old(self)@.after_delivered(*msg),
    {
        match (msg.message_type, msg.to) {
            (crate::types::MessageType::DecisionCommit, ActorId::Node(id)) => {
                self.record_participant_decision(id, Decision::Commit);
            },
            (crate::types::MessageType::DecisionAbort, ActorId::Node(id)) => {
                self.record_participant_decision(id, Decision::Abort);
            },
            _ => {},
        }
    }

    fn record_vote(&mut self, node: NodeId, vote: Vote)
        requires
            old(self)@.votes.contains_key(node.0) ==> old(self)@.votes[node.0] == vote,
        ensures
            final(self)@ == (ObservationsModel {
                votes: if old(self)@.votes.contains_key(node.0) { old(self)@.votes } else { old(self)@.votes.insert(node.0, vote) },
                ..old(self)@
            }),
    {
        if self.votes.contains_key(&node.0) {
            return;
        }
        self.votes.insert(node.0, vote);
    }

    fn record_coordinator_decision(&mut self, decision: Decision)
        requires
            old(self)@.coordinator_decision matches Some(e) ==> e == decision,
        ensures
            final(self)@ == (ObservationsModel {
                coordinator_decision: if old(self)@.coordinator_decision.is_some() {
                    old(self)@.coordinator_decision
                } else {
                    Some(decision)
                },
                ..old(self)@
            }),
    {
        if self.coordinator_decision.is_some() {
            return;
        }
        self.coordinator_decision = Some(decision);
    }

    fn record_participant_decision(&mut self, node: NodeId, decision: Decision)
        requires
            old(self)@.participant_decisions.contains_key(node.0) ==> old(self)@.participant_decisions[node.0] == decision,
        ensures
            final(self)@ == (ObservationsModel {
                participant_decisions: if old(self)@.participant_decisions.contains_key(node.0) {
                    old(self)@.participant_decisions
                } else {
                    old(self)@.participant_decisions.insert(node.0, decision)
                },
                ..old(self)@
            }),
    {
        if self.participant_decisions.contains_key(&node.0) {
            return;
        }
        self.participant_decisions.insert(node.0, decision);
    }

    /// Votes observed so far, by node number.
    pub fn votes(&self) -> (votes: &BTreeMap<u8, Vote>)
        ensures
            votes@ == self@.votes,
    {
        &self.votes
    }

    /// The coordinator's decision, if observed.
    pub fn coordinator_decision(&self) -> (d: Option<Decision>)
        ensures
            d == self@.coordinator_decision,
    {
        self.coordinator_decision
    }

    /// Decisions delivered to participants, by node number.
    pub fn participant_decisions(&self) -> (decisions: &BTreeMap<u8, Decision>)
        ensures
            decisions@ == self@.participant_decisions,
    {
        &self.participant_decisions
    }
}

impl Default for Observations {
    /// An empty set of observations.
    fn default() -> (obs: Self)
        ensures
            obs@ == ObservationsModel::empty(),
    {
        Observations::new()
    }
}

/// The nodes whose entry in `list` (ordered by node number) is `d`, in order.
fn nodes_deciding(list: &Vec<(u8, Decision)>, d: Decision, m: Ghost<Map<u8, Decision>>) -> (nodes: Vec<NodeId>)
    requires
        lists_entries(list@, m@),
    ensures
        lists_nodes(nodes@, deciding(m@, d)),
{
    let mut nodes: Vec<NodeId> = Vec::new();
    let mut i: usize = 0;
    while i < list.len()
        invariant
            lists_entries(list@, m@),
            i <= list@.len(),
            forall|a: int, b: int| 0 <= a < b < nodes@.len() ==> #[trigger] nodes@[a].0 < #[trigger] nodes@[b].0,
            forall|a: int| 0 <= a < nodes@.len() ==> #[trigger] deciding(m@, d).contains(nodes@[a].0),
            forall|a: int, j: int| 0 <= a < nodes@.len() && i <= j < list@.len() ==> #[trigger] nodes@[a].0 < #[trigger] list@[j].0,
            forall|j: int| 0 <= j < i && #[trigger] list@[j].1 == d ==> exists|a: int| 0 <= a < nodes@.len() && nodes@[a].0 == list@[j].0,
        decreases list@.len() - i,
    {
        let (k, v) = list[i];
        let ghost old_nodes = nodes@;
        assert(m@.contains_key(list@[i as int].0));
        if v == d {
            nodes.push(NodeId(k));
            assert(nodes@[nodes@.len() - 1].0 == k);
        }
        assert forall|j: int| 0 <= j < i + 1 && #[trigger] list@[j].1 == d implies exists|a: int| 0 <= a < nodes@.len() && nodes@[a].0 == list@[j].0 by {
            if j < i {
                let a = choose|a: int| 0 <= a < old_nodes.len() && old_nodes[a].0 == list@[j].0;
                assert(nodes@[a] == old_nodes[a]);
            } else {
                assert(nodes@[nodes@.len() - 1].0 == list@[j].0);
            }
        }
        i = i + 1;
    }
    assert forall|k: u8| #[trigger] deciding(m@, d).contains(k) implies exists|a: int| 0 <= a < nodes@.len() && nodes@[a].0 == k by {
        assert(m@.contains_key(k));
        let j = choose|j: int| 0 <= j < list@.len() && list@[j].0 == k;
        assert(list@[j].1 == d);
    }
    nodes
}

/// AC1: all participants that received a decision agree. On violation, the
/// error lists the committed and the aborted nodes in increasing order.
pub fn check_agreement(obs: &Observations) -> (r: Result<(), Violation>)
    ensures
        r.is_ok() == obs@.agreement(),
        r matches Err(v) ==> obs@.reports_disagreement(v),
{
    let pd = &obs.participant_decisions;
    if pd.len() < 2 {
        proof {
            lemma_few_decisions_agree(obs@);
        }
        return Ok(());
    }
    let list = entries(pd);
    let committed = nodes_deciding(&list, Decision::Commit, Ghost(pd@));
    let aborted = nodes_deciding(&list, Decision::Abort, Ghost(pd@));
    if committed.len() > 0 && aborted.len() > 0 {
        proof {
            let a = committed@[0].0;
            let b = aborted@[0].0;
            assert(deciding(pd@, Decision::Commit).contains(a));
            assert(deciding(pd@, Decision::Abort).contains(b));
            assert(pd@.contains_key(a) && pd@[a] == Decision::Commit);
            assert(pd@.contains_key(b) && pd@[b] == Decision::Abort);
            if obs@.agreement() {
                assert(obs@.participant_decisions[a] == obs@.participant_decisions[b]);
            }
        }
        return Err(Violation::Agreement { committed, aborted });
    }
    proof {
        assert forall|a: u8, b: u8|
            #![trigger pd@[a], pd@[b]]
            pd@.contains_key(a) && pd@.contains_key(b) implies pd@[a] == pd@[b] by {
            if pd@[a] != pd@[b] {
                if pd@[a] == Decision::Commit {
                    assert(deciding(pd@, Decision::Commit).contains(a));
                    assert(deciding(pd@, Decision::Abort).contains(b));
                } else {
                    assert(deciding(pd@, Decision::Abort).contains(a));
                    assert(deciding(pd@, Decision::Commit).contains(b));
                }
            }
        }
    }
    Ok(())
}

proof fn lemma_few_decisions_agree(obs: ObservationsModel)
    requires
        obs.participant_decisions.dom().finite(),
        obs.participant_decisions.len() < 2,
    ensures
        obs.agreement(),
{
    let pd = obs.participant_decisions;
    assert forall|a: u8, b: u8|
        #![trigger pd[a], pd[b]]
        pd.contains_key(a) && pd.contains_key(b) implies pd[a] == pd[b] by {
        if a != b {
            assert(pd.dom().contains(a));
            assert(pd.dom().remove(a).contains(b));
            vstd::set_lib::lemma_set_empty_equivalency_len(pd.dom().remove(a));
            assert(pd.dom().remove(a).len() > 0);
        }
    }
}

/// AC2 (commit direction) and abort safety. On violation, the error names
/// the violating node with the smallest number.
pub fn check_validity(obs: &Observations) -> (r: Result<(), Violation>)
    ensures
        r.is_ok() == obs@.validity(),
        r matches Err(v) ==> obs@.reports_invalidity(v),
{
    match obs.coordinator_decision {
        Some(Decision::Commit) => {
            let list = entries(&obs.votes);
            let mut i: usize = 0;
            while i < list.len()
                invariant
                    lists_entries(list@, obs@.votes),
                    obs@.coordinator_decision == Some(Decision::Commit),
                    i <= list@.len(),
                    forall|j: int| 0 <= j < i ==> #[trigger] list@[j].1 == Vote::Commit,
                decreases list@.len() - i,
            {
                let (k, vote) = list[i];
                if vote != Vote::Commit {
                    proof {
                        assert(obs@.votes.contains_key(list@[i as int].0));
                        assert(!obs@.validity());
                        assert forall|key: u8| #[trigger] obs@.votes.contains_key(key) && key < k
                            implies obs@.votes[key] == Vote::Commit by {
                            let j = choose|j: int| 0 <= j < list@.len() && list@[j].0 == key;
                            if j >= i {
                                if j > i {
                                    assert(list@[i as int].0 < list@[j].0);
                                }
                            }
                        }
                    }
                    return Err(Violation::CommitWithoutUnanimity { node: NodeId(k), vote });
                }
                i = i + 1;
            }
            proof {
                assert forall|key: u8| #[trigger] obs@.votes.contains_key(key) implies obs@.votes[key] == Vote::Commit by {
                    let j = choose|j: int| 0 <= j < list@.len() && list@[j].0 == key;
                }
            }
            Ok(())
        },
        Some(Decision::Abort) => {
            let list = entries(&obs.participant_decisions);
            let mut i: usize = 0;
            while i < list.len()
                invariant
                    lists_entries(list@, obs@.participant_decisions),
                    obs@.coordinator_decision == Some(Decision::Abort),
                    i <= list@.len(),
                    forall|j: int| 0 <= j < i ==> #[trigger] list@[j].1 != Decision::Commit,
                decreases list@.len() - i,
            {
                let (k, d) = list[i];
                if d == Decision::Commit {
                    proof {
                        assert(obs@.participant_decisions.contains_key(list@[i as int].0));
                        assert(!obs@.validity());
                        assert forall|key: u8| #[trigger] obs@.participant_decisions.contains_key(key) && key < k
                            implies obs@.participant_decisions[key] != Decision::Commit by {
                            let j = choose|j: int| 0 <= j < list@.len() && list@[j].0 == key;
                            if j >= i {
                                if j > i {
                                    assert(list@[i as int].0 < list@[j].0);
                                }
                            }
                        }
                    }
                    return Err(Violation::AbortedButCommitted { node: NodeId(k) });
                }
                i = i + 1;
            }
            proof {
                assert forall|key: u8| #[trigger] obs@.participant_decisions.contains_key(key)
                    implies obs@.participant_decisions[key] != Decision::Commit by {
                    let j = choose|j: int| 0 <= j < list@.len() && list@[j].0 == key;
                }
            }
            Ok(())
        },
        None => Ok(()),
    }
}

/// Check all safety invariants (agreement, then validity); the first
/// violation found, if any.
pub fn check_all_invariants(obs: &Observations) -> (r: Result<(), Violation>)
    ensures
        r.is_ok() == (obs@.agreement() && obs@.validity()),
        r matches Err(v) ==> if obs@.agreement() { obs@.reports_invalidity(v) } else { obs@.reports_disagreement(v) },
{
    match check_agreement(obs) {
        Err(v) => Err(v),
        Ok(()) => check_validity(obs),
    }
}

/// Whether every node in `participants` has received a decision.
pub fn all_decided(obs: &Observations, participants: &[NodeId]) -> (all: bool)
    ensures
        all == forall|i: int| 0 <= i < participants@.len()
            ==> #[trigger] obs@.participant_decisions.contains_key(participants@[i].0),
{
    let mut i: usize = 0;
    while i < participants.len()
        invariant
            i <= participants@.len(),
            forall|j: int| 0 <= j < i ==> #[trigger] obs@.participant_decisions.contains_key(participants@[j].0),
        decreases participants@.len() - i,
    {
        if !obs.participant_decisions.contains_key(&participants[i].0) {
            assert(!obs@.participant_decisions.contains_key(participants@[i as int].0));
            return false;
        }
        i = i + 1;
    }
    true
}

} // verus!
