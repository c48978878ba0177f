//! The event log as a human-readable timeline: one line per entry, such as
//! `t=3    [Send]    Coordinator → Node(0): Prepare (deliver@5)`.
use super::{ExternalEvent, LogEntry, Simulator};
use crate::types::{decision_message_type, vote_message_type, ActorId, Decision, Message, MessageType, NodeId, Vote};
use vstd::prelude::*;

verus! {

/// The text of digit `d`.
pub open spec fn digit_text(d: nat) -> Seq<char> {
    if d == 0 {
        "0"@
    } else if d == 1 {
        "1"@
    } else if d == 2 {
        "2"@
    } else if d == 3 {
        "3"@
    } else if d == 4 {
        "4"@
    } else if d == 5 {
        "5"@
    } else if d == 6 {
        "6"@
    } else if d == 7 {
        "7"@
    } else if d == 8 {
        "8"@
    } else {
        "9"@
    }
}

/// The decimal digits of `n`, most significant first.
pub open spec fn decimal(n: nat) -> Seq<char>
    decreases n,
{
    if n < 10 {
        digit_text(n)
    } else {
        decimal(n / 10) + digit_text(n % 10)
    }
}

/// `k` spaces.
pub open spec fn spaces(k: nat) -> Seq<char>
    decreases k,
{
    if k == 0 {
        Seq::empty()
    } else {
        spaces((k - 1) as nat) + " "@
    }
}

/// `s` padded with spaces on the right to at least `width` characters.
pub open spec fn padded(s: Seq<char>, width: nat) -> Seq<char> {
    if s.len() < width {
        s + spaces((width - s.len()) as nat)
    } else {
        s
    }
}

/// An actor as it is shown in a message route: `Coordinator` or `Node(3)`.
pub open spec fn actor_text(a: ActorId) -> Seq<char> {
    match a {
        ActorId::Coordinator => "Coordinator"@,
        ActorId::Node(id) => "Node("@ + decimal(id.0 as nat) + ")"@,
    }
}

/// An actor as it is shown inside an event: `Coordinator` or
/// `Node(NodeId(3))`.
pub open spec fn actor_detail(a: ActorId) -> Seq<char> {
    match a {
        ActorId::Coordinator => "Coordinator"@,
        ActorId::Node(id) => "Node(NodeId("@ + decimal(id.0 as nat) + "))"@,
    }
}

/// The name of a message type.
pub open spec fn message_type_text(t: MessageType) -> Seq<char> {
    match t {
        MessageType::StartTransaction => "StartTransaction"@,
        MessageType::Prepare => "Prepare"@,
        MessageType::VoteCommit => "VoteCommit"@,
        MessageType::VoteAbort => "VoteAbort"@,
        MessageType::DecisionCommit => "DecisionCommit"@,
        MessageType::DecisionAbort => "DecisionAbort"@,
        MessageType::Ack => "Ack"@,
    }
}

/// An external event: `TickAll`, `Tick { to: Coordinator }`,
/// `Crash(Node(NodeId(1)))`, ...
pub open spec fn event_text(e: ExternalEvent) -> Seq<char> {
    match e {
        ExternalEvent::StartTransaction => "StartTransaction"@,
        ExternalEvent::Tick { to } => "Tick { to: "@ + actor_detail(to) + " }"@,
        ExternalEvent::TickAll => "TickAll"@,
        ExternalEvent::Crash(a) => "Crash("@ + actor_detail(a) + ")"@,
        ExternalEvent::Recover(a) => "Recover("@ + actor_detail(a) + ")"@,
    }
}

/// A message's route and type: `Coordinator → Node(0): Prepare`.
pub open spec fn route_text(msg: Message) -> Seq<char> {
    actor_text(msg.from) + " → "@ + actor_text(msg.to) + ": "@ + message_type_text(msg.message_type)
}

/// The time column: `t=` and the time, padded to four places.
pub open spec fn time_text(at: u64) -> Seq<char> {
    "t="@ + padded(decimal(at as nat), 4)
}

/// One line of the timeline.
pub open spec fn entry_text(e: LogEntry) -> Seq<char> {
    match e {
        LogEntry::ExternalEvent { at, event } => time_text(at) + " [Event]   "@ + event_text(event),
        LogEntry::Deliver { at, msg } => time_text(at) + " [Deliver] "@ + route_text(msg),
        LogEntry::Send { at, deliver_at, msg } => time_text(at) + " [Send]    "@ + route_text(msg) + " (deliver@"@
            + decimal(deliver_at as nat) + ")"@,
        LogEntry::Drop { at, msg } => time_text(at) + " [Drop]    "@ + route_text(msg),
    }
}

/// The lines of `log`, joined by newlines.
pub open spec fn joined_text(log: Seq<LogEntry>) -> Seq<char>
    decreases log.len(),
{
    if log.len() == 0 {
        Seq::empty()
    } else if log.len() == 1 {
        entry_text(log[0])
    } else {
        joined_text(log.drop_last()) + "\n"@ + entry_text(log.last())
    }
}

/// Every digit is one character.
proof fn lemma_digit_len(d: nat)
    ensures
        digit_text(d).len() == 1,
{
    reveal_strlit("0");
    reveal_strlit("1");
    reveal_strlit("2");
    reveal_strlit("3");
    reveal_strlit("4");
    reveal_strlit("5");
    reveal_strlit("6");
    reveal_strlit("7");
    reveal_strlit("8");
    reveal_strlit("9");
}

/// A number below 10 has one digit, below 100 two, below 1000 three, and
/// any other at least four.
proof fn lemma_decimal_len(n: nat)
    ensures
        n < 10 ==> decimal(n).len() == 1,
        10 <= n < 100 ==> decimal(n).len() == 2,
        100 <= n < 1000 ==> decimal(n).len() == 3,
        1000 <= n ==> decimal(n).len() >= 4,
    decreases n,
{
    lemma_digit_len(n % 10);
    if n < 10 {
        lemma_digit_len(n);
    } else {
        lemma_decimal_len(n / 10);
    }
}

/// Append the text of `d`, a digit.
fn push_digit(s: &mut String, d: u64)
    requires
        d < 10,
    ensures
        final(s)@ == old(s)@ + digit_text(d as nat),
{
    let t = if d == 0 {
        "0"
    } else if d == 1 {
        "1"
    } else if d == 2 {
        "2"
    } else if d == 3 {
        "3"
    } else if d == 4 {
        "4"
    } else if d == 5 {
        "5"
    } else if d == 6 {
        "6"
    } else if d == 7 {
        "7"
    } else if d == 8 {
        "8"
    } else {
        "9"
    };
    s.append(t);
}

/// Append the decimal digits of `n`.
fn push_decimal(s: &mut String, n: u64)
    ensures
        final(s)@ == old(s)@ + decimal(n as nat),
    decreases n,
{
    if n >= 10 {
        push_decimal(s, n / 10);
    }
    push_digit(s, n % 10);
    proof {
        if n >= 10 {
            assert(final(s)@ =~= old(s)@ + decimal(n as nat));
        }
    }
}

/// Append the time column for `at`.
fn push_time(s: &mut String, at: u64)
    ensures
        final(s)@ == old(s)@ + time_text(at),
{
    s.append("t=");
    push_decimal(s, at);
    proof {
        lemma_decimal_len(at as nat);
        reveal_strlit(" ");
        reveal_strlit("  ");
        reveal_strlit("   ");
        reveal_with_fuel(spaces, 4);
        assert(Seq::<char>::empty() + " "@ =~= " "@);
        assert(spaces(1) =~= " "@);
        assert(spaces(2) =~= "  "@);
        assert(spaces(3) =~= "   "@);
    }
    if at < 10 {
        s.append("   ");
    } else if at < 100 {
        s.append("  ");
    } else if at < 1000 {
        s.append(" ");
    }
    proof {
        assert(final(s)@ =~= old(s)@ + time_text(at));
    }
}

/// Append an actor as shown in a route.
fn push_actor(s: &mut String, a: ActorId)
    ensures
        final(s)@ == old(s)@ + actor_text(a),
{
    match a {
        ActorId::Coordinator => s.append("Coordinator"),
        ActorId::Node(id) => {
            s.append("Node(");
            push_decimal(s, id.0 as u64);
            s.append(")");
        },
    }
    proof {
        assert(final(s)@ =~= old(s)@ + actor_text(a));
    }
}

/// Append an actor as shown inside an event.
fn push_actor_detail(s: &mut String, a: ActorId)
    ensures
        final(s)@ == old(s)@ + actor_detail(a),
{
    match a {
        ActorId::Coordinator => s.append("Coordinator"),
        ActorId::Node(id) => {
            s.append("Node(NodeId(");
            push_decimal(s, id.0 as u64);
            s.append("))");
        },
    }
    proof {
        assert(final(s)@ =~= old(s)@ + actor_detail(a));
    }
}

/// Append the name of a message type.
fn push_message_type(s: &mut String, t: MessageType)
    ensures
        final(s)@ == old(s)@ + message_type_text(t),
{
    match t {
        MessageType::StartTransaction => s.append("StartTransaction"),
        MessageType::Prepare => s.append("Prepare"),
        MessageType::VoteCommit => s.append("VoteCommit"),
        MessageType::VoteAbort => s.append("VoteAbort"),
        MessageType::DecisionCommit => s.append("DecisionCommit"),
        MessageType::DecisionAbort => s.append("DecisionAbort"),
        MessageType::Ack => s.append("Ack"),
    }
}

/// Append an external event.
fn push_event(s: &mut String, e: ExternalEvent)
    ensures
        final(s)@ == old(s)@ + event_text(e),
{
    match e {
        ExternalEvent::StartTransaction => s.append("StartTransaction"),
        ExternalEvent::Tick { to } => {
            s.append("Tick { to: ");
            push_actor_detail(s, to);
            s.append(" }");
        },
        ExternalEvent::TickAll => s.append("TickAll"),
        ExternalEvent::Crash(a) => {
            s.append("Crash(");
            push_actor_detail(s, a);
            s.append(")");
        },
        ExternalEvent::Recover(a) => {
            s.append("Recover(");
            push_actor_detail(s, a);
            s.append(")");
        },
    }
    proof {
        assert(final(s)@ =~= old(s)@ + event_text(e));
    }
}

/// Append a message's route and type.
fn push_route(s: &mut String, msg: &Message)
    ensures
        final(s)@ == old(s)@ + route_text(*msg),
{
    push_actor(s, msg.from);
    s.append(" → ");
    push_actor(s, msg.to);
    s.append(": ");
    push_message_type(s, msg.message_type);
    proof {
        assert(final(s)@ =~= old(s)@ + route_text(*msg));
    }
}

/// Append one line of the timeline.
fn push_entry(s: &mut String, e: &LogEntry)
    ensures
        final(s)@ == old(s)@ + entry_text(*e),
{
    match e {
        LogEntry::ExternalEvent { at, event } => {
            push_time(s, *at);
            s.append(" [Event]   ");
            push_event(s, *event);
        },
        LogEntry::Deliver { at, msg } => {
            push_time(s, *at);
            s.append(" [Deliver] ");
            push_route(s, msg);
        },
        LogEntry::Send { at, deliver_at, msg } => {
            push_time(s, *at);
            s.append(" [Send]    ");
            push_route(s, msg);
            s.append(" (deliver@");
            push_decimal(s, *deliver_at);
            s.append(")");
        },
        LogEntry::Drop { at, msg } => {
            push_time(s, *at);
            s.append(" [Drop]    ");
            push_route(s, msg);
        },
    }
    proof {
        assert(final(s)@ =~= old(s)@ + entry_text(*e));
    }
}

impl LogEntry {
    /// This entry as one line of the timeline.
    pub fn text(&self) -> (s: String)
        ensures
            s@ == entry_text(*self),
    {
        let mut s = String::new();
        push_entry(&mut s, self);
        assert(s@ =~= entry_text(*self));
        s
    }
}

impl Simulator {
    /// The event log as a human-readable timeline, one entry per line.
    pub fn format_log(&self) -> (s: String)
        ensures
            s@ == joined_text(self@.log),
    {
        let log = self.log();
        let mut s = String::new();
        let mut i: usize = 0;
        while i < log.len()
            invariant
                i <= log@.len(),
                log@ == self@.log,
                s@ == joined_text(log@.take(i as int)),
            decreases log@.len() - i,
        {
            if i > 0 {
                s.append("\n");
            }
            push_entry(&mut s, &log[i]);
            proof {
                assert(log@.take(i + 1).drop_last() =~= log@.take(i as int));
                if i == 0 {
                    assert(s@ =~= entry_text(log@[0]));
                }
            }
            i = i + 1;
        }
        assert(log@.take(i as int) =~= log@);
        s
    }
}

/// Whether `s` ends in `suffix`.
pub open spec fn ends_in(s: Seq<char>, suffix: Seq<char>) -> bool {
    suffix.len() <= s.len() && s.subrange(s.len() - suffix.len(), s.len() as int) == suffix
}

/// The timeline tells message types apart: distinct types are shown by
/// distinct names, and the name of a vote or a decision says what it
/// carries, ending in `Abort` exactly when it is Abort and in `Commit`
/// exactly when it is Commit.
pub proof fn lemma_message_type_text_names_type(t1: MessageType, t2: MessageType, d: Decision, v: Vote)
    ensures
        message_type_text(t1) == message_type_text(t2) ==> t1 == t2,
        ends_in(message_type_text(decision_message_type(d)), "Abort"@) <==> d == Decision::Abort,
        ends_in(message_type_text(decision_message_type(d)), "Commit"@) <==> d == Decision::Commit,
        ends_in(message_type_text(vote_message_type(v)), "Abort"@) <==> v == Vote::Abort,
        ends_in(message_type_text(vote_message_type(v)), "Commit"@) <==> v == Vote::Commit,
{
    reveal_strlit("StartTransaction");
    reveal_strlit("Prepare");
    reveal_strlit("VoteCommit");
    reveal_strlit("VoteAbort");
    reveal_strlit("DecisionCommit");
    reveal_strlit("DecisionAbort");
    reveal_strlit("Ack");
    reveal_strlit("Abort");
    reveal_strlit("Commit");
    if message_type_text(t1) == message_type_text(t2) {
        assert(message_type_text(t1).len() == message_type_text(t2).len());
    }
    let dc = "DecisionCommit"@;
    let da = "DecisionAbort"@;
    let vc = "VoteCommit"@;
    let va = "VoteAbort"@;
    assert(dc.subrange(8, 14) =~= "Commit"@);
    assert(dc.subrange(9, 14)[0] != "Abort"@[0]);
    assert(da.subrange(8, 13) =~= "Abort"@);
    assert(da.subrange(7, 13)[0] != "Commit"@[0]);
    assert(vc.subrange(4, 10) =~= "Commit"@);
    assert(vc.subrange(5, 10)[0] != "Abort"@[0]);
    assert(va.subrange(4, 9) =~= "Abort"@);
    assert(va.subrange(3, 9)[0] != "Commit"@[0]);
}

/// Distinct digits are written differently.
proof fn lemma_digit_text_injective(a: nat, b: nat)
    requires
        a < 10,
        b < 10,
        digit_text(a) == digit_text(b),
    ensures
        a == b,
{
    reveal_strlit("0");
    reveal_strlit("1");
    reveal_strlit("2");
    reveal_strlit("3");
    reveal_strlit("4");
    reveal_strlit("5");
    reveal_strlit("6");
    reveal_strlit("7");
    reveal_strlit("8");
    reveal_strlit("9");
    assert(digit_text(a)[0] == digit_text(b)[0]);
    assert(digit_first(a) == digit_text(a)[0]);
    assert(digit_first(b) == digit_text(b)[0]);
}

/// The character of digit `d`.
spec fn digit_first(d: nat) -> char {
    if d == 0 {
        '0'
    } else if d == 1 {
        '1'
    } else if d == 2 {
        '2'
    } else if d == 3 {
        '3'
    } else if d == 4 {
        '4'
    } else if d == 5 {
        '5'
    } else if d == 6 {
        '6'
    } else if d == 7 {
        '7'
    } else if d == 8 {
        '8'
    } else {
        '9'
    }
}

/// Distinct numbers are written differently.
pub proof fn lemma_decimal_injective(n: nat, m: nat)
    requires
        decimal(n) == decimal(m),
    ensures
        n == m,
    decreases n,
{
    lemma_decimal_len(n);
    lemma_decimal_len(m);
    if n < 10 {
        lemma_digit_text_injective(n, m);
    } else {
        let dn = decimal(n);
        lemma_digit_len(n % 10);
        lemma_digit_len(m % 10);
        assert(dn.subrange(0, dn.len() - 1) =~= decimal(n / 10));
        assert(dn.subrange(0, dn.len() - 1) =~= decimal(m / 10));
        assert(dn.subrange(dn.len() - 1, dn.len() as int) =~= digit_text(n % 10));
        assert(dn.subrange(dn.len() - 1, dn.len() as int) =~= digit_text(m % 10));
        lemma_decimal_injective(n / 10, m / 10);
        lemma_digit_text_injective(n % 10, m % 10);
    }
}

/// The part of `p + d + q` between `p` and `q` is `d`.
proof fn lemma_between(p: Seq<char>, d: Seq<char>, q: Seq<char>)
    ensures
        (p + d + q).subrange(p.len() as int, (p + d + q).len() - q.len()) =~= d,
{
}

/// Distinct actors are shown differently, in routes and in events.
pub proof fn lemma_actor_text_injective(a1: ActorId, a2: ActorId)
    ensures
        actor_text(a1) == actor_text(a2) ==> a1 == a2,
        actor_detail(a1) == actor_detail(a2) ==> a1 == a2,
{
    reveal_strlit("Coordinator");
    reveal_strlit("Node(");
    reveal_strlit(")");
    reveal_strlit("Node(NodeId(");
    reveal_strlit("))");
    match (a1, a2) {
        (ActorId::Node(i), ActorId::Node(j)) => {
            lemma_between("Node("@, decimal(i.0 as nat), ")"@);
            lemma_between("Node("@, decimal(j.0 as nat), ")"@);
            lemma_between("Node(NodeId("@, decimal(i.0 as nat), "))"@);
            lemma_between("Node(NodeId("@, decimal(j.0 as nat), "))"@);
            if actor_text(a1) == actor_text(a2) {
                lemma_decimal_injective(i.0 as nat, j.0 as nat);
            }
            if actor_detail(a1) == actor_detail(a2) {
                lemma_decimal_injective(i.0 as nat, j.0 as nat);
            }
        },
        (ActorId::Coordinator, ActorId::Node(j)) => {
            assert(actor_text(a1)[0] != actor_text(a2)[0]);
            assert(actor_detail(a1)[0] != actor_detail(a2)[0]);
        },
        (ActorId::Node(i), ActorId::Coordinator) => {
            assert(actor_text(a1)[0] != actor_text(a2)[0]);
            assert(actor_detail(a1)[0] != actor_detail(a2)[0]);
        },
        _ => {},
    }
}

/// Distinct external events are shown differently: the timeline names the
/// kind of event and the actor it concerns.
pub proof fn lemma_event_text_injective(e1: ExternalEvent, e2: ExternalEvent)
    ensures
        event_text(e1) == event_text(e2) ==> e1 == e2,
{
    reveal_strlit("StartTransaction");
    reveal_strlit("Tick { to: ");
    reveal_strlit(" }");
    reveal_strlit("TickAll");
    reveal_strlit("Crash(");
    reveal_strlit("Recover(");
    reveal_strlit(")");
    if event_text(e1) == event_text(e2) {
        let t = event_text(e1);
        assert(t[0] == event_text(e2)[0]);
        assert(t[4] == event_text(e2)[4]);
        match (e1, e2) {
            (ExternalEvent::Tick { to: a }, ExternalEvent::Tick { to: b }) => {
                lemma_between("Tick { to: "@, actor_detail(a), " }"@);
                lemma_between("Tick { to: "@, actor_detail(b), " }"@);
                lemma_actor_text_injective(a, b);
            },
            (ExternalEvent::Crash(a), ExternalEvent::Crash(b)) => {
                lemma_between("Crash("@, actor_detail(a), ")"@);
                lemma_between("Crash("@, actor_detail(b), ")"@);
                lemma_actor_text_injective(a, b);
            },
            (ExternalEvent::Recover(a), ExternalEvent::Recover(b)) => {
                lemma_between("Recover("@, actor_detail(a), ")"@);
                lemma_between("Recover("@, actor_detail(b), ")"@);
                lemma_actor_text_injective(a, b);
            },
            _ => {},
        }
    }
}

} // verus!
