# two_phase_commit

The Two-Phase Commit protocol as verified state machines, driven by a
deterministic discrete-event simulator with crash injection, written in Verus.

- `src/types.rs`: node and actor identifiers, votes, decisions, messages.
- `src/rng.rs`: the seeded ChaCha8 generator (`rand`, `rand_chacha`) behind
  every coin and delay, with a record of its seed and draws; probabilities are
  integers in millionths.
- `src/state_machine.rs`: the `StateMachine` trait of the actors.
- `src/coordinator.rs`, `src/participant.rs`: the actors, each specified by
  spec functions over its abstract state, with lemmas on what their steps keep.
- `src/simulator/`: the event queue, the wire-level observations and safety
  checks, the simulator, and the proof that every step keeps the protocol
  invariant, so agreement and validity hold in every reachable state.
  `termination.rs` proves that `run` ends (a measure every step lowers);
  `progress.rs` and `laws.rs` that without crashes it ends with every
  participant decided, that a quiescent simulation has everyone decided,
  that a started coordinator always sends on a due tick, and that once every
  crashed actor is back and the queue is empty, a `drain` that reports
  quiescence has everyone decided (given a retransmit timeout within its
  probes). `timeline.rs` writes
  the event log as text.
- `src/ordered.rs`: reading maps keyed by node number in key order.
- `app/`: floating-point probabilities, and the checks that a run stays
  within 64-bit times.
