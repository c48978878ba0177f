//! The Two-Phase Commit (2PC) protocol as a set of verified state machines,
//! driven by a deterministic discrete-event simulator.
//!
//! The coordinator and participant actors consume messages and produce
//! outgoing messages; every transition is specified by a spec function over
//! the actor's abstract state.  The simulator drives the actors through an
//! event queue with configurable delivery delay and crash injection, and the
//! safety properties (agreement and validity) are proved to hold after every
//! simulation step.
pub mod types;
pub mod rng;
pub mod state_machine;
pub mod coordinator;
pub mod participant;
pub mod simulator;
pub mod ordered;
