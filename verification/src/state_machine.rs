//! Trait shared by the coordinator and participant actors.
//!
//! - `on_message` handles an inbound message and returns any outgoing messages.
//! - `tick` handles time progression (retransmission, spontaneous abort) and
//!   returns any outgoing messages.
//! - `recover` restores volatile state from durable storage after a crash.
//! - `is_quiescent` reports whether the actor is in a terminal state.
//!
//! The coordinator ticks itself at the start of `on_message`, so callers
//! should not tick an actor separately before delivering a message.
use crate::types::Message;
use vstd::prelude::*;

verus! {

/// A protocol actor driven by the simulator.
///
/// Each actor implementation states, in its own contracts, how each method
/// changes its abstract state and which messages it returns.
pub trait StateMachine: Sized {
    /// Handle an inbound message and return any messages to send in response.
    fn on_message(&mut self, msg: &Message, at_time: u64) -> Vec<Message>;

    /// Advance the actor's clock. May produce spontaneous messages
    /// (retransmissions, timeouts). By default nothing happens.
    fn tick(&mut self, at_time: u64) -> (outgoing: Vec<Message>)
        default_ensures
            *final(self) == *old(self),
            outgoing@ == Seq::<Message>::empty(),
    {
        Vec::new()
    }

    /// Restore volatile state from durable storage after a crash. By default
    /// nothing happens (a stateless actor).
    fn recover(&mut self, at_time: u64) {
    }

    /// Whether this actor is in a terminal state and will not spontaneously
    /// produce new messages. By default an actor is never quiescent.
    fn is_quiescent(&self) -> (quiescent: bool)
        default_ensures
            !quiescent,
    {
        false
    }
}

} // verus!
