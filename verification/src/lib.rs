//! One node of a gossip cluster: message handling with deduplication,
//! flood propagation to peers and retry of unacknowledged propagations.
//!
//! The node is a state machine. It takes decoded messages and timer ticks
//! and returns the messages to put on the wire; reading and writing lines
//! is left to the caller.

pub mod ident;
pub mod laws;
pub mod message;
pub mod model;
pub mod node;
pub mod reply;
