//! A Raft consensus node as a verified state machine.
//!
//! A node is driven by two inputs, a logical clock tick and an inbound
//! message. Each handler consumes the node and returns the node that follows,
//! possibly in another role, with the messages it emits appended to its
//! outbox. The node performs no I/O of its own: the driver that owns it stores
//! the log and the term record durably, then drains the outbox and transmits
//! what it holds.
//!
//! Every handler is specified against a mathematical model of the node (see
//! [`model`]): it returns what the model's function of the same name gives.
//! What holds of every node is proved over the model in [`laws`]. What holds
//! of a cluster of nodes that exchange messages over a network ([`cluster`])
//! is proved in [`election`] (at most one leader per term), [`matching`] (log
//! matching) and [`completeness`] (leader completeness).

pub mod cluster;
pub mod completeness;
pub mod election;
pub mod error;
pub mod laws;
pub mod log;
pub mod matching;
pub mod message;
pub mod model;
pub mod node;
pub mod state;
pub mod timeout;

pub use error::Error;
pub use log::Log;
pub use message::{Entry, Event, Message};
pub use model::{ELECTION_TIMEOUT_MAX, ELECTION_TIMEOUT_MIN, HEARTBEAT_INTERVAL};
pub use node::candidate::Candidate;
pub use node::follower::Follower;
pub use node::leader::Leader;
pub use node::{Node, Role, RoleNode};
pub use state::State;
