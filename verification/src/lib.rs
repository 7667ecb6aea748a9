//! A real-time broadcast relay core: named channels that keep an ordered
//! message history and a set of subscribed outbound endpoints, a registry
//! that owns every channel, and the per-connection protocol state machine
//! that drives the registry from parsed text frames.
//!
//! Transport accept/handshake, configuration loading and logging live
//! outside this crate; the registry sees a connection only as an
//! [`endpoint::Endpoint`]: an identity plus a queue of outbound frames.

pub mod endpoint;
pub mod message;
pub mod protocol;
pub mod registry;
