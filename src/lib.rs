//! Communication and state-distribution layer of a leader-election service:
//! the peer wire protocol, the decisions of the peer transport, the election
//! state actor and the readiness probe.
pub mod codec;
pub mod election;
pub mod message;
pub mod readiness;
pub mod transport;
