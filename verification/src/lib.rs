//! Client side of a session-oriented, multiplexed game-network protocol.
//!
//! One physical connection carries several independent logical channels:
//! a dedicated control stream pair for the handshake and periodic statistics,
//! a reserved bidirectional channel for request/response calls, and
//! application-registered channels for bidirectional requests, one-shot
//! notifications and small unordered datagrams.  Every multiplexed message is
//! framed by a four-byte big-endian channel identifier followed by an opaque
//! payload.
//!
//! The crate holds the protocol logic itself: the envelope codec, the control
//! frame codec, the handshake state machine, the dispatch registries, the
//! request/response correlation rules, the statistics sampler and the
//! per-connection event loop expressed as a step function from state and
//! event to next state and actions.  The physical transport (streams,
//! datagrams, timers) stays outside: a driver feeds events in and performs
//! the returned actions.

pub mod control;
pub mod envelope;
pub mod registry;
pub mod rpc;
pub mod session;
pub mod errors;
pub mod mesh_buffer;
pub mod stats;
pub mod use_once;
