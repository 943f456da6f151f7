//! A verified core for a Viewstamped Replication (VR) cluster.
//!
//! The crate is split along the protocol's own seams:
//! - [`kv`]: the replicated application — a deterministic key-value state
//!   machine together with the [`kv::StateMachine`] interface the replica
//!   drives.
//! - [`message`]: the VR wire vocabulary exchanged between clients and
//!   replicas.
//! - [`effect`]: the outbound-intent vocabulary a replica produces; a driver
//!   (the simulator here, a network transport elsewhere) enacts the effects.
//! - [`replica`]: the pure per-replica protocol core,
//!   `(state, event, now) -> (state', effects)`, with the protocol's
//!   safety arguments proved over it.
//! - [`codec`]: a byte framing for messages, with a proved round trip.
//! - [`client`], [`events`], [`simulator`]: a deterministic discrete-event
//!   simulator that drives a cluster of replicas under virtual time.
//! - [`config`], [`proxy`]: plain cluster-configuration and client-session
//!   data; the I/O that fills them lives outside this crate.

pub mod client;
pub mod codec;
pub mod config;
pub mod effect;
pub mod events;
pub mod simulator;
pub mod replica;
pub mod kv;
pub mod message;
pub mod message_bus;
pub mod proxy;
