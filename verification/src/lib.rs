//! Core logic of a small cluster-computing stack: a gossip-style failure
//! detector, a master-coordinated replicated file store, and a two-phase
//! batch job engine that runs over it.
//!
//! The modules here hold the decision and data logic of the three
//! subsystems; the surrounding processes (sockets, files, threads) feed
//! them plain values and carry their results back out.

pub mod client;
pub mod errors;
pub mod filesync;
pub mod leader;
pub mod master;
pub mod membership;
pub mod metadata;
pub mod textutil;
pub mod wire;
pub mod worker;
