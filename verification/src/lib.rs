//! Single-decree Paxos over keyed, versioned registers.
//!
//! Each `(key, version)` pair names one independent consensus instance.
//! A `Proposer` drives the two-phase ballot protocol (Prepare, then Accept)
//! against a majority quorum of acceptors; each acceptor keeps one durable
//! vote record per instance and serves the Prepare/Accept transitions.

pub mod ballot;
pub mod cluster;
pub mod error;
pub mod message;
pub mod proposer;
pub mod quorum;
pub mod server;
