//! Error taxonomy. Malformed input is rejected immediately and surfaced to
//! the caller; an insufficient quorum is an expected, retryable condition.

use vstd::prelude::*;

verus! {

/// KvError is all kinds of Error of kv-server.
#[derive(Clone, Debug, PartialEq, Eq)]
pub enum KvError {
    Internal(String),

    InvalidCommand(String),

    NotFound(String, String),
}

/// What can go wrong in a Prepare/Accept exchange.
#[derive(Clone, Copy, PartialEq, Eq, Structural, Debug)]
pub enum PaxosError {
    /// The request named no instance.
    NoInstanceId,
    /// The request named an instance with an empty key.
    EmptyKey,
    /// The request (or the proposer about to classify replies) carried no ballot.
    NoBallot,
    /// A reply carried no `last_bal`: a protocol violation, failed immediately.
    NoLastBallot,
    /// Fewer positive replies than the quorum needs: retry with the escalated ballot.
    NotEnoughQuorum,
}

} // verus!
