//! The data model: values, instance ids, and the two message shapes that the
//! protocol exchanges — a `Proposer` snapshot as the request and an `Acceptor`
//! snapshot as the reply, the same pair for Prepare and for Accept.

use vstd::prelude::*;

use crate::ballot::{bal_zero, BallotNum};

verus! {

/// The value part of a key-value record. The protocol is payload-agnostic;
/// here the payload is a single integer.
#[derive(Clone, Copy, PartialEq, Eq, Structural, Debug)]
pub struct Value {
    pub vi64: i64,
}

/// Names one independent Paxos decision: choosing the value of record `key`
/// at version `ver`. Distinct pairs are fully independent instances.
#[derive(Clone, Debug)]
pub struct PaxosInstanceId {
    pub key: String,
    pub ver: i64,
}

/// An acceptor's per-instance vote record, and also the reply message of both
/// Prepare and Accept: the state as observed at the moment of processing.
///
/// `last_bal` is the highest ballot this acceptor has acknowledged; `v_bal`
/// and `val` are the ballot and value of the vote it has actually cast, with
/// `val == None` meaning it has never voted. In a reply, a field may be
/// absent; in stored state all ballots are present.
#[derive(Clone, Copy, PartialEq, Debug)]
pub struct Acceptor {
    pub last_bal: Option<BallotNum>,
    pub val: Option<Value>,
    pub v_bal: Option<BallotNum>,
}

impl Acceptor {
    /// The state of an acceptor that has seen nothing yet: zero ballots, no vote.
    pub open spec fn spec_init() -> Acceptor {
        Acceptor { last_bal: Some(bal_zero()), val: None, v_bal: Some(bal_zero()) }
    }

    pub fn new() -> (r: Acceptor)
        ensures
            r == Acceptor::spec_init(),
    {
        Acceptor {
            last_bal: Some(BallotNum { n: 0, proposer_id: 0 }),
            val: None,
            v_bal: Some(BallotNum { n: 0, proposer_id: 0 }),
        }
    }

    /// Well-formedness of stored acceptor state: both ballots present, and the
    /// voted ballot never above the acknowledged one.
    pub open spec fn wf(self) -> bool {
        &&& self.last_bal is Some
        &&& self.v_bal is Some
        &&& !self.last_bal.unwrap().spec_less(self.v_bal.unwrap())
    }

    /// The state after an acceptor votes for `val` at ballot `b`.
    pub open spec fn spec_voted(b: BallotNum, val: Option<Value>) -> Acceptor {
        Acceptor { last_bal: Some(b), val, v_bal: Some(b) }
    }
}

/// A proposer's transient state, and also the request message of both Prepare
/// and Accept. `val` is `None` while preparing and carries the proposed value
/// in an Accept request.
#[derive(Clone, Debug)]
pub struct Proposer {
    pub id: Option<PaxosInstanceId>,
    pub bal: Option<BallotNum>,
    pub val: Option<Value>,
}

impl Proposer {
    /// A request is acceptable to an acceptor when it names an instance with a
    /// non-empty key and carries a ballot.
    pub open spec fn req_wf(self) -> bool {
        &&& self.id is Some
        &&& self.id.unwrap().key@.len() > 0
        &&& self.bal is Some
    }
}

} // verus!
