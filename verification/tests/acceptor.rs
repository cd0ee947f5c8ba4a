use paxoskv::ballot::BallotNum;
use paxoskv::error::{KvError, PaxosError};
use paxoskv::message::{Acceptor, PaxosInstanceId, Proposer, Value};
use paxoskv::server::KVServer;

fn req(key: &str, ver: i64, n: i64, proposer_id: i64, val: Option<Value>) -> Proposer {
    Proposer {
        id: Some(PaxosInstanceId { key: key.to_string(), ver }),
        bal: Some(BallotNum { n, proposer_id }),
        val,
    }
}

#[test]
fn test_acceptor_new_is_default() {
    let a = Acceptor::new();
    assert_eq!(a.last_bal, Some(BallotNum { n: 0, proposer_id: 0 }));
    assert_eq!(a.v_bal, Some(BallotNum { n: 0, proposer_id: 0 }));
    assert_eq!(a.val, None);
}

#[test]
fn test_prepare_promises_and_snapshots() {
    let mut srv = KVServer::new();
    // first prepare sees the default state and records the promise
    let reply = srv.prepare(&req("a", 0, 3, 1, None)).unwrap();
    assert_eq!(reply, Acceptor::new());
    // a second, lower prepare is refused silently: the reply's last_bal is the
    // promise already given, and the state does not move
    let reply = srv.prepare(&req("a", 0, 2, 9, None)).unwrap();
    assert_eq!(reply.last_bal, Some(BallotNum { n: 3, proposer_id: 1 }));
    let reply = srv.prepare(&req("a", 0, 2, 9, None)).unwrap();
    assert_eq!(reply.last_bal, Some(BallotNum { n: 3, proposer_id: 1 }));
    // an equal ballot is acknowledged (>= in the ballot order)
    let reply = srv.prepare(&req("a", 0, 3, 1, None)).unwrap();
    assert_eq!(reply.last_bal, Some(BallotNum { n: 3, proposer_id: 1 }));
}

#[test]
fn test_prepare_tie_break_by_proposer_id() {
    let mut srv = KVServer::new();
    srv.prepare(&req("a", 0, 3, 5, None)).unwrap();
    // same round, higher proposer id: acknowledged
    let reply = srv.prepare(&req("a", 0, 3, 6, None)).unwrap();
    assert_eq!(reply.last_bal, Some(BallotNum { n: 3, proposer_id: 5 }));
    let reply = srv.prepare(&req("a", 0, 3, 6, None)).unwrap();
    assert_eq!(reply.last_bal, Some(BallotNum { n: 3, proposer_id: 6 }));
}

#[test]
fn test_accept_casts_vote() {
    let mut srv = KVServer::new();
    srv.prepare(&req("a", 0, 3, 1, None)).unwrap();
    let reply = srv.accept(&req("a", 0, 3, 1, Some(Value { vi64: 42 }))).unwrap();
    // the reply is the pre-update snapshot
    assert_eq!(reply.v_bal, Some(BallotNum { n: 0, proposer_id: 0 }));
    assert_eq!(reply.val, None);
    // the vote is now recorded
    let reply = srv.prepare(&req("a", 0, 4, 1, None)).unwrap();
    assert_eq!(reply.last_bal, Some(BallotNum { n: 3, proposer_id: 1 }));
    assert_eq!(reply.v_bal, Some(BallotNum { n: 3, proposer_id: 1 }));
    assert_eq!(reply.val, Some(Value { vi64: 42 }));
}

#[test]
fn test_accept_refused_below_promise() {
    let mut srv = KVServer::new();
    srv.prepare(&req("a", 0, 5, 1, None)).unwrap();
    // a stale accept leaves the state unchanged; the stale snapshot is the
    // only signal of refusal
    let reply = srv.accept(&req("a", 0, 4, 2, Some(Value { vi64: 7 }))).unwrap();
    assert_eq!(reply.last_bal, Some(BallotNum { n: 5, proposer_id: 1 }));
    let reply = srv.prepare(&req("a", 0, 6, 1, None)).unwrap();
    assert_eq!(reply.val, None);
    assert_eq!(reply.v_bal, Some(BallotNum { n: 0, proposer_id: 0 }));
}

#[test]
fn test_accept_duplicate_is_idempotent() {
    let mut srv = KVServer::new();
    let accept = req("a", 0, 3, 1, Some(Value { vi64: 42 }));
    srv.accept(&accept).unwrap();
    // re-sending an already-applied accept with the same ballot produces the
    // same resulting state
    srv.accept(&accept).unwrap();
    let reply = srv.prepare(&req("a", 0, 3, 1, None)).unwrap();
    assert_eq!(reply.last_bal, Some(BallotNum { n: 3, proposer_id: 1 }));
    assert_eq!(reply.v_bal, Some(BallotNum { n: 3, proposer_id: 1 }));
    assert_eq!(reply.val, Some(Value { vi64: 42 }));
}

#[test]
fn test_instances_are_independent() {
    let mut srv = KVServer::new();
    srv.accept(&req("a", 0, 3, 1, Some(Value { vi64: 1 }))).unwrap();
    srv.accept(&req("a", 1, 9, 1, Some(Value { vi64: 2 }))).unwrap();
    srv.accept(&req("b", 0, 7, 1, Some(Value { vi64: 3 }))).unwrap();
    let reply = srv.prepare(&req("a", 0, 99, 1, None)).unwrap();
    assert_eq!(reply.val, Some(Value { vi64: 1 }));
    assert_eq!(reply.last_bal, Some(BallotNum { n: 3, proposer_id: 1 }));
    let reply = srv.prepare(&req("a", 1, 99, 1, None)).unwrap();
    assert_eq!(reply.val, Some(Value { vi64: 2 }));
    let reply = srv.prepare(&req("b", 0, 99, 1, None)).unwrap();
    assert_eq!(reply.val, Some(Value { vi64: 3 }));
}

#[test]
fn test_malformed_requests_rejected() {
    let mut srv = KVServer::new();
    let no_id = Proposer { id: None, bal: Some(BallotNum { n: 1, proposer_id: 1 }), val: None };
    assert_eq!(srv.prepare(&no_id), Err(PaxosError::NoInstanceId));
    assert_eq!(srv.accept(&no_id), Err(PaxosError::NoInstanceId));

    let empty_key = req("", 0, 1, 1, None);
    assert_eq!(srv.prepare(&empty_key), Err(PaxosError::EmptyKey));
    assert_eq!(srv.accept(&empty_key), Err(PaxosError::EmptyKey));

    let no_bal = Proposer {
        id: Some(PaxosInstanceId { key: "a".to_string(), ver: 0 }),
        bal: None,
        val: None,
    };
    assert_eq!(srv.prepare(&no_bal), Err(PaxosError::NoBallot));
    assert_eq!(srv.accept(&no_bal), Err(PaxosError::NoBallot));
}

#[test]
fn test_kv_error_variants() {
    let e = KvError::NotFound("t1".to_string(), "k1".to_string());
    assert_eq!(e, KvError::NotFound("t1".to_string(), "k1".to_string()));
    assert_ne!(e, KvError::Internal("t1".to_string()));
    let e = KvError::InvalidCommand("bad".to_string());
    assert_eq!(format!("{:?}", e), "InvalidCommand(\"bad\")");
}

#[test]
fn test_apply_transitions() {
    let mut a = Acceptor::new();
    let b = BallotNum { n: 2, proposer_id: 1 };
    let reply = a.apply_prepare(&b);
    assert_eq!(reply, Acceptor::new());
    assert_eq!(a.last_bal, Some(b));
    // a lower ballot leaves the record unchanged
    let low = BallotNum { n: 1, proposer_id: 9 };
    let reply = a.apply_prepare(&low);
    assert_eq!(reply.last_bal, Some(b));
    assert_eq!(a.last_bal, Some(b));
    // the accept reply is the pre-vote snapshot; the vote lands in the record
    let reply = a.apply_accept(&b, Some(Value { vi64: 5 }));
    assert_eq!(reply.val, None);
    assert_eq!(a.val, Some(Value { vi64: 5 }));
    assert_eq!(a.v_bal, Some(b));
    // a stale accept changes nothing
    a.apply_accept(&low, Some(Value { vi64: 6 }));
    assert_eq!(a.val, Some(Value { vi64: 5 }));
    assert_eq!(a.v_bal, Some(b));
}
