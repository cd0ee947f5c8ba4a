use paxoskv::ballot::BallotNum;
use paxoskv::error::PaxosError;
use paxoskv::message::{Acceptor, PaxosInstanceId, Proposer, Value};
use paxoskv::quorum::quorum;

#[test]
fn test_quorum_is_majority() {
    assert_eq!(quorum(1), 1);
    assert_eq!(quorum(2), 2);
    assert_eq!(quorum(3), 2);
    assert_eq!(quorum(4), 3);
    assert_eq!(quorum(5), 3);
    assert_eq!(quorum(100), 51);
}

#[test]
fn test_ballot_order() {
    let a = BallotNum { n: 2, proposer_id: 1 };
    let b = BallotNum { n: 1, proposer_id: 9 };
    assert!(a.ge(&b));
    assert!(!a.less(&b));
    assert!(b.less(&a));
    // same round: proposer id is the tie-break
    let c = BallotNum { n: 2, proposer_id: 2 };
    assert!(c.ge(&a));
    assert!(a.less(&c));
    assert!(!a.less(&a));
    assert!(a.ge(&a));
}

fn proposer(n: i64, proposer_id: i64) -> Proposer {
    Proposer {
        id: Some(PaxosInstanceId { key: "q".to_string(), ver: 0 }),
        bal: Some(BallotNum { n, proposer_id }),
        val: None,
    }
}

fn ok_reply(v_bal_n: i64, val: Option<Value>) -> Acceptor {
    Acceptor {
        last_bal: Some(BallotNum { n: 0, proposer_id: 0 }),
        val,
        v_bal: Some(BallotNum { n: v_bal_n, proposer_id: 0 }),
    }
}

fn refusing_reply(last_n: i64) -> Acceptor {
    Acceptor {
        last_bal: Some(BallotNum { n: last_n, proposer_id: 0 }),
        val: None,
        v_bal: Some(BallotNum { n: 0, proposer_id: 0 }),
    }
}

// reaching exactly quorum - 1 positive replies fails and escalates; reaching
// quorum succeeds
#[test]
fn test_exact_quorum_threshold() {
    // one positive of three, quorum 2: insufficient
    let mut p = proposer(5, 1);
    let replies = vec![ok_reply(0, None), refusing_reply(9), refusing_reply(8)];
    assert_eq!(p.decide_phase1(&replies, 2), Err(PaxosError::NotEnoughQuorum));
    // the ballot escalated past every observed last_bal, keeping the identity
    assert_eq!(p.bal, Some(BallotNum { n: 10, proposer_id: 1 }));

    // two positives of three, quorum 2: success
    let mut p = proposer(5, 1);
    let replies = vec![ok_reply(0, None), refusing_reply(9), ok_reply(0, None)];
    assert_eq!(p.decide_phase1(&replies, 2), Ok(None));
    assert_eq!(p.bal, Some(BallotNum { n: 5, proposer_id: 1 }));

    let mut p = proposer(5, 1);
    let replies = vec![ok_reply(0, None), refusing_reply(9), ok_reply(0, None)];
    assert_eq!(p.decide_phase2(&replies, 2), Ok(()));
    let mut p = proposer(5, 1);
    let replies = vec![ok_reply(0, None), refusing_reply(9), refusing_reply(8)];
    assert_eq!(p.decide_phase2(&replies, 2), Err(PaxosError::NotEnoughQuorum));
    assert_eq!(p.bal, Some(BallotNum { n: 10, proposer_id: 1 }));
}

// the remembered previously-voted value is the one voted at the highest
// ballot among positive replies; a later equal ballot overrides
#[test]
fn test_phase1_returns_highest_vote() {
    let mut p = proposer(9, 1);
    let replies = vec![
        ok_reply(2, Some(Value { vi64: 100 })),
        ok_reply(3, Some(Value { vi64: 200 })),
        ok_reply(1, Some(Value { vi64: 300 })),
    ];
    assert_eq!(p.decide_phase1(&replies, 3), Ok(Some(Value { vi64: 200 })));
}

// a reply without last_bal is a protocol violation and fails immediately
#[test]
fn test_malformed_reply_fails() {
    let mut p = proposer(5, 1);
    let replies = vec![Acceptor { last_bal: None, val: None, v_bal: None }];
    assert_eq!(p.decide_phase1(&replies, 1), Err(PaxosError::NoLastBallot));
    let mut p = proposer(5, 1);
    let replies = vec![Acceptor { last_bal: None, val: None, v_bal: None }];
    assert_eq!(p.decide_phase2(&replies, 1), Err(PaxosError::NoLastBallot));
}

// classification without a ballot is a malformed call, not a quorum failure
#[test]
fn test_no_ballot_rejected() {
    let mut p = Proposer {
        id: Some(PaxosInstanceId { key: "q".to_string(), ver: 0 }),
        bal: None,
        val: None,
    };
    assert_eq!(p.decide_phase1(&vec![], 1), Err(PaxosError::NoBallot));
    assert_eq!(p.decide_phase2(&vec![], 1), Err(PaxosError::NoBallot));
}

// ballot monotonicity: after a failure the resulting ballot strictly exceeds
// every last_bal observed in replies
#[test]
fn test_escalation_dominates_observed() {
    let mut p = proposer(1, 7);
    let replies = vec![refusing_reply(4), refusing_reply(9), refusing_reply(2)];
    assert_eq!(p.decide_phase1(&replies, 1), Err(PaxosError::NotEnoughQuorum));
    let escalated = p.bal.unwrap();
    for r in &replies {
        assert!(r.last_bal.unwrap().less(&escalated));
    }
    assert!(BallotNum { n: 1, proposer_id: 7 }.less(&escalated));
}
