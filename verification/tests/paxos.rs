use paxoskv::ballot::BallotNum;
use paxoskv::cluster::Cluster;
use paxoskv::message::{PaxosInstanceId, Proposer, Value};
use paxoskv::server::KVServer;

fn three_acceptors() -> Cluster {
    let mut cluster = Cluster::new();
    cluster.add_member(1, KVServer::new());
    cluster.add_member(2, KVServer::new());
    cluster.add_member(3, KVServer::new());
    cluster
}

// test non-conflict paxos phase
#[test]
fn test_non_conflict_paxos_phase() {
    let mut cluster = three_acceptors();
    let acceptor_ids = vec![1, 2, 3];

    let mut proposer = Proposer {
        id: Some(PaxosInstanceId { key: "i".to_string(), ver: 0 }),
        bal: Some(BallotNum { n: 1, proposer_id: 0 }),
        val: None,
    };
    let val = Some(Value { vi64: 1 });
    let res = proposer.run_paxos(&mut cluster, &acceptor_ids, val.clone());
    assert_eq!(res, val);
}

// test conflict paxos phase
#[test]
fn test_conflict_paxos_phase() {
    let mut cluster = three_acceptors();
    let quorum = 2;

    let mut px = Proposer {
        id: Some(PaxosInstanceId { key: "i".to_string(), ver: 0 }),
        bal: Some(BallotNum { n: 1, proposer_id: 11 }),
        val: None,
    };
    let px_val = Some(Value { vi64: 100 });
    let mut py = Proposer {
        id: Some(PaxosInstanceId { key: "i".to_string(), ver: 0 }),
        bal: Some(BallotNum { n: 2, proposer_id: 12 }),
        val: None,
    };
    let py_val = Some(Value { vi64: 200 });

    // px run paxos with phase 1
    let px_phase1 = px.phase1(&mut cluster, &vec![1, 2], quorum).unwrap();
    assert_eq!(px_phase1, None);
    // py run paxos with phase 1
    let py_phase1 = py.phase1(&mut cluster, &vec![2, 3], quorum).unwrap();
    assert_eq!(py_phase1, None);
    // px run paxos with phase 2
    px.val = px_val;
    let px_phase2 = px.phase2(&mut cluster, &vec![2, 3], quorum);
    match px_phase2 {
        Ok(_) => panic!("px should not accept"),
        Err(err) => {
            println!("px error: {:?}", err);
        }
    }
    // py run paxos with phase 2
    py.val = py_val.clone();
    py.phase2(&mut cluster, &vec![1, 2], quorum).unwrap();

    //  reagain the px_phase1
    let px_phase1 = px.phase1(&mut cluster, &vec![2, 3], quorum).unwrap();
    assert_eq!(px_phase1, py_val);
    assert_eq!(px.bal, Some(BallotNum { n: 3, proposer_id: 11 }));
    px.val = py_val;
    // px run paxos with phase 2
    px.phase2(&mut cluster, &vec![1, 2], quorum).unwrap();
}

// test proposer run paxos
#[test]
fn test_proposer_run_paxos() {
    let mut cluster = three_acceptors();
    let acceptor_ids = vec![1, 2, 3];

    // set key="i", ver=1
    {
        let mut proposer = Proposer {
            id: Some(PaxosInstanceId { key: "i".to_string(), ver: 1 }),
            bal: Some(BallotNum { n: 1, proposer_id: 1 }),
            val: None,
        };
        let val = Some(Value { vi64: 1 });
        let res = proposer.run_paxos(&mut cluster, &acceptor_ids, val.clone());
        assert_eq!(res, val);
        // get the value of key="i", ver=1
        let res = proposer.run_paxos(&mut cluster, &acceptor_ids, None);
        assert_eq!(res, val);
    }
    // set key="i", ver=2
    {
        let mut proposer = Proposer {
            id: Some(PaxosInstanceId { key: "i".to_string(), ver: 2 }),
            bal: Some(BallotNum { n: 1, proposer_id: 1 }),
            val: None,
        };
        let val = Some(Value { vi64: 2 });
        let res = proposer.run_paxos(&mut cluster, &acceptor_ids, val.clone());
        assert_eq!(res, val);
        // get the value of key="i", ver=2
        let res = proposer.run_paxos(&mut cluster, &acceptor_ids, None);
        assert_eq!(res, val);
    }
}

#[test]
fn test_proposer() {
    let mut x: i64 = 0;
    loop {
        match x % 2 {
            0 => x += 1,
            1 => {
                x += 1;
                continue;
            }
            _ => panic!("unexpected"),
        }
        if x > 10 {
            break;
        }
        println!("{}", x);
    }
}

// a set by one proposer, read back by another: the reader adopts the chosen
// value, never its own absence of a candidate
#[test]
fn test_set_then_read_by_other_proposer() {
    let mut cluster = three_acceptors();
    let acceptor_ids = vec![1, 2, 3];

    let mut setter = Proposer {
        id: Some(PaxosInstanceId { key: "x".to_string(), ver: 0 }),
        bal: Some(BallotNum { n: 1, proposer_id: 1 }),
        val: None,
    };
    let val = Some(Value { vi64: 1 });
    assert_eq!(setter.run_paxos(&mut cluster, &acceptor_ids, val.clone()), val);

    let mut reader = Proposer {
        id: Some(PaxosInstanceId { key: "x".to_string(), ver: 0 }),
        bal: Some(BallotNum { n: 1, proposer_id: 2 }),
        val: None,
    };
    assert_eq!(reader.run_paxos(&mut cluster, &acceptor_ids, None), val);
}

// read-without-write: a run with no candidate against an instance nobody has
// proposed for reports nothing to propose and casts no vote
#[test]
fn test_read_without_write() {
    let mut cluster = three_acceptors();
    let acceptor_ids = vec![1, 2, 3];

    let mut reader = Proposer {
        id: Some(PaxosInstanceId { key: "never".to_string(), ver: 7 }),
        bal: Some(BallotNum { n: 1, proposer_id: 5 }),
        val: None,
    };
    assert_eq!(reader.run_paxos(&mut cluster, &acceptor_ids, None), None);

    // a later read still finds nothing: no vote was cast by the first read
    let mut reader2 = Proposer {
        id: Some(PaxosInstanceId { key: "never".to_string(), ver: 7 }),
        bal: Some(BallotNum { n: 2, proposer_id: 6 }),
        val: None,
    };
    assert_eq!(reader2.run_paxos(&mut cluster, &acceptor_ids, None), None);
}

// safety under conflict: after two proposers raced, every confirming read
// returns the single chosen value, never the loser's
#[test]
fn test_conflicting_proposers_agree() {
    let mut cluster = three_acceptors();
    let quorum = 2;

    let mut px = Proposer {
        id: Some(PaxosInstanceId { key: "k".to_string(), ver: 0 }),
        bal: Some(BallotNum { n: 1, proposer_id: 11 }),
        val: None,
    };
    let mut py = Proposer {
        id: Some(PaxosInstanceId { key: "k".to_string(), ver: 0 }),
        bal: Some(BallotNum { n: 2, proposer_id: 12 }),
        val: None,
    };
    px.phase1(&mut cluster, &vec![1, 2], quorum).unwrap();
    py.phase1(&mut cluster, &vec![2, 3], quorum).unwrap();
    px.val = Some(Value { vi64: 100 });
    assert!(px.phase2(&mut cluster, &vec![2, 3], quorum).is_err());
    py.val = Some(Value { vi64: 200 });
    py.phase2(&mut cluster, &vec![1, 2], quorum).unwrap();

    // px must re-propose the chosen 200; and any reader sees 200
    let res = px.run_paxos(&mut cluster, &vec![1, 2, 3], Some(Value { vi64: 100 }));
    assert_eq!(res, Some(Value { vi64: 200 }));

    let mut reader = Proposer {
        id: Some(PaxosInstanceId { key: "k".to_string(), ver: 0 }),
        bal: Some(BallotNum { n: 9, proposer_id: 30 }),
        val: None,
    };
    assert_eq!(
        reader.run_paxos(&mut cluster, &vec![1, 2, 3], None),
        Some(Value { vi64: 200 })
    );
}

// once chosen, always chosen: a later proposer with a different candidate
// must end up re-proposing and returning the already-chosen value
#[test]
fn test_chosen_value_is_stable() {
    let mut cluster = three_acceptors();
    let acceptor_ids = vec![1, 2, 3];

    let mut first = Proposer {
        id: Some(PaxosInstanceId { key: "s".to_string(), ver: 0 }),
        bal: Some(BallotNum { n: 1, proposer_id: 1 }),
        val: None,
    };
    let chosen = Some(Value { vi64: 1 });
    assert_eq!(first.run_paxos(&mut cluster, &acceptor_ids, chosen.clone()), chosen);

    let mut second = Proposer {
        id: Some(PaxosInstanceId { key: "s".to_string(), ver: 0 }),
        bal: Some(BallotNum { n: 5, proposer_id: 2 }),
        val: None,
    };
    let res = second.run_paxos(&mut cluster, &acceptor_ids, Some(Value { vi64: 9 }));
    assert_eq!(res, chosen);

    let mut third = Proposer {
        id: Some(PaxosInstanceId { key: "s".to_string(), ver: 0 }),
        bal: Some(BallotNum { n: 2, proposer_id: 3 }),
        val: None,
    };
    assert_eq!(third.run_paxos(&mut cluster, &acceptor_ids, None), chosen);
}
