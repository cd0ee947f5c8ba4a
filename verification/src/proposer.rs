//! The proposer: quorum fanout, the two phases' reply classification with
//! conflict-driven ballot escalation, and the top-level run loop.

use vstd::prelude::*;

use crate::ballot::{bal_zero, BallotNum};
use crate::cluster::{Action, Cluster};
use crate::error::PaxosError;
use crate::message::{Acceptor, Proposer, Value};
use crate::quorum::{count_where, lemma_count_drop_first};

verus! {

/// A reply's voted ballot, the zero ballot when the field is absent.
pub open spec fn vbal_or_zero(r: Acceptor) -> BallotNum {
    match r.v_bal {
        Some(b) => b,
        None => bal_zero(),
    }
}

/// A positive reply: it carries a `last_bal` that the sent ballot dominates,
/// i.e. the acceptor acknowledged the sent ballot.
pub open spec fn reply_ok(r: Acceptor, sent: BallotNum) -> bool {
    r.last_bal is Some && !sent.spec_less(r.last_bal.unwrap())
}

/// What classifying a reply set ends in.
pub enum ScanOutcome {
    /// Enough positive replies: the best previously voted value seen among
    /// them by the time the quorum was reached (`None`: the slot is free).
    Reached(Option<Value>),
    /// A reply without `last_bal`: a protocol violation, failed immediately.
    Malformed,
    /// Ran out of replies below the quorum; carries the highest `last_bal`
    /// observed (at least the sent ballot itself).
    Short(BallotNum),
}

/// Classify replies in order, exactly as both phases do: a reply whose
/// `last_bal` exceeds the sent ballot only raises `highest`; a positive reply
/// counts toward the quorum and may better the remembered vote; the scan stops
/// at the `need`-th positive reply.
pub open spec fn scan_replies(
    rs: Seq<Acceptor>,
    sent: BallotNum,
    need: int,
    best_bal: BallotNum,
    best_val: Option<Value>,
    highest: BallotNum,
) -> ScanOutcome
    decreases rs.len(),
{
    if rs.len() == 0 {
        ScanOutcome::Short(highest)
    } else {
        let r = rs[0];
        match r.last_bal {
            None => ScanOutcome::Malformed,
            Some(lb) => {
                if sent.spec_less(lb) {
                    scan_replies(
                        rs.drop_first(),
                        sent,
                        need,
                        best_bal,
                        best_val,
                        if highest.spec_less(lb) {
                            lb
                        } else {
                            highest
                        },
                    )
                } else {
                    let vb = vbal_or_zero(r);
                    let nb = if vb.spec_ge(best_bal) {
                        vb
                    } else {
                        best_bal
                    };
                    let nv = if vb.spec_ge(best_bal) {
                        r.val
                    } else {
                        best_val
                    };
                    if need <= 1 {
                        ScanOutcome::Reached(nv)
                    } else {
                        scan_replies(rs.drop_first(), sent, need - 1, nb, nv, highest)
                    }
                }
            },
        }
    }
}

/// The classification of a whole reply set against the quorum threshold.
pub open spec fn scan_phase(rs: Seq<Acceptor>, sent: BallotNum, quorum: int) -> ScanOutcome {
    scan_replies(rs, sent, quorum, bal_zero(), None, sent)
}

/// A scan that falls short has seen every reply, so the `highest` it carries
/// dominates every observed `last_bal` (and the accumulator it started from).
proof fn lemma_scan_short_dominates(
    rs: Seq<Acceptor>,
    sent: BallotNum,
    need: int,
    best_bal: BallotNum,
    best_val: Option<Value>,
    highest: BallotNum,
)
    requires
        highest.spec_ge(sent),
    ensures
        scan_replies(rs, sent, need, best_bal, best_val, highest) matches ScanOutcome::Short(h)
            ==> h.spec_ge(highest) && forall|j: int|
            0 <= j < rs.len() && (#[trigger] rs[j]).last_bal is Some ==> h.spec_ge(
                rs[j].last_bal.unwrap(),
            ),
    decreases rs.len(),
{
    let out = scan_replies(rs, sent, need, best_bal, best_val, highest);
    if rs.len() > 0 {
        let r = rs[0];
        if r.last_bal is Some {
            let lb = r.last_bal.unwrap();
            if sent.spec_less(lb) {
                let nh = if highest.spec_less(lb) {
                    lb
                } else {
                    highest
                };
                lemma_scan_short_dominates(rs.drop_first(), sent, need, best_bal, best_val, nh);
            } else if need > 1 {
                let vb = vbal_or_zero(r);
                let nb = if vb.spec_ge(best_bal) {
                    vb
                } else {
                    best_bal
                };
                let nv = if vb.spec_ge(best_bal) {
                    r.val
                } else {
                    best_val
                };
                lemma_scan_short_dominates(rs.drop_first(), sent, need - 1, nb, nv, highest);
            }
            if let ScanOutcome::Short(h) = out {
                assert forall|j: int|
                    0 <= j < rs.len() && (#[trigger] rs[j]).last_bal is Some implies h.spec_ge(
                    rs[j].last_bal.unwrap(),
                ) by {
                    if j > 0 {
                        assert(rs.drop_first()[j - 1] == rs[j]);
                    }
                }
            }
        }
    }
}

/// The ids a fanout addresses, without repetition.
pub open spec fn distinct_ids(ids: Seq<i64>) -> bool {
    forall|i: int, j: int| 0 <= i < j < ids.len() ==> ids[i] != ids[j]
}

/// The replies a fanout of `ids` against cluster state `c` collects for the
/// instance `(key, ver)`: the pre-state snapshot of each reachable member, in
/// fanout order; unreachable ids contribute nothing.
pub open spec fn replies_of(c: Cluster, ids: Seq<i64>, key: Seq<char>, ver: int) -> Seq<Acceptor>
    decreases ids.len(),
{
    if ids.len() == 0 {
        Seq::empty()
    } else {
        let rest = replies_of(c, ids.drop_last(), key, ver);
        if c.has_member(ids.last()) {
            rest.push(c.acc_of(ids.last(), key, ver))
        } else {
            rest
        }
    }
}

impl Proposer {
    /// The instance key this proposer runs on (meaningful when `id` is set).
    pub open spec fn spec_key(self) -> Seq<char> {
        self.id.unwrap().key@
    }

    pub open spec fn spec_ver(self) -> int {
        self.id.unwrap().ver as int
    }

    /// Send this proposer's snapshot to every listed acceptor in turn and
    /// collect the replies that came back. An unreachable or rejecting
    /// acceptor is excluded from the reply set; it is the caller's business
    /// whether what remains meets quorum.
    pub fn rpc_to_quorum(&self, cluster: &mut Cluster, acceptor_ids: &Vec<i64>, action: Action) -> (replies: Vec<
        Acceptor,
    >)
        requires
            old(cluster).wf(),
            distinct_ids(acceptor_ids@),
        ensures
            final(cluster).wf(),
            forall|id: i64| final(cluster).has_member(id) == old(cluster).has_member(id),
            !self.req_wf() ==> replies@.len() == 0 && forall|id: i64, k: Seq<char>, v: int|
                final(cluster).acc_of(id, k, v) == old(cluster).acc_of(id, k, v),
            self.req_wf() ==> {
                &&& replies@ == replies_of(*old(cluster), acceptor_ids@, self.spec_key(), self.spec_ver())
                &&& forall|j: int|
                    0 <= j < acceptor_ids@.len() && old(cluster).has_member(acceptor_ids@[j])
                        ==> final(cluster).acc_of(#[trigger] acceptor_ids@[j], self.spec_key(), self.spec_ver())
                        == crate::cluster::spec_step(
                        old(cluster).acc_of(acceptor_ids@[j], self.spec_key(), self.spec_ver()),
                        action,
                        *self,
                    )
                &&& forall|id: i64, k: Seq<char>, v: int|
                    (!(k == self.spec_key() && v == self.spec_ver()) || (forall|j: int|
                        0 <= j < acceptor_ids@.len() ==> acceptor_ids@[j] != id))
                        ==> #[trigger] final(cluster).acc_of(id, k, v) == old(cluster).acc_of(id, k, v)
            },
    {
        let ghost c0 = *old(cluster);
        let mut acceptors: Vec<Acceptor> = Vec::new();
        let n = acceptor_ids.len();
        let mut i: usize = 0;
        while i < n
            invariant
                cluster.wf(),
                distinct_ids(acceptor_ids@),
                n == acceptor_ids@.len(),
                i <= n,
                forall|id: i64| cluster.has_member(id) == c0.has_member(id),
                !self.req_wf() ==> acceptors@.len() == 0 && forall|id: i64, k: Seq<char>, v: int|
                    cluster.acc_of(id, k, v) == c0.acc_of(id, k, v),
                self.req_wf() ==> {
                    &&& acceptors@ == replies_of(c0, acceptor_ids@.take(i as int), self.spec_key(), self.spec_ver())
                    &&& forall|j: int|
                        0 <= j < i && c0.has_member(acceptor_ids@[j]) ==> cluster.acc_of(
                            #[trigger] acceptor_ids@[j],
                            self.spec_key(),
                            self.spec_ver(),
                        ) == crate::cluster::spec_step(
                            c0.acc_of(acceptor_ids@[j], self.spec_key(), self.spec_ver()),
                            action,
                            *self,
                        )
                    &&& forall|id: i64, k: Seq<char>, v: int|
                        (!(k == self.spec_key() && v == self.spec_ver()) || (forall|j: int|
                            0 <= j < i ==> acceptor_ids@[j] != id)) ==> #[trigger] cluster.acc_of(
                            id,
                            k,
                            v,
                        ) == c0.acc_of(id, k, v)
                },
            decreases n - i,
        {
            let id = acceptor_ids[i];
            let ghost pre = *cluster;
            let reply = cluster.dispatch(id, action, self);
            proof {
                assert(acceptor_ids@.take(i as int + 1).drop_last() =~= acceptor_ids@.take(
                    i as int,
                ));
            }
            match reply {
                Some(acc) => {
                    proof {
                        // the processed prefix is distinct from this id, so the
                        // pre-state of this member is still the fanout's start state
                        assert(pre.acc_of(id, self.spec_key(), self.spec_ver()) == c0.acc_of(
                            id,
                            self.spec_key(),
                            self.spec_ver(),
                        ));
                    }
                    acceptors.push(acc);
                },
                None => {},
            }
            i += 1;
        }
        proof {
            assert(acceptor_ids@.take(n as int) =~= acceptor_ids@);
        }
        acceptors
    }
}

impl Proposer {
    /// Phase-1 classification of a collected reply set. On reaching quorum,
    /// returns the best previously voted value among the positive replies
    /// (`None` when no positive acceptor had voted: the slot is free). On
    /// falling short, escalates this proposer's ballot round past every
    /// `last_bal` observed and reports the retryable quorum failure.
    pub fn decide_phase1(&mut self, replies: &Vec<Acceptor>, quorum: usize) -> (r: Result<
        Option<Value>,
        PaxosError,
    >)
        requires
            old(self).bal matches Some(b) ==> b.n < i64::MAX,
            forall|j: int|
                0 <= j < replies@.len() && (#[trigger] replies@[j]).last_bal is Some
                    ==> replies@[j].last_bal.unwrap().n < i64::MAX,
        ensures
            final(self).id == old(self).id,
            final(self).val == old(self).val,
            r == Err::<Option<Value>, PaxosError>(PaxosError::NoBallot) <==> old(self).bal is None,
            old(self).bal is None ==> final(self).bal == old(self).bal,
            old(self).bal matches Some(sent) ==> {
                let out = scan_phase(replies@, sent, quorum as int);
                &&& (out matches ScanOutcome::Reached(v) ==> r == Ok::<Option<Value>, PaxosError>(v)
                    && final(self).bal == old(self).bal)
                &&& (out is Malformed ==> r == Err::<Option<Value>, PaxosError>(
                    PaxosError::NoLastBallot,
                ) && final(self).bal == old(self).bal)
                &&& (out matches ScanOutcome::Short(h) ==> r == Err::<Option<Value>, PaxosError>(
                    PaxosError::NotEnoughQuorum,
                ) && final(self).bal == Some(
                    BallotNum { n: (h.n + 1) as i64, proposer_id: sent.proposer_id },
                ))
            },
            // Ballot monotonicity: a quorum failure leaves this proposer's
            // ballot strictly above every `last_bal` it observed in replies,
            // and strictly above the ballot it sent.
            r == Err::<Option<Value>, PaxosError>(PaxosError::NotEnoughQuorum) ==> {
                &&& forall|j: int|
                    0 <= j < replies@.len() && (#[trigger] replies@[j]).last_bal is Some
                        ==> replies@[j].last_bal.unwrap().spec_less(final(self).bal.unwrap())
                &&& old(self).bal.unwrap().spec_less(final(self).bal.unwrap())
            },
    {
        let sent = match &self.bal {
            Some(b) => *b,
            None => {
                return Err(PaxosError::NoBallot);
            },
        };
        let mut highest = sent;
        let mut best_bal = BallotNum { n: 0, proposer_id: 0 };
        let mut best_val: Option<Value> = None;
        let mut ok: usize = 0;
        let n = replies.len();
        let mut i: usize = 0;
        proof {
            assert(replies@.skip(0) =~= replies@);
        }
        while i < n
            invariant
                *self == *old(self),
                self.bal == Some(sent),
                sent.n < i64::MAX,
                forall|j: int|
                    0 <= j < replies@.len() && (#[trigger] replies@[j]).last_bal is Some
                        ==> replies@[j].last_bal.unwrap().n < i64::MAX,
                n == replies@.len(),
                i <= n,
                ok <= i,
                ok < quorum || ok == 0,
                highest.n < i64::MAX,
                highest.spec_ge(sent),
                scan_phase(replies@, sent, quorum as int) == scan_replies(
                    replies@.skip(i as int),
                    sent,
                    quorum - ok,
                    best_bal,
                    best_val,
                    highest,
                ),
            decreases n - i,
        {
            proof {
                assert(replies@.skip(i as int).drop_first() =~= replies@.skip(i as int + 1));
                assert(replies@.skip(i as int)[0] == replies@[i as int]);
            }
            let reply = replies[i];
            let r_last_bal = match reply.last_bal {
                Some(b) => b,
                None => {
                    return Err(PaxosError::NoLastBallot);
                },
            };
            if sent.less(&r_last_bal) {
                if highest.less(&r_last_bal) {
                    highest = r_last_bal;
                }
            } else {
                ok += 1;
                let r_bal = match reply.v_bal {
                    Some(b) => b,
                    None => BallotNum { n: 0, proposer_id: 0 },
                };
                if r_bal.ge(&best_bal) {
                    best_bal = r_bal;
                    best_val = reply.val;
                }
                if ok >= quorum {
                    return Ok(best_val);
                }
            }
            i += 1;
        }
        proof {
            assert(replies@.skip(n as int) =~= Seq::<Acceptor>::empty());
            lemma_scan_short_dominates(replies@, sent, quorum as int, bal_zero(), None, sent);
        }
        self.bal = Some(BallotNum { n: highest.n + 1, proposer_id: sent.proposer_id });
        Err(PaxosError::NotEnoughQuorum)
    }

    /// Phase-2 classification: the same fan-out classification as phase 1,
    /// but reaching quorum is plain success — the proposer dictated the value,
    /// so the replies' vote content does not matter. Escalation on a quorum
    /// failure mirrors phase 1 exactly.
    pub fn decide_phase2(&mut self, replies: &Vec<Acceptor>, quorum: usize) -> (r: Result<
        (),
        PaxosError,
    >)
        requires
            old(self).bal matches Some(b) ==> b.n < i64::MAX,
            forall|j: int|
                0 <= j < replies@.len() && (#[trigger] replies@[j]).last_bal is Some
                    ==> replies@[j].last_bal.unwrap().n < i64::MAX,
        ensures
            final(self).id == old(self).id,
            final(self).val == old(self).val,
            r == Err::<(), PaxosError>(PaxosError::NoBallot) <==> old(self).bal is None,
            old(self).bal is None ==> final(self).bal == old(self).bal,
            old(self).bal matches Some(sent) ==> {
                let out = scan_phase(replies@, sent, quorum as int);
                &&& (out is Reached ==> r == Ok::<(), PaxosError>(()) && final(self).bal == old(
                    self,
                ).bal)
                &&& (out is Malformed ==> r == Err::<(), PaxosError>(PaxosError::NoLastBallot)
                    && final(self).bal == old(self).bal)
                &&& (out matches ScanOutcome::Short(h) ==> r == Err::<(), PaxosError>(
                    PaxosError::NotEnoughQuorum,
                ) && final(self).bal == Some(
                    BallotNum { n: (h.n + 1) as i64, proposer_id: sent.proposer_id },
                ))
            },
            // Ballot monotonicity, as in phase 1.
            r == Err::<(), PaxosError>(PaxosError::NotEnoughQuorum) ==> {
                &&& forall|j: int|
                    0 <= j < replies@.len() && (#[trigger] replies@[j]).last_bal is Some
                        ==> replies@[j].last_bal.unwrap().spec_less(final(self).bal.unwrap())
                &&& old(self).bal.unwrap().spec_less(final(self).bal.unwrap())
            },
    {
        let sent = match &self.bal {
            Some(b) => *b,
            None => {
                return Err(PaxosError::NoBallot);
            },
        };
        let mut highest = sent;
        let ghost mut best_bal = bal_zero();
        let ghost mut best_val: Option<Value> = None;
        let mut ok: usize = 0;
        let n = replies.len();
        let mut i: usize = 0;
        proof {
            assert(replies@.skip(0) =~= replies@);
        }
        while i < n
            invariant
                *self == *old(self),
                self.bal == Some(sent),
                sent.n < i64::MAX,
                forall|j: int|
                    0 <= j < replies@.len() && (#[trigger] replies@[j]).last_bal is Some
                        ==> replies@[j].last_bal.unwrap().n < i64::MAX,
                n == replies@.len(),
                i <= n,
                ok <= i,
                ok < quorum || ok == 0,
                highest.n < i64::MAX,
                highest.spec_ge(sent),
                scan_phase(replies@, sent, quorum as int) == scan_replies(
                    replies@.skip(i as int),
                    sent,
                    quorum - ok,
                    best_bal,
                    best_val,
                    highest,
                ),
            decreases n - i,
        {
            proof {
                assert(replies@.skip(i as int).drop_first() =~= replies@.skip(i as int + 1));
                assert(replies@.skip(i as int)[0] == replies@[i as int]);
            }
            let reply = replies[i];
            let r_last_bal = match reply.last_bal {
                Some(b) => b,
                None => {
                    return Err(PaxosError::NoLastBallot);
                },
            };
            if sent.less(&r_last_bal) {
                if highest.less(&r_last_bal) {
                    highest = r_last_bal;
                }
            } else {
                ok += 1;
                proof {
                    let vb = vbal_or_zero(reply);
                    if vb.spec_ge(best_bal) {
                        best_bal = vb;
                        best_val = reply.val;
                    }
                }
                if ok >= quorum {
                    return Ok(());
                }
            }
            i += 1;
        }
        proof {
            assert(replies@.skip(n as int) =~= Seq::<Acceptor>::empty());
            lemma_scan_short_dominates(replies@, sent, quorum as int, bal_zero(), None, sent);
        }
        self.bal = Some(BallotNum { n: highest.n + 1, proposer_id: sent.proposer_id });
        Err(PaxosError::NotEnoughQuorum)
    }
}

/// Every collected reply satisfies what every addressed acceptor's state does.
proof fn lemma_replies_of_all(
    c: Cluster,
    ids: Seq<i64>,
    key: Seq<char>,
    ver: int,
    p: spec_fn(Acceptor) -> bool,
)
    requires
        forall|j: int| 0 <= j < ids.len() ==> p(c.acc_of(#[trigger] ids[j], key, ver)),
    ensures
        forall|m: int|
            0 <= m < replies_of(c, ids, key, ver).len() ==> p(#[trigger] replies_of(c, ids, key, ver)[m]),
        replies_of(c, ids, key, ver).len() <= ids.len(),
    decreases ids.len(),
{
    if ids.len() > 0 {
        assert(forall|j: int| 0 <= j < ids.drop_last().len() ==> ids.drop_last()[j] == ids[j]);
        lemma_replies_of_all(c, ids.drop_last(), key, ver, p);
    }
}

/// A reachable acceptor's pre-state stands somewhere in the collected replies.
proof fn lemma_replies_of_member(c: Cluster, ids: Seq<i64>, key: Seq<char>, ver: int, j: int)
    requires
        0 <= j < ids.len(),
        c.has_member(ids[j]),
    ensures
        exists|m: int|
            0 <= m < replies_of(c, ids, key, ver).len() && #[trigger] replies_of(c, ids, key, ver)[m]
                == c.acc_of(ids[j], key, ver),
    decreases ids.len(),
{
    let rs = replies_of(c, ids, key, ver);
    if j == ids.len() - 1 {
        assert(rs[rs.len() - 1] == c.acc_of(ids[j], key, ver));
    } else {
        assert(forall|x: int| 0 <= x < ids.drop_last().len() ==> ids.drop_last()[x] == ids[x]);
        lemma_replies_of_member(c, ids.drop_last(), key, ver, j);
        let pre = replies_of(c, ids.drop_last(), key, ver);
        let m = choose|m: int| 0 <= m < pre.len() && #[trigger] pre[m] == c.acc_of(ids[j], key, ver);
        assert(rs[m] == pre[m]);
    }
}

impl Proposer {
    /// Phase 1 (Prepare) against the listed acceptors: fan the current ballot
    /// out, then classify the replies. See `decide_phase1` for the outcome and
    /// the escalation it leaves behind.
    pub fn phase1(&mut self, cluster: &mut Cluster, acceptor_ids: &Vec<i64>, quorum: usize) -> (r:
        Result<Option<Value>, PaxosError>)
        requires
            old(cluster).wf(),
            distinct_ids(acceptor_ids@),
            old(self).bal matches Some(b) ==> b.n < i64::MAX,
            old(self).req_wf() ==> forall|j: int|
                0 <= j < acceptor_ids@.len() ==> old(cluster).acc_of(
                    #[trigger] acceptor_ids@[j],
                    old(self).spec_key(),
                    old(self).spec_ver(),
                ).last_bal.unwrap().n < i64::MAX,
        ensures
            final(cluster).wf(),
            forall|id: i64| final(cluster).has_member(id) == old(cluster).has_member(id),
            final(self).id == old(self).id,
            final(self).val == old(self).val,
            r == Err::<Option<Value>, PaxosError>(PaxosError::NoBallot) <==> old(self).bal is None,
            old(self).bal is None ==> final(self).bal == old(self).bal,
            !old(self).req_wf() ==> forall|id: i64, k: Seq<char>, v: int|
                final(cluster).acc_of(id, k, v) == old(cluster).acc_of(id, k, v),
            !old(self).req_wf() ==> (old(self).bal matches Some(sent) ==> r == Err::<
                Option<Value>,
                PaxosError,
            >(PaxosError::NotEnoughQuorum) && final(self).bal == Some(
                BallotNum { n: (sent.n + 1) as i64, proposer_id: sent.proposer_id },
            )),
            old(self).req_wf() ==> {
                let key = old(self).spec_key();
                let ver = old(self).spec_ver();
                let sent = old(self).bal.unwrap();
                let rs = replies_of(*old(cluster), acceptor_ids@, key, ver);
                let out = scan_phase(rs, sent, quorum as int);
                &&& (out matches ScanOutcome::Reached(v) ==> r == Ok::<Option<Value>, PaxosError>(v)
                    && final(self).bal == old(self).bal)
                &&& (out is Malformed ==> r == Err::<Option<Value>, PaxosError>(
                    PaxosError::NoLastBallot,
                ) && final(self).bal == old(self).bal)
                &&& (out matches ScanOutcome::Short(h) ==> r == Err::<Option<Value>, PaxosError>(
                    PaxosError::NotEnoughQuorum,
                ) && final(self).bal == Some(
                    BallotNum { n: (h.n + 1) as i64, proposer_id: sent.proposer_id },
                ))
                &&& forall|j: int|
                    0 <= j < acceptor_ids@.len() && old(cluster).has_member(acceptor_ids@[j])
                        ==> final(cluster).acc_of(#[trigger] acceptor_ids@[j], key, ver)
                        == crate::server::spec_prepared(
                        old(cluster).acc_of(acceptor_ids@[j], key, ver),
                        sent,
                    )
                &&& forall|id: i64, k: Seq<char>, v: int|
                    (!(k == key && v == ver) || (forall|j: int|
                        0 <= j < acceptor_ids@.len() ==> acceptor_ids@[j] != id))
                        ==> #[trigger] final(cluster).acc_of(id, k, v) == old(cluster).acc_of(
                        id,
                        k,
                        v,
                    )
            },
            // a Prepare fanout never touches a vote, anywhere
            forall|id: i64, k: Seq<char>, v: int| {
                let a0 = old(cluster).acc_of(id, k, v);
                let a1 = #[trigger] final(cluster).acc_of(id, k, v);
                a1.v_bal == a0.v_bal && a1.val == a0.val
            },
            // safety at phase granularity: with every acceptor reachable and a
            // majority threshold, a completed Phase 1 against a chosen
            // instance can only mandate the chosen value
            old(self).req_wf() && quorum as int >= crate::quorum::spec_quorum(
                acceptor_ids@.len() as int,
            ) && (forall|j: int|
                0 <= j < acceptor_ids@.len() ==> old(cluster).has_member(
                    #[trigger] acceptor_ids@[j],
                )) ==> forall|b: BallotNum, w: Value|
                chosen_and_top(
                    *old(cluster),
                    acceptor_ids@,
                    old(self).spec_key(),
                    old(self).spec_ver(),
                    b,
                    w,
                ) ==> (r matches Ok(v) ==> v == Some(w)),
            // Ballot monotonicity at the cluster: after a quorum failure the
            // escalated ballot strictly dominates what every reachable
            // addressed acceptor now holds, and the ballot that was sent.
            old(self).req_wf() && r == Err::<Option<Value>, PaxosError>(PaxosError::NotEnoughQuorum)
                ==> {
                &&& forall|j: int|
                    0 <= j < acceptor_ids@.len() && old(cluster).has_member(acceptor_ids@[j])
                        ==> final(cluster).acc_of(
                        #[trigger] acceptor_ids@[j],
                        old(self).spec_key(),
                        old(self).spec_ver(),
                    ).last_bal.unwrap().spec_less(final(self).bal.unwrap())
                &&& old(self).bal.unwrap().spec_less(final(self).bal.unwrap())
            },
    {
        let ghost c0 = *old(cluster);
        let ghost key = old(self).spec_key();
        let ghost ver = old(self).spec_ver();
        let replies = self.rpc_to_quorum(cluster, acceptor_ids, Action::Prepare);
        proof {
            if self.req_wf() {
                if self.bal is Some {
                    let bound = |a: Acceptor| a.last_bal is Some ==> a.last_bal.unwrap().n
                        < i64::MAX;
                    lemma_replies_of_all(c0, acceptor_ids@, key, ver, bound);
                }
            }
        }
        let r = self.decide_phase1(&replies, quorum);
        proof {
            if old(self).req_wf() && quorum as int >= crate::quorum::spec_quorum(
                acceptor_ids@.len() as int,
            ) && (forall|j: int|
                0 <= j < acceptor_ids@.len() ==> c0.has_member(#[trigger] acceptor_ids@[j])) {
                let sent = old(self).bal.unwrap();
                let rs = replies_of(c0, acceptor_ids@, key, ver);
                lemma_replies_all_members(c0, acceptor_ids@, key, ver);
                assert forall|b: BallotNum, w: Value|
                    chosen_and_top(c0, acceptor_ids@, key, ver, b, w) implies (
                scan_phase(rs, sent, quorum as int) matches ScanOutcome::Reached(v) ==> v == Some(
                    w,
                )) by {
                    let low = |a: Acceptor| reply_ok(a, sent) && vbal_or_zero(a) != b;
                    let notlow = |a: Acceptor| !low(a);
                    let voted = |id: i64| crate::cluster::is_voted_state(
                        c0.acc_of(id, key, ver),
                        b,
                        w,
                    );
                    assert forall|m: int|
                        0 <= m < acceptor_ids@.len() && voted(acceptor_ids@[m]) implies notlow(
                        rs[m],
                    ) by {
                        assert(rs[m] == c0.acc_of(acceptor_ids@[m], key, ver));
                    }
                    crate::quorum::lemma_count_pointwise(acceptor_ids@, rs, voted, notlow);
                    crate::quorum::lemma_count_complement(rs, low, notlow);
                    crate::quorum::lemma_quorum_majority(acceptor_ids@.len() as int);
                    assert forall|m: int|
                        0 <= m < rs.len() && reply_ok(#[trigger] rs[m], sent) implies !b.spec_less(
                        vbal_or_zero(rs[m]),
                    ) by {
                        assert(rs[m] == c0.acc_of(acceptor_ids@[m], key, ver));
                    }
                    assert forall|m: int|
                        0 <= m < rs.len() && reply_ok(#[trigger] rs[m], sent) && vbal_or_zero(
                            rs[m],
                        ) == b implies rs[m].val == Some(w) by {
                        assert(rs[m] == c0.acc_of(acceptor_ids@[m], key, ver));
                    }
                    lemma_scan_best(rs, sent, quorum as int, bal_zero(), None, sent, b, w);
                }
            }
            if old(self).req_wf() && old(self).bal is Some && r == Err::<Option<Value>, PaxosError>(
                PaxosError::NotEnoughQuorum,
            ) {
                let sent = old(self).bal.unwrap();
                let rs = replies_of(c0, acceptor_ids@, key, ver);
                assert forall|j: int|
                    0 <= j < acceptor_ids@.len() && c0.has_member(acceptor_ids@[j])
                    implies cluster.acc_of(#[trigger] acceptor_ids@[j], key, ver).last_bal.unwrap().spec_less(
                    self.bal.unwrap(),
                ) by {
                    c0.lemma_acc_wf(acceptor_ids@[j], key, ver);
                    lemma_replies_of_member(c0, acceptor_ids@, key, ver, j);
                    let m = choose|m: int|
                        0 <= m < rs.len() && #[trigger] rs[m] == c0.acc_of(
                            acceptor_ids@[j],
                            key,
                            ver,
                        );
                    assert(rs[m].last_bal.unwrap().spec_less(self.bal.unwrap()));
                }
            }
        }
        r
    }

    /// Phase 2 (Accept) against the listed acceptors: fan the chosen value out
    /// under the current ballot, then classify the replies as in phase 1.
    pub fn phase2(&mut self, cluster: &mut Cluster, acceptor_ids: &Vec<i64>, quorum: usize) -> (r:
        Result<(), PaxosError>)
        requires
            old(cluster).wf(),
            distinct_ids(acceptor_ids@),
            old(self).bal matches Some(b) ==> b.n < i64::MAX,
            old(self).req_wf() ==> forall|j: int|
                0 <= j < acceptor_ids@.len() ==> old(cluster).acc_of(
                    #[trigger] acceptor_ids@[j],
                    old(self).spec_key(),
                    old(self).spec_ver(),
                ).last_bal.unwrap().n < i64::MAX,
        ensures
            final(cluster).wf(),
            forall|id: i64| final(cluster).has_member(id) == old(cluster).has_member(id),
            final(self).id == old(self).id,
            final(self).val == old(self).val,
            r == Err::<(), PaxosError>(PaxosError::NoBallot) <==> old(self).bal is None,
            old(self).bal is None ==> final(self).bal == old(self).bal,
            !old(self).req_wf() ==> forall|id: i64, k: Seq<char>, v: int|
                final(cluster).acc_of(id, k, v) == old(cluster).acc_of(id, k, v),
            !old(self).req_wf() ==> (old(self).bal matches Some(sent) ==> r == Err::<(), PaxosError>(
                PaxosError::NotEnoughQuorum,
            ) && final(self).bal == Some(
                BallotNum { n: (sent.n + 1) as i64, proposer_id: sent.proposer_id },
            )),
            old(self).req_wf() ==> {
                let key = old(self).spec_key();
                let ver = old(self).spec_ver();
                let sent = old(self).bal.unwrap();
                let rs = replies_of(*old(cluster), acceptor_ids@, key, ver);
                let out = scan_phase(rs, sent, quorum as int);
                &&& (out is Reached ==> r == Ok::<(), PaxosError>(()) && final(self).bal == old(
                    self,
                ).bal)
                &&& (out is Malformed ==> r == Err::<(), PaxosError>(PaxosError::NoLastBallot)
                    && final(self).bal == old(self).bal)
                &&& (out matches ScanOutcome::Short(h) ==> r == Err::<(), PaxosError>(
                    PaxosError::NotEnoughQuorum,
                ) && final(self).bal == Some(
                    BallotNum { n: (h.n + 1) as i64, proposer_id: sent.proposer_id },
                ))
                &&& forall|j: int|
                    0 <= j < acceptor_ids@.len() && old(cluster).has_member(acceptor_ids@[j])
                        ==> final(cluster).acc_of(#[trigger] acceptor_ids@[j], key, ver)
                        == crate::server::spec_accepted(
                        old(cluster).acc_of(acceptor_ids@[j], key, ver),
                        sent,
                        old(self).val,
                    )
                &&& forall|id: i64, k: Seq<char>, v: int|
                    (!(k == key && v == ver) || (forall|j: int|
                        0 <= j < acceptor_ids@.len() ==> acceptor_ids@[j] != id))
                        ==> #[trigger] final(cluster).acc_of(id, k, v) == old(cluster).acc_of(
                        id,
                        k,
                        v,
                    )
            },
            // safety at phase granularity: with every acceptor reachable and a
            // majority threshold, an Accept round below the chosen ballot
            // cannot reach quorum — a competing proposer's stale value is
            // blocked, never applied
            old(self).req_wf() && quorum as int >= crate::quorum::spec_quorum(
                acceptor_ids@.len() as int,
            ) && (forall|j: int|
                0 <= j < acceptor_ids@.len() ==> old(cluster).has_member(
                    #[trigger] acceptor_ids@[j],
                )) ==> forall|b: BallotNum, w: Value|
                chosen_and_top(
                    *old(cluster),
                    acceptor_ids@,
                    old(self).spec_key(),
                    old(self).spec_ver(),
                    b,
                    w,
                ) && old(self).bal.unwrap().spec_less(b) ==> r == Err::<(), PaxosError>(
                    PaxosError::NotEnoughQuorum,
                ),
            // Ballot monotonicity at the cluster, as in phase 1.
            old(self).req_wf() && r == Err::<(), PaxosError>(PaxosError::NotEnoughQuorum) ==> {
                &&& forall|j: int|
                    0 <= j < acceptor_ids@.len() && old(cluster).has_member(acceptor_ids@[j])
                        ==> final(cluster).acc_of(
                        #[trigger] acceptor_ids@[j],
                        old(self).spec_key(),
                        old(self).spec_ver(),
                    ).last_bal.unwrap().spec_less(final(self).bal.unwrap())
                &&& old(self).bal.unwrap().spec_less(final(self).bal.unwrap())
            },
    {
        let ghost c0 = *old(cluster);
        let ghost key = old(self).spec_key();
        let ghost ver = old(self).spec_ver();
        let replies = self.rpc_to_quorum(cluster, acceptor_ids, Action::Accept);
        proof {
            if self.req_wf() {
                if self.bal is Some {
                    let bound = |a: Acceptor| a.last_bal is Some ==> a.last_bal.unwrap().n
                        < i64::MAX;
                    lemma_replies_of_all(c0, acceptor_ids@, key, ver, bound);
                }
            }
        }
        let r = self.decide_phase2(&replies, quorum);
        proof {
            if old(self).req_wf() && quorum as int >= crate::quorum::spec_quorum(
                acceptor_ids@.len() as int,
            ) && (forall|j: int|
                0 <= j < acceptor_ids@.len() ==> c0.has_member(#[trigger] acceptor_ids@[j])) {
                let sent = old(self).bal.unwrap();
                let rs = replies_of(c0, acceptor_ids@, key, ver);
                lemma_replies_all_members(c0, acceptor_ids@, key, ver);
                assert forall|m: int| 0 <= m < rs.len() implies (#[trigger] rs[m]).last_bal
                    is Some by {
                    c0.lemma_acc_wf(acceptor_ids@[m], key, ver);
                }
                assert forall|b: BallotNum, w: Value|
                    chosen_and_top(c0, acceptor_ids@, key, ver, b, w) && sent.spec_less(b) implies (
                scan_phase(rs, sent, quorum as int) is Short) by {
                    let p = |a: Acceptor| reply_ok(a, sent);
                    let notp = |a: Acceptor| !p(a);
                    let voted = |id: i64| crate::cluster::is_voted_state(
                        c0.acc_of(id, key, ver),
                        b,
                        w,
                    );
                    // a voter's acknowledged ballot is at least the chosen
                    // ballot, so a stale Accept gets no positive reply from it
                    assert forall|m: int|
                        0 <= m < acceptor_ids@.len() && voted(acceptor_ids@[m]) implies notp(
                        rs[m],
                    ) by {
                        assert(rs[m] == c0.acc_of(acceptor_ids@[m], key, ver));
                        c0.lemma_acc_wf(acceptor_ids@[m], key, ver);
                    }
                    crate::quorum::lemma_count_pointwise(acceptor_ids@, rs, voted, notp);
                    crate::quorum::lemma_count_complement(rs, p, notp);
                    crate::quorum::lemma_quorum_majority(acceptor_ids@.len() as int);
                    lemma_scan_wf_not_malformed(rs, sent, quorum as int, bal_zero(), None, sent);
                    if scan_phase(rs, sent, quorum as int) is Reached {
                        lemma_scan_reached_count(rs, sent, quorum as int, bal_zero(), None, sent);
                    }
                }
            }
            if old(self).req_wf() && old(self).bal is Some && r == Err::<(), PaxosError>(
                PaxosError::NotEnoughQuorum,
            ) {
                let sent = old(self).bal.unwrap();
                let rs = replies_of(c0, acceptor_ids@, key, ver);
                assert forall|j: int|
                    0 <= j < acceptor_ids@.len() && c0.has_member(acceptor_ids@[j])
                    implies cluster.acc_of(#[trigger] acceptor_ids@[j], key, ver).last_bal.unwrap().spec_less(
                    self.bal.unwrap(),
                ) by {
                    c0.lemma_acc_wf(acceptor_ids@[j], key, ver);
                    lemma_replies_of_member(c0, acceptor_ids@, key, ver, j);
                    let m = choose|m: int|
                        0 <= m < rs.len() && #[trigger] rs[m] == c0.acc_of(
                            acceptor_ids@[j],
                            key,
                            ver,
                        );
                    assert(rs[m].last_bal.unwrap().spec_less(self.bal.unwrap()));
                }
            }
        }
        r
    }
}

/// With every acceptor reachable, the fanout collects exactly one reply per
/// listed id, in order: the pre-state of that acceptor.
proof fn lemma_replies_all_members(c: Cluster, ids: Seq<i64>, key: Seq<char>, ver: int)
    requires
        forall|j: int| 0 <= j < ids.len() ==> c.has_member(#[trigger] ids[j]),
    ensures
        replies_of(c, ids, key, ver).len() == ids.len(),
        forall|j: int|
            0 <= j < ids.len() ==> #[trigger] replies_of(c, ids, key, ver)[j] == c.acc_of(
                ids[j],
                key,
                ver,
            ),
    decreases ids.len(),
{
    if ids.len() > 0 {
        assert(forall|j: int| 0 <= j < ids.drop_last().len() ==> ids.drop_last()[j] == ids[j]);
        lemma_replies_all_members(c, ids.drop_last(), key, ver);
    }
}

/// Enough positive replies guarantee the scan reaches its quorum.
proof fn lemma_scan_reaches(
    rs: Seq<Acceptor>,
    sent: BallotNum,
    need: int,
    best_bal: BallotNum,
    best_val: Option<Value>,
    highest: BallotNum,
)
    requires
        forall|j: int| 0 <= j < rs.len() ==> (#[trigger] rs[j]).last_bal is Some,
        count_where(rs, |r: Acceptor| reply_ok(r, sent)) >= need,
        count_where(rs, |r: Acceptor| reply_ok(r, sent)) >= 1,
    ensures
        scan_replies(rs, sent, need, best_bal, best_val, highest) is Reached,
    decreases rs.len(),
{
    let p = |r: Acceptor| reply_ok(r, sent);
    crate::quorum::lemma_count_bounds(rs, p);
    assert(rs.len() > 0);
    lemma_count_drop_first(rs, p);
    assert(forall|j: int| 1 <= j < rs.len() ==> rs[j] == #[trigger] rs.drop_first()[j - 1]);
    let r = rs[0];
    let lb = r.last_bal.unwrap();
    if sent.spec_less(lb) {
        let nh = if highest.spec_less(lb) {
            lb
        } else {
            highest
        };
        lemma_scan_reaches(rs.drop_first(), sent, need, best_bal, best_val, nh);
    } else {
        if need > 1 {
            let vb = vbal_or_zero(r);
            let nb = if vb.spec_ge(best_bal) {
                vb
            } else {
                best_bal
            };
            let nv = if vb.spec_ge(best_bal) {
                r.val
            } else {
                best_val
            };
            lemma_scan_reaches(rs.drop_first(), sent, need - 1, nb, nv, highest);
        }
    }
}

/// A scan that reaches its quorum has seen at least `need` positive replies.
proof fn lemma_scan_reached_count(
    rs: Seq<Acceptor>,
    sent: BallotNum,
    need: int,
    best_bal: BallotNum,
    best_val: Option<Value>,
    highest: BallotNum,
)
    requires
        scan_replies(rs, sent, need, best_bal, best_val, highest) is Reached,
    ensures
        count_where(rs, |r: Acceptor| reply_ok(r, sent)) >= need,
        count_where(rs, |r: Acceptor| reply_ok(r, sent)) >= 1,
    decreases rs.len(),
{
    let p = |r: Acceptor| reply_ok(r, sent);
    assert(rs.len() > 0);
    lemma_count_drop_first(rs, p);
    crate::quorum::lemma_count_bounds(rs.drop_first(), p);
    let r = rs[0];
    let lb = r.last_bal.unwrap();
    if sent.spec_less(lb) {
        let nh = if highest.spec_less(lb) {
            lb
        } else {
            highest
        };
        lemma_scan_reached_count(rs.drop_first(), sent, need, best_bal, best_val, nh);
    } else {
        if need > 1 {
            let vb = vbal_or_zero(r);
            let nb = if vb.spec_ge(best_bal) {
                vb
            } else {
                best_bal
            };
            let nv = if vb.spec_ge(best_bal) {
                r.val
            } else {
                best_val
            };
            lemma_scan_reached_count(rs.drop_first(), sent, need - 1, nb, nv, highest);
        }
    }
}

/// When no scanned reply carries a vote and none was remembered, reaching the
/// quorum reports a free slot.
proof fn lemma_scan_val_none(
    rs: Seq<Acceptor>,
    sent: BallotNum,
    need: int,
    best_bal: BallotNum,
    highest: BallotNum,
)
    requires
        forall|j: int| 0 <= j < rs.len() ==> (#[trigger] rs[j]).val is None,
    ensures
        !(scan_replies(rs, sent, need, best_bal, None, highest) matches ScanOutcome::Reached(v)
            && v is Some),
    decreases rs.len(),
{
    if rs.len() > 0 {
        assert(forall|j: int| 1 <= j < rs.len() ==> rs[j] == #[trigger] rs.drop_first()[j - 1]);
        let r = rs[0];
        if r.last_bal is Some {
            let lb = r.last_bal.unwrap();
            if sent.spec_less(lb) {
                let nh = if highest.spec_less(lb) {
                    lb
                } else {
                    highest
                };
                lemma_scan_val_none(rs.drop_first(), sent, need, best_bal, nh);
            } else if need > 1 {
                let vb = vbal_or_zero(r);
                let nb = if vb.spec_ge(best_bal) {
                    vb
                } else {
                    best_bal
                };
                lemma_scan_val_none(rs.drop_first(), sent, need - 1, nb, highest);
            }
        }
    }
}

/// Well-formed replies never let the scan fail on a malformed reply.
proof fn lemma_scan_wf_not_malformed(
    rs: Seq<Acceptor>,
    sent: BallotNum,
    need: int,
    best_bal: BallotNum,
    best_val: Option<Value>,
    highest: BallotNum,
)
    requires
        forall|j: int| 0 <= j < rs.len() ==> (#[trigger] rs[j]).last_bal is Some,
    ensures
        !(scan_replies(rs, sent, need, best_bal, best_val, highest) is Malformed),
    decreases rs.len(),
{
    if rs.len() > 0 {
        assert(forall|j: int| 1 <= j < rs.len() ==> rs[j] == #[trigger] rs.drop_first()[j - 1]);
        let r = rs[0];
        let lb = r.last_bal.unwrap();
        if sent.spec_less(lb) {
            let nh = if highest.spec_less(lb) {
                lb
            } else {
                highest
            };
            lemma_scan_wf_not_malformed(rs.drop_first(), sent, need, best_bal, best_val, nh);
        } else if need > 1 {
            let vb = vbal_or_zero(r);
            let nb = if vb.spec_ge(best_bal) {
                vb
            } else {
                best_bal
            };
            let nv = if vb.spec_ge(best_bal) {
                r.val
            } else {
                best_val
            };
            lemma_scan_wf_not_malformed(rs.drop_first(), sent, need - 1, nb, nv, highest);
        }
    }
}

/// The `highest` a short scan reports stays within any bound that covers the
/// accumulator it started from and every observed ballot.
proof fn lemma_scan_short_bound(
    rs: Seq<Acceptor>,
    sent: BallotNum,
    need: int,
    best_bal: BallotNum,
    best_val: Option<Value>,
    highest: BallotNum,
    bound: int,
)
    requires
        highest.n <= bound,
        forall|j: int|
            0 <= j < rs.len() && (#[trigger] rs[j]).last_bal is Some
                ==> rs[j].last_bal.unwrap().n <= bound,
    ensures
        scan_replies(rs, sent, need, best_bal, best_val, highest) matches ScanOutcome::Short(h)
            ==> h.n <= bound,
    decreases rs.len(),
{
    if rs.len() > 0 {
        assert(forall|j: int| 1 <= j < rs.len() ==> rs[j] == #[trigger] rs.drop_first()[j - 1]);
        let r = rs[0];
        if r.last_bal is Some {
            let lb = r.last_bal.unwrap();
            if sent.spec_less(lb) {
                let nh = if highest.spec_less(lb) {
                    lb
                } else {
                    highest
                };
                lemma_scan_short_bound(rs.drop_first(), sent, need, best_bal, best_val, nh, bound);
            } else if need > 1 {
                let vb = vbal_or_zero(r);
                let nb = if vb.spec_ge(best_bal) {
                    vb
                } else {
                    best_bal
                };
                let nv = if vb.spec_ge(best_bal) {
                    r.val
                } else {
                    best_val
                };
                lemma_scan_short_bound(rs.drop_first(), sent, need - 1, nb, nv, highest, bound);
            }
        }
    }
}

/// Every addressed acceptor's acknowledged ballot is strictly below `b`: the
/// state a proposer's escalated ballot reaches after any failed phase.
pub open spec fn dominates_all(
    c: Cluster,
    ids: Seq<i64>,
    key: Seq<char>,
    ver: int,
    b: BallotNum,
) -> bool {
    forall|j: int|
        0 <= j < ids.len() ==> c.acc_of(#[trigger] ids[j], key, ver).last_bal.unwrap().spec_less(b)
}

impl Proposer {
    /// The top-level protocol: run Phase 1, let any previously voted value
    /// override the candidate (never the other way around), then run Phase 2
    /// with that value; on either phase falling short of quorum, retry with
    /// the ballot the failure escalated to. With no candidate and no prior
    /// vote, stops and reports "nothing to propose": a pure read.
    ///
    /// Against a reachable acceptor set, a retry's escalated ballot dominates
    /// every acknowledged ballot, so the loop ends by the second round.
    pub fn run_paxos(&mut self, cluster: &mut Cluster, acceptor_ids: &Vec<i64>, val: Option<
        Value,
    >) -> (r: Option<Value>)
        requires
            old(cluster).wf(),
            distinct_ids(acceptor_ids@),
            acceptor_ids@.len() >= 1,
            forall|j: int|
                0 <= j < acceptor_ids@.len() ==> old(cluster).has_member(#[trigger] acceptor_ids@[j]),
            old(self).req_wf(),
            old(self).bal.unwrap().n <= i64::MAX - 2,
            forall|j: int|
                0 <= j < acceptor_ids@.len() ==> old(cluster).acc_of(
                    #[trigger] acceptor_ids@[j],
                    old(self).spec_key(),
                    old(self).spec_ver(),
                ).last_bal.unwrap().n <= i64::MAX - 2,
        ensures
            final(cluster).wf(),
            forall|id: i64| final(cluster).has_member(id) == old(cluster).has_member(id),
            final(self).id == old(self).id,
            final(self).bal is Some,
            final(self).bal.unwrap().proposer_id == old(self).bal.unwrap().proposer_id,
            // only the addressed acceptors' state for this instance can move
            forall|id: i64, k: Seq<char>, v: int|
                (!(k == old(self).spec_key() && v == old(self).spec_ver()) || (forall|j: int|
                    0 <= j < acceptor_ids@.len() ==> acceptor_ids@[j] != id))
                    ==> #[trigger] final(cluster).acc_of(id, k, v) == old(cluster).acc_of(id, k, v),
            // "nothing to propose" comes only of a pure read, and such a call
            // has cast or changed no vote anywhere
            r is None ==> val is None && forall|j: int|
                0 <= j < acceptor_ids@.len() ==> {
                    let a0 = old(cluster).acc_of(#[trigger] acceptor_ids@[j], old(self).spec_key(), old(self).spec_ver());
                    let a1 = final(cluster).acc_of(acceptor_ids@[j], old(self).spec_key(), old(self).spec_ver());
                    a1.v_bal == a0.v_bal && a1.val == a0.val
                },
            // read-without-write: no candidate against a never-voted instance
            // reports "nothing to propose"
            (val is None && forall|j: int|
                0 <= j < acceptor_ids@.len() ==> old(cluster).acc_of(
                    #[trigger] acceptor_ids@[j],
                    old(self).spec_key(),
                    old(self).spec_ver(),
                ).val is None) ==> r is None,
            // success: the returned value is the one this proposer proposed in
            // its final Accept round, and a quorum of the acceptor set now
            // holds that vote at the proposer's final ballot
            r matches Some(w) ==> {
                &&& final(self).val == Some(w)
                &&& crate::cluster::quorum_voted(
                    *final(cluster),
                    acceptor_ids@,
                    old(self).spec_key(),
                    old(self).spec_ver(),
                    final(self).bal.unwrap(),
                    w,
                )
                &&& forall|j: int|
                    0 <= j < acceptor_ids@.len() ==> {
                        let a0 = old(cluster).acc_of(#[trigger] acceptor_ids@[j], old(self).spec_key(), old(self).spec_ver());
                        let a1 = final(cluster).acc_of(acceptor_ids@[j], old(self).spec_key(), old(self).spec_ver());
                        a1 == Acceptor::spec_voted(final(self).bal.unwrap(), Some(w)) || (a1.v_bal
                            == a0.v_bal && a1.val == a0.val)
                    }
            },
            // a candidate set against a never-voted instance is what is chosen
            (val matches Some(u) && forall|j: int|
                0 <= j < acceptor_ids@.len() ==> old(cluster).acc_of(
                    #[trigger] acceptor_ids@[j],
                    old(self).spec_key(),
                    old(self).spec_ver(),
                ).val is None) ==> r == val,
            val is Some ==> r is Some,
            // retries only raise the ballot
            !final(self).bal.unwrap().spec_less(old(self).bal.unwrap()),
            // and never by more than one round past what was already in play,
            // neither in the proposer nor at the acceptors
            final(self).bal.unwrap().n <= round_ceiling(
                *old(cluster),
                acceptor_ids@,
                old(self).spec_key(),
                old(self).spec_ver(),
                old(self).bal.unwrap(),
            ) + 1,
            forall|j: int|
                0 <= j < acceptor_ids@.len() ==> final(cluster).acc_of(
                    #[trigger] acceptor_ids@[j],
                    old(self).spec_key(),
                    old(self).spec_ver(),
                ).last_bal.unwrap().n <= round_ceiling(
                    *old(cluster),
                    acceptor_ids@,
                    old(self).spec_key(),
                    old(self).spec_ver(),
                    old(self).bal.unwrap(),
                ) + 1,
            // safety across runs: against an instance in the state a
            // successful set leaves, every run — whatever its candidate, or
            // none — returns exactly the chosen value and leaves the instance
            // chosen again, at this run's final ballot
            forall|b: BallotNum, w: Value|
                chosen_and_top(*old(cluster), acceptor_ids@, old(self).spec_key(), old(self).spec_ver(), b, w)
                    ==> r == Some(w) && chosen_and_top(
                    *final(cluster),
                    acceptor_ids@,
                    old(self).spec_key(),
                    old(self).spec_ver(),
                    final(self).bal.unwrap(),
                    w,
                ),
    {
        let quorum = crate::quorum::quorum(acceptor_ids.len());
        let mut cur = val;
        let ghost c0 = *old(cluster);
        let ghost key = old(self).spec_key();
        let ghost ver = old(self).spec_ver();
        let ghost ceiling = round_ceiling(c0, acceptor_ids@, key, ver, old(self).bal.unwrap());
        proof {
            lemma_top_round_bounds(c0, acceptor_ids@, key, ver);
        }
        let ghost mut fuel: int = 1;
        loop
            invariant
                ceiling == round_ceiling(c0, acceptor_ids@, key, ver, old(self).bal.unwrap()),
                c0 == *old(cluster),
                c0.wf(),
                cluster.wf(),
                forall|id: i64| cluster.has_member(id) == c0.has_member(id),
                distinct_ids(acceptor_ids@),
                acceptor_ids@.len() >= 1,
                quorum == crate::quorum::spec_quorum(acceptor_ids@.len() as int),
                forall|j: int|
                    0 <= j < acceptor_ids@.len() ==> c0.has_member(#[trigger] acceptor_ids@[j]),
                self.id == old(self).id,
                self.req_wf(),
                key == self.spec_key(),
                ver == self.spec_ver(),
                self.bal is Some,
                self.bal.unwrap().proposer_id == old(self).bal.unwrap().proposer_id,
                self.bal.unwrap().n <= i64::MAX - 1,
                0 <= fuel <= 1,
                fuel == 0 ==> dominates_all(*cluster, acceptor_ids@, key, ver, self.bal.unwrap()),
                fuel == 1 ==> self.bal == old(self).bal,
                fuel == 1 ==> self.bal.unwrap().n <= i64::MAX - 2,
                self.bal.unwrap().n <= ceiling + 1,
                forall|j: int|
                    0 <= j < acceptor_ids@.len() ==> cluster.acc_of(
                        #[trigger] acceptor_ids@[j],
                        key,
                        ver,
                    ).last_bal.unwrap().n <= ceiling + 1,
                fuel == 1 ==> forall|j: int|
                    0 <= j < acceptor_ids@.len() ==> cluster.acc_of(
                        #[trigger] acceptor_ids@[j],
                        key,
                        ver,
                    ).last_bal.unwrap().n <= ceiling,
                forall|j: int|
                    0 <= j < acceptor_ids@.len() ==> cluster.acc_of(
                        #[trigger] acceptor_ids@[j],
                        key,
                        ver,
                    ).last_bal.unwrap().n <= i64::MAX - 2,
                forall|j: int|
                    0 <= j < acceptor_ids@.len() ==> {
                        let a0 = c0.acc_of(#[trigger] acceptor_ids@[j], key, ver);
                        let a1 = cluster.acc_of(acceptor_ids@[j], key, ver);
                        a1.v_bal == a0.v_bal && a1.val == a0.val
                    },
                // acknowledged ballots only rise
                forall|j: int|
                    0 <= j < acceptor_ids@.len() ==> !cluster.acc_of(
                        #[trigger] acceptor_ids@[j],
                        key,
                        ver,
                    ).last_bal.unwrap().spec_less(c0.acc_of(acceptor_ids@[j], key, ver).last_bal.unwrap()),
                forall|id: i64, k: Seq<char>, v: int|
                    (!(k == key && v == ver) || (forall|j: int|
                        0 <= j < acceptor_ids@.len() ==> acceptor_ids@[j] != id))
                        ==> #[trigger] cluster.acc_of(id, k, v) == c0.acc_of(id, k, v),
                val is Some ==> cur is Some,
                cur is None ==> val is None,
                val is None ==> cur is None,
                !self.bal.unwrap().spec_less(old(self).bal.unwrap()),
                (forall|j: int|
                    0 <= j < acceptor_ids@.len() ==> c0.acc_of(
                        #[trigger] acceptor_ids@[j],
                        key,
                        ver,
                    ).val is None) ==> cur == val,
            decreases fuel,
        {
            self.val = None;
            let ghost c_pre = *cluster;
            let ghost sent = self.bal.unwrap();
            let prepare_res = self.phase1(cluster, acceptor_ids, quorum);
            let ghost rs1 = replies_of(c_pre, acceptor_ids@, key, ver);
            proof {
                lemma_replies_all_members(c_pre, acceptor_ids@, key, ver);
                assert forall|m: int| 0 <= m < rs1.len() implies (#[trigger] rs1[m]).last_bal
                    is Some by {
                    c_pre.lemma_acc_wf(acceptor_ids@[m], key, ver);
                }
                lemma_scan_wf_not_malformed(rs1, sent, quorum as int, bal_zero(), None, sent);
            }
            match prepare_res {
                Ok(r_val) => {
                    proof {
                        if forall|j: int|
                            0 <= j < acceptor_ids@.len() ==> c0.acc_of(
                                #[trigger] acceptor_ids@[j],
                                key,
                                ver,
                            ).val is None {
                            assert forall|m: int| 0 <= m < rs1.len() implies (#[trigger] rs1[m]).val
                                is None by {
                                assert(rs1[m] == c_pre.acc_of(acceptor_ids@[m], key, ver));
                            }
                            lemma_scan_val_none(rs1, sent, quorum as int, bal_zero(), sent);
                            assert(r_val is None);
                        }
                        // against the state a successful set left, phase 1
                        // reports exactly the chosen value: any quorum of
                        // positive replies meets the quorum that voted for it
                        assert forall|b: BallotNum, w: Value|
                            chosen_and_top(c0, acceptor_ids@, key, ver, b, w) implies r_val
                            == Some(w) by {
                            let low = |a: Acceptor| reply_ok(a, sent) && vbal_or_zero(a) != b;
                            let notlow = |a: Acceptor| !low(a);
                            let voted = |id: i64| crate::cluster::is_voted_state(
                                c0.acc_of(id, key, ver),
                                b,
                                w,
                            );
                            assert forall|m: int|
                                0 <= m < acceptor_ids@.len() && voted(acceptor_ids@[m])
                                implies notlow(rs1[m]) by {
                                assert(rs1[m] == c_pre.acc_of(acceptor_ids@[m], key, ver));
                            }
                            crate::quorum::lemma_count_pointwise(acceptor_ids@, rs1, voted, notlow);
                            crate::quorum::lemma_count_complement(rs1, low, notlow);
                            crate::quorum::lemma_quorum_majority(acceptor_ids@.len() as int);
                            assert forall|m: int|
                                0 <= m < rs1.len() && reply_ok(#[trigger] rs1[m], sent)
                                implies !b.spec_less(vbal_or_zero(rs1[m])) by {
                                assert(rs1[m] == c_pre.acc_of(acceptor_ids@[m], key, ver));
                            }
                            assert forall|m: int|
                                0 <= m < rs1.len() && reply_ok(#[trigger] rs1[m], sent)
                                    && vbal_or_zero(rs1[m]) == b implies rs1[m].val == Some(w) by {
                                assert(rs1[m] == c_pre.acc_of(acceptor_ids@[m], key, ver));
                            }
                            lemma_scan_best(
                                rs1,
                                sent,
                                quorum as int,
                                bal_zero(),
                                None,
                                sent,
                                b,
                                w,
                            );
                        }
                        // and the sent ballot dominates the chosen one: the
                        // positive replies and the voters are both quorums, so
                        // some voter — whose acknowledged ballot only rose
                        // since the choice — answered positively
                        assert forall|b: BallotNum, w: Value|
                            chosen_and_top(c0, acceptor_ids@, key, ver, b, w) implies !sent.spec_less(
                            b,
                        ) by {
                            let p = |a: Acceptor| reply_ok(a, sent);
                            let geb = |a: Acceptor| a.last_bal is Some && !a.last_bal.unwrap().spec_less(b);
                            let voted = |id: i64| crate::cluster::is_voted_state(
                                c0.acc_of(id, key, ver),
                                b,
                                w,
                            );
                            let both = |a: Acceptor| p(a) && geb(a);
                            assert forall|m: int|
                                0 <= m < acceptor_ids@.len() && voted(acceptor_ids@[m])
                                implies geb(rs1[m]) by {
                                assert(rs1[m] == c_pre.acc_of(acceptor_ids@[m], key, ver));
                                c0.lemma_acc_wf(acceptor_ids@[m], key, ver);
                            }
                            crate::quorum::lemma_count_pointwise(acceptor_ids@, rs1, voted, geb);
                            lemma_scan_reached_count(rs1, sent, quorum as int, bal_zero(), None, sent);
                            crate::quorum::lemma_count_overlap(rs1, p, geb, both);
                            crate::quorum::lemma_quorum_majority(acceptor_ids@.len() as int);
                            crate::quorum::lemma_count_pos_exists(rs1, both);
                        }
                    }
                    if r_val.is_some() {
                        cur = r_val;
                    }
                    proof {
                        assert forall|b: BallotNum, w: Value|
                            chosen_and_top(c0, acceptor_ids@, key, ver, b, w) implies cur == Some(
                            w,
                        ) && !sent.spec_less(b) by {
                        }
                    }
                },
                Err(_) => {
                    proof {
                        // a well-formed reply set and a held ballot leave only
                        // the quorum failure, which escalated the ballot past
                        // everything the addressed acceptors now acknowledge
                        if fuel == 0 {
                            // a dominating ballot collects a full positive
                            // reply set, so the quorum cannot have failed
                            let p = |a: Acceptor| reply_ok(a, sent);
                            assert forall|m: int| 0 <= m < rs1.len() implies p(rs1[m]) by {
                                assert(rs1[m] == c_pre.acc_of(acceptor_ids@[m], key, ver));
                            }
                            crate::quorum::lemma_count_all(rs1, p);
                            lemma_scan_reaches(rs1, sent, quorum as int, bal_zero(), None, sent);
                            assert(false);
                        }
                        lemma_scan_short_bound(
                            rs1,
                            sent,
                            quorum as int,
                            bal_zero(),
                            None,
                            sent,
                            i64::MAX - 2,
                        );
                        lemma_scan_short_bound(
                            rs1,
                            sent,
                            quorum as int,
                            bal_zero(),
                            None,
                            sent,
                            ceiling,
                        );
                        fuel = 0;
                    }
                    continue;
                },
            };
            if cur.is_none() {
                return None;
            }
            self.val = cur;
            let ghost c_mid = *cluster;
            let ghost rs2 = replies_of(c_mid, acceptor_ids@, key, ver);
            let accept_res = self.phase2(cluster, acceptor_ids, quorum);
            proof {
                lemma_replies_all_members(c_mid, acceptor_ids@, key, ver);
                assert forall|m: int| 0 <= m < rs2.len() implies (#[trigger] rs2[m]).last_bal
                    is Some by {
                    c_mid.lemma_acc_wf(acceptor_ids@[m], key, ver);
                }
                lemma_scan_wf_not_malformed(rs2, sent, quorum as int, bal_zero(), None, sent);
                // every acceptor that was positive in phase 1 now acknowledges
                // exactly the sent ballot, so it is positive again in phase 2
                lemma_scan_reached_count(rs1, sent, quorum as int, bal_zero(), None, sent);
                let p = |a: Acceptor| reply_ok(a, sent);
                assert forall|m: int| 0 <= m < rs1.len() && p(rs1[m]) implies p(rs2[m]) by {
                    assert(rs1[m] == c_pre.acc_of(acceptor_ids@[m], key, ver));
                    assert(rs2[m] == c_mid.acc_of(acceptor_ids@[m], key, ver));
                }
                crate::quorum::lemma_count_pointwise(rs1, rs2, p, p);
                lemma_scan_reaches(rs2, sent, quorum as int, bal_zero(), None, sent);
            }
            match accept_res {
                Ok(_) => {
                    proof {
                        let w = cur.unwrap();
                        let p = |a: Acceptor| reply_ok(a, sent);
                        let voted = |id: i64| crate::cluster::is_voted_state(
                            cluster.acc_of(id, key, ver),
                            sent,
                            w,
                        );
                        assert forall|m: int|
                            0 <= m < rs2.len() && p(rs2[m]) implies voted(acceptor_ids@[m]) by {
                            assert(rs2[m] == c_mid.acc_of(acceptor_ids@[m], key, ver));
                        }
                        crate::quorum::lemma_count_pointwise(rs2, acceptor_ids@, p, voted);
                        assert forall|b: BallotNum, wc: Value|
                            chosen_and_top(c0, acceptor_ids@, key, ver, b, wc) implies cur == Some(
                            wc,
                        ) && chosen_and_top(*cluster, acceptor_ids@, key, ver, sent, wc) by {
                            assert forall|j: int|
                                0 <= j < acceptor_ids@.len() implies {
                                let a0 = c0.acc_of(#[trigger] acceptor_ids@[j], key, ver);
                                let a1 = cluster.acc_of(acceptor_ids@[j], key, ver);
                                a1 == Acceptor::spec_voted(sent, Some(wc)) || (a1.v_bal == a0.v_bal
                                    && a1.val == a0.val)
                            } by {
                                assert(rs2[j] == c_mid.acc_of(acceptor_ids@[j], key, ver));
                            }
                            lemma_chosen_stable(
                                c0,
                                *cluster,
                                acceptor_ids@,
                                key,
                                ver,
                                b,
                                wc,
                                sent,
                            );
                        }
                    }
                    return cur;
                },
                Err(_) => {
                    proof {
                        assert(false);
                    }
                    continue;
                },
            }
        }
    }
}

/// When `b` tops every positive reply's vote, every vote at `b` itself is for
/// `w`, and fewer positives than the scan needs vote below `b`, a scan that
/// reaches its quorum must have scanned a `b`-vote — majority intersection in
/// sequence form — and so reports `w`.
proof fn lemma_scan_best(
    rs: Seq<Acceptor>,
    sent: BallotNum,
    need: int,
    best_bal: BallotNum,
    best_val: Option<Value>,
    highest: BallotNum,
    b: BallotNum,
    w: Value,
)
    requires
        forall|m: int|
            0 <= m < rs.len() && reply_ok(#[trigger] rs[m], sent) ==> !b.spec_less(
                vbal_or_zero(rs[m]),
            ),
        forall|m: int|
            0 <= m < rs.len() && reply_ok(#[trigger] rs[m], sent) && vbal_or_zero(rs[m]) == b
                ==> rs[m].val == Some(w),
        !b.spec_less(best_bal),
        best_bal == b ==> best_val == Some(w),
        best_bal == b || need > count_where(
            rs,
            |a: Acceptor| reply_ok(a, sent) && vbal_or_zero(a) != b,
        ),
    ensures
        scan_replies(rs, sent, need, best_bal, best_val, highest) matches ScanOutcome::Reached(v)
            ==> v == Some(w),
    decreases rs.len(),
{
    let low = |a: Acceptor| reply_ok(a, sent) && vbal_or_zero(a) != b;
    crate::quorum::lemma_count_bounds(rs, low);
    if rs.len() > 0 {
        assert(forall|j: int| 1 <= j < rs.len() ==> rs[j] == #[trigger] rs.drop_first()[j - 1]);
        lemma_count_drop_first(rs, low);
        crate::quorum::lemma_count_bounds(rs.drop_first(), low);
        let r = rs[0];
        if r.last_bal is Some {
            let lb = r.last_bal.unwrap();
            if sent.spec_less(lb) {
                let nh = if highest.spec_less(lb) {
                    lb
                } else {
                    highest
                };
                lemma_scan_best(rs.drop_first(), sent, need, best_bal, best_val, nh, b, w);
            } else {
                assert(reply_ok(r, sent));
                let vb = vbal_or_zero(r);
                let nb = if vb.spec_ge(best_bal) {
                    vb
                } else {
                    best_bal
                };
                let nv = if vb.spec_ge(best_bal) {
                    r.val
                } else {
                    best_val
                };
                // either the accumulator already holds the top vote, or this
                // reply is not a below-`b` vote — too few of those remain —
                // so the accumulator afterwards holds the top vote, or the
                // below-`b` budget shrank along with the quorum still needed
                assert(nb == b ==> nv == Some(w)) by {
                    if vb.spec_ge(best_bal) && vb == b {
                        assert(r.val == Some(w));
                    }
                }
                if need <= 1 {
                    if best_bal != b {
                        assert(!low(r));
                        assert(vb == b);
                        assert(vb.spec_ge(best_bal));
                        assert(nv == Some(w));
                    }
                } else {
                    if best_bal == b {
                        assert(nb == b) by {
                            if vb.spec_ge(best_bal) {
                                assert(!b.spec_less(vb) && !vb.spec_less(b));
                            }
                        }
                        lemma_scan_best(rs.drop_first(), sent, need - 1, nb, nv, highest, b, w);
                    } else if low(r) {
                        lemma_scan_best(rs.drop_first(), sent, need - 1, nb, nv, highest, b, w);
                    } else {
                        assert(vb == b && nb == b && nv == Some(w));
                        lemma_scan_best(rs.drop_first(), sent, need - 1, nb, nv, highest, b, w);
                    }
                }
            }
        }
    }
}

/// The state a successful Accept round leaves for its instance: `w` is chosen
/// at `b` by a quorum, no acceptor in the set has voted above `b`, and every
/// vote at `b` itself is for `w`.
pub open spec fn chosen_and_top(
    c: Cluster,
    ids: Seq<i64>,
    key: Seq<char>,
    ver: int,
    b: BallotNum,
    w: Value,
) -> bool {
    &&& crate::cluster::quorum_voted(c, ids, key, ver, b, w)
    &&& bal_zero().spec_less(b)
    &&& forall|j: int|
        0 <= j < ids.len() ==> !b.spec_less(vbal_or_zero(c.acc_of(#[trigger] ids[j], key, ver)))
    &&& forall|j: int|
        0 <= j < ids.len() && vbal_or_zero(c.acc_of(#[trigger] ids[j], key, ver)) == b
            ==> c.acc_of(ids[j], key, ver).val == Some(w)
}

/// Law (idempotent re-read): the state a successful set with a positive
/// ballot leaves behind on a previously unvoted instance — a quorum voted for
/// the chosen value, everyone else still unvoted — is exactly the state from
/// which `run_paxos`'s read clause returns that value: a run with no
/// candidate, immediately after such a set, returns exactly what was chosen.
pub proof fn lemma_set_then_read(
    c0: Cluster,
    c1: Cluster,
    ids: Seq<i64>,
    key: Seq<char>,
    ver: int,
    b: BallotNum,
    w: Value,
)
    requires
        crate::cluster::quorum_voted(c1, ids, key, ver, b, w),
        bal_zero().spec_less(b),
        forall|j: int|
            0 <= j < ids.len() ==> {
                let a0 = c0.acc_of(#[trigger] ids[j], key, ver);
                let a1 = c1.acc_of(ids[j], key, ver);
                a1 == Acceptor::spec_voted(b, Some(w)) || (a1.v_bal == a0.v_bal && a1.val
                    == a0.val)
            },
        forall|j: int|
            0 <= j < ids.len() ==> c0.acc_of(#[trigger] ids[j], key, ver).val is None && c0.acc_of(
                ids[j],
                key,
                ver,
            ).v_bal == Some(bal_zero()),
    ensures
        chosen_and_top(c1, ids, key, ver, b, w),
{
}

/// Law (quorum arithmetic): against any well-formed reply set, a phase
/// succeeds exactly when at least `quorum` replies are positive — so exactly
/// `quorum - 1` positive replies fail the phase (escalating the ballot), and
/// `quorum` positive replies succeed.
pub proof fn lemma_quorum_decides(rs: Seq<Acceptor>, sent: BallotNum, quorum: int)
    requires
        quorum >= 1,
        forall|j: int| 0 <= j < rs.len() ==> (#[trigger] rs[j]).last_bal is Some,
    ensures
        scan_phase(rs, sent, quorum) is Reached <==> count_where(
            rs,
            |a: Acceptor| reply_ok(a, sent),
        ) >= quorum,
        scan_phase(rs, sent, quorum) is Short <==> count_where(
            rs,
            |a: Acceptor| reply_ok(a, sent),
        ) < quorum,
{
    lemma_scan_wf_not_malformed(rs, sent, quorum, bal_zero(), None, sent);
    if count_where(rs, |a: Acceptor| reply_ok(a, sent)) >= quorum {
        lemma_scan_reaches(rs, sent, quorum, bal_zero(), None, sent);
    }
    if scan_phase(rs, sent, quorum) is Reached {
        lemma_scan_reached_count(rs, sent, quorum, bal_zero(), None, sent);
    }
}

/// Law (vote stability): a successful Accept round at ballot `bf >= b`, made
/// against a state where `w` was chosen at `b` and topped the votes, leaves
/// `w` chosen — at `bf` — and topping the votes again. Chosen state survives
/// every protocol step, which is why at most one value is ever chosen.
pub proof fn lemma_chosen_stable(
    c0: Cluster,
    c1: Cluster,
    ids: Seq<i64>,
    key: Seq<char>,
    ver: int,
    b: BallotNum,
    w: Value,
    bf: BallotNum,
)
    requires
        chosen_and_top(c0, ids, key, ver, b, w),
        crate::cluster::quorum_voted(c1, ids, key, ver, bf, w),
        !bf.spec_less(b),
        forall|j: int|
            0 <= j < ids.len() ==> {
                let a0 = c0.acc_of(#[trigger] ids[j], key, ver);
                let a1 = c1.acc_of(ids[j], key, ver);
                a1 == Acceptor::spec_voted(bf, Some(w)) || (a1.v_bal == a0.v_bal && a1.val
                    == a0.val)
            },
    ensures
        chosen_and_top(c1, ids, key, ver, bf, w),
{
    assert forall|j: int| 0 <= j < ids.len() implies !bf.spec_less(
        vbal_or_zero(c1.acc_of(#[trigger] ids[j], key, ver)),
    ) && (vbal_or_zero(c1.acc_of(ids[j], key, ver)) == bf ==> c1.acc_of(ids[j], key, ver).val
        == Some(w)) by {
        let a0 = c0.acc_of(ids[j], key, ver);
        let a1 = c1.acc_of(ids[j], key, ver);
        if a1 != Acceptor::spec_voted(bf, Some(w)) {
            assert(!b.spec_less(vbal_or_zero(a0)));
            if vbal_or_zero(a1) == bf {
                assert(vbal_or_zero(a0) == bf);
                assert(bf == b);
            }
        }
    }
}

/// The highest round any of the addressed acceptors has acknowledged.
pub open spec fn top_round(c: Cluster, ids: Seq<i64>, key: Seq<char>, ver: int) -> int
    decreases ids.len(),
{
    if ids.len() == 0 {
        0
    } else {
        let rest = top_round(c, ids.drop_last(), key, ver);
        let lb = c.acc_of(ids.last(), key, ver).last_bal.unwrap().n as int;
        if lb > rest {
            lb
        } else {
            rest
        }
    }
}

/// `top_round` is an upper bound on every acknowledged round, and never negative.
pub proof fn lemma_top_round_bounds(c: Cluster, ids: Seq<i64>, key: Seq<char>, ver: int)
    ensures
        forall|j: int|
            0 <= j < ids.len() ==> c.acc_of(#[trigger] ids[j], key, ver).last_bal.unwrap().n
                <= top_round(c, ids, key, ver),
        top_round(c, ids, key, ver) >= 0,
    decreases ids.len(),
{
    if ids.len() > 0 {
        assert(forall|j: int| 0 <= j < ids.drop_last().len() ==> ids.drop_last()[j] == ids[j]);
        lemma_top_round_bounds(c, ids.drop_last(), key, ver);
    }
}

/// ... and the least such bound: any bound on the acknowledged rounds bounds it.
pub proof fn lemma_top_round_le(c: Cluster, ids: Seq<i64>, key: Seq<char>, ver: int, bound: int)
    requires
        bound >= 0,
        forall|j: int|
            0 <= j < ids.len() ==> c.acc_of(#[trigger] ids[j], key, ver).last_bal.unwrap().n
                <= bound,
    ensures
        top_round(c, ids, key, ver) <= bound,
    decreases ids.len(),
{
    if ids.len() > 0 {
        assert(forall|j: int| 0 <= j < ids.drop_last().len() ==> ids.drop_last()[j] == ids[j]);
        lemma_top_round_le(c, ids.drop_last(), key, ver, bound);
    }
}

/// The highest round in play when a run starts: the proposer's own, or the
/// highest already acknowledged. One escalation never leaves this ceiling by
/// more than one round.
pub open spec fn round_ceiling(
    c: Cluster,
    ids: Seq<i64>,
    key: Seq<char>,
    ver: int,
    b0: BallotNum,
) -> int {
    if top_round(c, ids, key, ver) > b0.n {
        top_round(c, ids, key, ver)
    } else {
        b0.n as int
    }
}


/// Law (abandoning is safe): a chosen value survives any number of Prepare
/// rounds, by any proposers, completed or abandoned — a Prepare moves no
/// vote, so a proposer that starts Phase 1 and walks away never corrupts what
/// a quorum has voted for.
pub proof fn lemma_prepare_preserves_chosen(
    c0: Cluster,
    c1: Cluster,
    ids: Seq<i64>,
    key: Seq<char>,
    ver: int,
    b: BallotNum,
    w: Value,
)
    requires
        chosen_and_top(c0, ids, key, ver, b, w),
        forall|j: int|
            0 <= j < ids.len() ==> {
                let a0 = c0.acc_of(#[trigger] ids[j], key, ver);
                let a1 = c1.acc_of(ids[j], key, ver);
                a1.v_bal == a0.v_bal && a1.val == a0.val
            },
    ensures
        chosen_and_top(c1, ids, key, ver, b, w),
{
    let p0 = |id: i64| crate::cluster::is_voted_state(c0.acc_of(id, key, ver), b, w);
    let p1 = |id: i64| crate::cluster::is_voted_state(c1.acc_of(id, key, ver), b, w);
    crate::quorum::lemma_count_pointwise(ids, ids, p0, p1);
}

} // verus!
