//! The acceptor set a proposer fans out to: replicas addressed by id, each
//! serving Prepare/Accept for the instances it hosts. A replica that is not
//! reachable, or that rejects a request, simply contributes no reply.

use vstd::prelude::*;

use crate::ballot::BallotNum;
use crate::message::{Acceptor, Proposer, Value};
use crate::quorum::{count_where, lemma_count_overlap, lemma_count_pos_exists, lemma_quorum_majority, spec_quorum};
use crate::server::{spec_accepted, spec_prepared, KVServer};

verus! {

/// The two protocol actions a fanout can carry.
#[derive(Clone, Copy, PartialEq, Eq, Structural, Debug)]
pub enum Action {
    Prepare,
    Accept,
}

/// One acceptor replica together with the id it is addressed by.
#[derive(Debug)]
pub struct Member {
    pub id: i64,
    pub server: KVServer,
}

/// A fixed set of acceptor replicas.
#[derive(Debug)]
pub struct Cluster {
    pub members: Vec<Member>,
}

/// Scan the member list from index `i` for the replica addressed by `id`.
pub open spec fn member_from(s: Seq<Member>, i: int, id: i64) -> Option<KVServer>
    decreases s.len() - i,
{
    if i < 0 || i >= s.len() {
        None
    } else if s[i].id == id {
        Some(s[i].server)
    } else {
        member_from(s, i + 1, id)
    }
}

impl Cluster {
    pub open spec fn has_member(self, id: i64) -> bool {
        member_from(self.members@, 0, id) is Some
    }

    /// The acceptor state held for instance `(key, ver)` by the replica
    /// addressed by `id`. Total: an absent replica shows the initial state,
    /// though it contributes no reply (`has_member` tells the two apart).
    pub open spec fn acc_of(self, id: i64, key: Seq<char>, ver: int) -> Acceptor {
        match member_from(self.members@, 0, id) {
            Some(srv) => srv.acc_of(key, ver),
            None => Acceptor::spec_init(),
        }
    }

    pub open spec fn wf(self) -> bool {
        &&& forall|i: int, j: int|
            0 <= i < j < self.members@.len() ==> (#[trigger] self.members@[i]).id != (#[trigger] self.members@[j]).id
        &&& forall|i: int| 0 <= i < self.members@.len() ==> (#[trigger] self.members@[i]).server.wf()
    }

    pub fn new() -> (r: Cluster)
        ensures
            r.wf(),
            forall|id: i64| !r.has_member(id),
    {
        let r = Cluster { members: Vec::new() };
        proof {
            assert forall|id: i64| !r.has_member(id) by {
                assert(member_from(r.members@, 0, id) is None);
            }
        }
        r
    }

    /// Add a replica under a fresh id.
    pub fn add_member(&mut self, id: i64, server: KVServer)
        requires
            old(self).wf(),
            !old(self).has_member(id),
            server.wf(),
        ensures
            final(self).wf(),
            forall|id2: i64| final(self).has_member(id2) == (id2 == id || old(self).has_member(id2)),
            forall|k: Seq<char>, v: int| final(self).acc_of(id, k, v) == server.acc_of(k, v),
            forall|id2: i64, k: Seq<char>, v: int|
                id2 != id ==> final(self).acc_of(id2, k, v) == old(self).acc_of(id2, k, v),
    {
        let ghost pre = self.members@;
        proof {
            lemma_member_no_id(pre, 0, id);
        }
        self.members.push(Member { id, server });
        proof {
            let post = self.members@;
            assert(forall|j: int| 0 <= j < pre.len() ==> post[j] == pre[j]);
            lemma_member_match(post, 0, pre.len() as int);
            assert forall|id2: i64| id2 != id implies member_from(post, 0, id2) == member_from(pre, 0, id2) by {
                lemma_member_push_other(pre, post, 0, id2);
            }
        }
    }
}

/// A scan that starts at or before a member's index and looks for its id finds
/// a replica (the member itself, ids being distinct).
proof fn lemma_member_match(s: Seq<Member>, i: int, j: int)
    requires
        forall|x: int, y: int| 0 <= x < y < s.len() ==> (#[trigger] s[x]).id != (#[trigger] s[y]).id,
        0 <= i <= j < s.len(),
    ensures
        member_from(s, i, s[j].id) == Some(s[j].server),
    decreases s.len() - i,
{
    if s[i].id == s[j].id {
        assert(i == j);
    } else {
        lemma_member_match(s, i + 1, j);
    }
}

/// No member carries `id`: the scan finds nothing.
proof fn lemma_member_no_id(s: Seq<Member>, i: int, id: i64)
    requires
        member_from(s, 0, id) is None,
        i >= 0,
    ensures
        forall|j: int| i <= j < s.len() ==> (#[trigger] s[j]).id != id,
    decreases s.len() - i,
{
    if i < s.len() {
        lemma_member_none_forward(s, 0, i, id);
        lemma_member_no_id(s, i + 1, id);
    }
}

proof fn lemma_member_none_forward(s: Seq<Member>, i: int, j: int, id: i64)
    requires
        0 <= i <= j < s.len(),
        member_from(s, i, id) is None,
    ensures
        s[j].id != id,
        member_from(s, j, id) is None,
    decreases j - i,
{
    if i < j {
        lemma_member_none_forward(s, i + 1, j, id);
    }
}

/// Appending a member with another id leaves a scan for `id` unchanged.
proof fn lemma_member_push_other(pre: Seq<Member>, post: Seq<Member>, i: int, id: i64)
    requires
        post.len() == pre.len() + 1,
        forall|j: int| 0 <= j < pre.len() ==> post[j] == pre[j],
        post[pre.len() as int].id != id,
    ensures
        member_from(post, i, id) == member_from(pre, i, id),
    decreases post.len() - i,
{
    if 0 <= i < post.len() {
        lemma_member_push_other(pre, post, i + 1, id);
    }
}

/// Replacing one member's server (same id) moves the cluster view only at that
/// replica, by exactly the server's own change.
proof fn lemma_update_member(pre: Cluster, post: Cluster, idx: int)
    requires
        pre.wf(),
        0 <= idx < pre.members@.len(),
        post.members@.len() == pre.members@.len(),
        post.members@[idx].id == pre.members@[idx].id,
        post.members@[idx].server.wf(),
        forall|j: int| 0 <= j < pre.members@.len() && j != idx ==> post.members@[j] == pre.members@[j],
    ensures
        post.wf(),
        forall|id: i64| post.has_member(id) == pre.has_member(id),
        forall|k: Seq<char>, v: int|
            post.acc_of(pre.members@[idx].id, k, v) == post.members@[idx].server.acc_of(k, v),
        forall|id: i64, k: Seq<char>, v: int|
            id != pre.members@[idx].id ==> post.acc_of(id, k, v) == pre.acc_of(id, k, v),
{
    let s = pre.members@;
    let t = post.members@;
    let mid = s[idx].id;
    assert(forall|j: int| 0 <= j < s.len() ==> (#[trigger] t[j]).id == (#[trigger] s[j]).id);
    lemma_member_match(t, 0, idx);
    lemma_member_match(s, 0, idx);
    assert forall|id: i64| id != mid implies member_from(t, 0, id) == member_from(s, 0, id) by {
        lemma_member_congruent(s, t, 0, id);
    }
    assert forall|id: i64| post.has_member(id) == pre.has_member(id) by {
        if id != mid {
            lemma_member_congruent(s, t, 0, id);
        }
    }
}

proof fn lemma_member_congruent(s: Seq<Member>, t: Seq<Member>, i: int, id: i64)
    requires
        s.len() == t.len(),
        forall|j: int| 0 <= j < s.len() ==> (#[trigger] t[j]).id == (#[trigger] s[j]).id,
        forall|j: int| 0 <= j < s.len() && (#[trigger] s[j]).id == id ==> t[j].server == s[j].server,
    ensures
        member_from(s, i, id) == member_from(t, i, id),
    decreases s.len() - i,
{
    if 0 <= i < s.len() {
        lemma_member_congruent(s, t, i + 1, id);
    }
}

/// One fanout step on the state of instance `(key, ver)` at an acceptor.
pub open spec fn spec_step(a: Acceptor, action: Action, p: Proposer) -> Acceptor {
    match action {
        Action::Prepare => spec_prepared(a, p.bal.unwrap()),
        Action::Accept => spec_accepted(a, p.bal.unwrap(), p.val),
    }
}

impl Cluster {
    fn find_member(&self, id: i64) -> (r: Option<usize>)
        requires
            self.wf(),
        ensures
            match r {
                Some(idx) => idx < self.members@.len() && self.members@[idx as int].id == id
                    && member_from(self.members@, 0, id) == Some(self.members@[idx as int].server),
                None => !self.has_member(id),
            },
    {
        let n = self.members.len();
        let mut i: usize = 0;
        while i < n
            invariant
                self.wf(),
                n == self.members@.len(),
                i <= n,
                forall|j: int| 0 <= j < i ==> (#[trigger] self.members@[j]).id != id,
            decreases n - i,
        {
            if self.members[i].id == id {
                proof {
                    lemma_member_match(self.members@, 0, i as int);
                }
                return Some(i);
            }
            i += 1;
        }
        proof {
            lemma_member_none_from(self.members@, 0, id);
        }
        None
    }

    /// Send one request to the replica addressed by `id` and take its reply.
    /// A missing replica, like one that rejects the request, yields no reply
    /// and is simply excluded from the fanout's reply set.
    pub fn dispatch(&mut self, id: i64, action: Action, p: &Proposer) -> (r: Option<Acceptor>)
        requires
            old(self).wf(),
        ensures
            final(self).wf(),
            forall|id2: i64| final(self).has_member(id2) == old(self).has_member(id2),
            !(old(self).has_member(id) && p.req_wf()) ==> r is None && forall|id2: i64, k: Seq<char>, v: int|
                final(self).acc_of(id2, k, v) == old(self).acc_of(id2, k, v),
            old(self).has_member(id) && p.req_wf() ==> {
                let key = p.id.unwrap().key@;
                let ver = p.id.unwrap().ver as int;
                &&& r == Some(old(self).acc_of(id, key, ver))
                &&& final(self).acc_of(id, key, ver) == spec_step(
                    old(self).acc_of(id, key, ver),
                    action,
                    *p,
                )
                &&& forall|id2: i64, k: Seq<char>, v: int|
                    !(id2 == id && k == key && v == ver) ==> final(self).acc_of(id2, k, v)
                        == old(self).acc_of(id2, k, v)
            },
    {
        let idx = match self.find_member(id) {
            Some(idx) => idx,
            None => {
                return None;
            },
        };
        let ghost pre = *self;
        let res = match action {
            Action::Prepare => self.members[idx].server.prepare(p),
            Action::Accept => self.members[idx].server.accept(p),
        };
        proof {
            lemma_update_member(pre, *self, idx as int);
        }
        match res {
            Ok(reply) => Some(reply),
            Err(_) => None,
        }
    }
}

/// Has this acceptor state voted for exactly `w` at ballot `b`? Only the
/// vote matters: the acknowledged ballot may since have risen on a promise to
/// a later proposer without endangering the vote.
pub open spec fn is_voted_state(a: Acceptor, b: BallotNum, w: Value) -> bool {
    a.v_bal == Some(b) && a.val == Some(w)
}

/// How many of the acceptors addressed by `ids` hold a vote for `w` at ballot
/// `b` for instance `(key, ver)`.
pub open spec fn n_voted(
    c: Cluster,
    ids: Seq<i64>,
    key: Seq<char>,
    ver: int,
    b: BallotNum,
    w: Value,
) -> int {
    count_where(ids, |id: i64| is_voted_state(c.acc_of(id, key, ver), b, w))
}

/// `w` is chosen at ballot `b` in this cluster state: a quorum of the
/// acceptor set `ids` has voted for it at that ballot.
pub open spec fn quorum_voted(
    c: Cluster,
    ids: Seq<i64>,
    key: Seq<char>,
    ver: int,
    b: BallotNum,
    w: Value,
) -> bool {
    n_voted(c, ids, key, ver, b, w) >= spec_quorum(ids.len() as int)
}

/// Safety law: in any one cluster state, at most one value is chosen per
/// instance. Two quorums over the same acceptor set must intersect, and the
/// shared acceptor holds a single vote, so two chosen (ballot, value) pairs
/// are equal — competing proposers can never both complete an Accept round
/// with different values.
pub proof fn lemma_chosen_values_agree(
    c: Cluster,
    ids: Seq<i64>,
    key: Seq<char>,
    ver: int,
    b1: BallotNum,
    w1: Value,
    b2: BallotNum,
    w2: Value,
)
    requires
        quorum_voted(c, ids, key, ver, b1, w1),
        quorum_voted(c, ids, key, ver, b2, w2),
    ensures
        b1 == b2,
        w1 == w2,
{
    let p1 = |id: i64| is_voted_state(c.acc_of(id, key, ver), b1, w1);
    let p2 = |id: i64| is_voted_state(c.acc_of(id, key, ver), b2, w2);
    let both = |id: i64| p1(id) && p2(id);
    lemma_count_overlap(ids, p1, p2, both);
    lemma_quorum_majority(ids.len() as int);
    lemma_count_pos_exists(ids, both);
    let j = choose|j: int| 0 <= j < ids.len() && both(ids[j]);
    assert(is_voted_state(c.acc_of(ids[j], key, ver), b1, w1));
    assert(is_voted_state(c.acc_of(ids[j], key, ver), b2, w2));
}

proof fn lemma_member_none_from(s: Seq<Member>, i: int, id: i64)
    requires
        forall|j: int| i <= j < s.len() ==> (#[trigger] s[j]).id != id,
        0 <= i,
    ensures
        member_from(s, i, id) is None,
    decreases s.len() - i,
{
    if i < s.len() {
        lemma_member_none_from(s, i + 1, id);
    }
}

proof fn lemma_member_wf(s: Seq<Member>, i: int, id: i64)
    requires
        forall|j: int| 0 <= j < s.len() ==> (#[trigger] s[j]).server.wf(),
    ensures
        match member_from(s, i, id) {
            Some(srv) => srv.wf(),
            None => true,
        },
    decreases s.len() - i,
{
    if 0 <= i < s.len() && s[i].id != id {
        lemma_member_wf(s, i + 1, id);
    }
}

impl Cluster {
    /// The total view of a well-formed cluster holds well-formed state only.
    pub proof fn lemma_acc_wf(self, id: i64, key: Seq<char>, ver: int)
        requires
            self.wf(),
        ensures
            self.acc_of(id, key, ver).wf(),
    {
        lemma_member_wf(self.members@, 0, id);
        match member_from(self.members@, 0, id) {
            Some(srv) => srv.lemma_acc_wf(key, ver),
            None => (),
        }
    }
}

} // verus!
