//! One replica's acceptor store: a lazily populated registry of per-instance
//! vote records, and the Prepare/Accept state transitions on them.

use vstd::prelude::*;

use crate::ballot::BallotNum;
use crate::error::PaxosError;
use crate::message::{Acceptor, Proposer, Value};

verus! {

/// One instance's record inside a replica: the instance id flattened beside
/// the acceptor state it owns.
#[derive(Clone, Debug)]
pub struct Slot {
    pub key: String,
    pub ver: i64,
    pub acc: Acceptor,
}

impl Slot {
    /// Does this slot belong to instance `(key, ver)`?
    pub open spec fn is_for(self, key: Seq<char>, ver: int) -> bool {
        self.key@ == key && self.ver == ver
    }
}

/// Scan `s` from index `i` for the record of instance `(key, ver)`.
pub open spec fn find_from(s: Seq<Slot>, i: int, key: Seq<char>, ver: int) -> Option<Acceptor>
    decreases s.len() - i,
{
    if i < 0 || i >= s.len() {
        None
    } else if s[i].is_for(key, ver) {
        Some(s[i].acc)
    } else {
        find_from(s, i + 1, key, ver)
    }
}

/// No two slots name the same instance.
pub open spec fn slots_distinct(s: Seq<Slot>) -> bool {
    forall|i: int, j: int|
        0 <= i < j < s.len() ==> !(#[trigger] s[i]).is_for(s[j].key@, (#[trigger] s[j]).ver as int)
}

/// A replica hosting the acceptor state of every instance it has ever been
/// addressed for. Records are created on first touch and never removed.
#[derive(Debug)]
pub struct KVServer {
    pub storage: Vec<Slot>,
}

impl KVServer {
    /// The acceptor state this replica holds for instance `(key, ver)`.
    /// An instance never addressed is indistinguishable from one holding the
    /// initial record, so the view is total.
    pub open spec fn acc_of(self, key: Seq<char>, ver: int) -> Acceptor {
        match find_from(self.storage@, 0, key, ver) {
            Some(a) => a,
            None => Acceptor::spec_init(),
        }
    }

    pub open spec fn wf(self) -> bool {
        &&& slots_distinct(self.storage@)
        &&& forall|i: int| 0 <= i < self.storage@.len() ==> (#[trigger] self.storage@[i]).acc.wf()
    }

    pub fn new() -> (r: KVServer)
        ensures
            r.wf(),
            forall|k: Seq<char>, v: int| r.acc_of(k, v) == Acceptor::spec_init(),
    {
        KVServer { storage: Vec::new() }
    }
}

/// A matching slot anywhere past `i` is what the scan returns.
proof fn lemma_find_match(s: Seq<Slot>, i: int, j: int)
    requires
        slots_distinct(s),
        0 <= i <= j < s.len(),
    ensures
        find_from(s, i, s[j].key@, s[j].ver as int) == Some(s[j].acc),
    decreases s.len() - i,
{
    if s[i].is_for(s[j].key@, s[j].ver as int) {
        assert(i == j);
    } else {
        lemma_find_match(s, i + 1, j);
    }
}

/// With no matching slot past `i`, the scan returns nothing.
proof fn lemma_find_none(s: Seq<Slot>, i: int, key: Seq<char>, ver: int)
    requires
        forall|j: int| i <= j < s.len() ==> !(#[trigger] s[j]).is_for(key, ver),
    ensures
        find_from(s, i, key, ver) is None,
    decreases s.len() - i,
{
    if 0 <= i < s.len() {
        lemma_find_none(s, i + 1, key, ver);
    }
}

/// Scans agree on two sequences that match the same way slot by slot.
proof fn lemma_find_congruent(s: Seq<Slot>, t: Seq<Slot>, i: int, key: Seq<char>, ver: int)
    requires
        s.len() == t.len(),
        forall|j: int| 0 <= j < s.len() ==> ((#[trigger] s[j]).is_for(key, ver) <==> (#[trigger] t[j]).is_for(key, ver)),
        forall|j: int| 0 <= j < s.len() && (#[trigger] s[j]).is_for(key, ver) ==> s[j].acc == t[j].acc,
    ensures
        find_from(s, i, key, ver) == find_from(t, i, key, ver),
    decreases s.len() - i,
{
    if 0 <= i < s.len() {
        lemma_find_congruent(s, t, i + 1, key, ver);
    }
}

/// Replacing the acceptor state at a slot changes exactly that instance in the
/// total view, and keeps the store well-formed.
proof fn lemma_update_slot(pre: KVServer, post: KVServer, idx: int)
    requires
        pre.wf(),
        0 <= idx < pre.storage@.len(),
        post.storage@.len() == pre.storage@.len(),
        post.storage@[idx].key@ == pre.storage@[idx].key@,
        post.storage@[idx].ver == pre.storage@[idx].ver,
        post.storage@[idx].acc.wf(),
        forall|j: int| 0 <= j < pre.storage@.len() && j != idx ==> post.storage@[j] == pre.storage@[j],
    ensures
        post.wf(),
        post.acc_of(pre.storage@[idx].key@, pre.storage@[idx].ver as int) == post.storage@[idx].acc,
        forall|k: Seq<char>, v: int|
            !(pre.storage@[idx].is_for(k, v)) ==> post.acc_of(k, v) == pre.acc_of(k, v),
{
    let s = pre.storage@;
    let t = post.storage@;
    let key = s[idx].key@;
    let ver = s[idx].ver as int;
    assert(forall|j: int, k: Seq<char>, v: int|
        0 <= j < s.len() ==> (#[trigger] t[j].is_for(k, v) <==> #[trigger] s[j].is_for(k, v)));
    assert(slots_distinct(t));
    lemma_find_match(t, 0, idx);
    assert forall|k: Seq<char>, v: int| !(s[idx].is_for(k, v)) implies post.acc_of(k, v) == pre.acc_of(k, v) by {
        lemma_find_congruent(s, t, 0, k, v);
    }
}

impl KVServer {
    /// Find the slot of `(key, ver)`, creating the initial record on first
    /// touch. The total view is unchanged either way.
    fn get_version_slot(&mut self, key: &String, ver: i64) -> (idx: usize)
        requires
            old(self).wf(),
        ensures
            final(self).wf(),
            idx < final(self).storage@.len(),
            final(self).storage@[idx as int].is_for(key@, ver as int),
            final(self).storage@[idx as int].acc == old(self).acc_of(key@, ver as int),
            forall|k: Seq<char>, v: int| final(self).acc_of(k, v) == old(self).acc_of(k, v),
            forall|j: int|
                0 <= j < final(self).storage@.len() && j != idx ==> final(self).storage@[j]
                    == old(self).storage@[j],
            final(self).storage@.len() >= old(self).storage@.len(),
    {
        let n = self.storage.len();
        let mut i: usize = 0;
        while i < n
            invariant
                *self == *old(self),
                self.wf(),
                n == self.storage@.len(),
                i <= n,
                forall|j: int| 0 <= j < i ==> !(#[trigger] self.storage@[j]).is_for(key@, ver as int),
            decreases n - i,
        {
            if self.storage[i].key == *key && self.storage[i].ver == ver {
                proof {
                    lemma_find_match(self.storage@, 0, i as int);
                }
                return i;
            }
            i += 1;
        }
        proof {
            lemma_find_none(self.storage@, 0, key@, ver as int);
        }
        let ghost pre = self.storage@;
        self.storage.push(Slot { key: key.clone(), ver, acc: Acceptor::new() });
        proof {
            let post = self.storage@;
            assert(forall|j: int| 0 <= j < pre.len() ==> post[j] == pre[j]);
            assert(post[pre.len() as int].is_for(key@, ver as int));
            assert(slots_distinct(post));
            lemma_find_match(post, 0, pre.len() as int);
            assert forall|k: Seq<char>, v: int| self.acc_of(k, v) == old(self).acc_of(k, v) by {
                if post[pre.len() as int].is_for(k, v) {
                    lemma_find_none(pre, 0, k, v);
                    assert(self.acc_of(k, v) == Acceptor::spec_init());
                } else {
                    lemma_find_congruent(pre, post.drop_last(), 0, k, v);
                    lemma_find_congruent_push(pre, post, k, v);
                }
            }
        }
        self.storage.len() - 1
    }
}

/// Appending a slot of another instance leaves that instance's scan untouched.
proof fn lemma_find_congruent_push(pre: Seq<Slot>, post: Seq<Slot>, key: Seq<char>, ver: int)
    requires
        post.len() == pre.len() + 1,
        forall|j: int| 0 <= j < pre.len() ==> post[j] == pre[j],
        !post[pre.len() as int].is_for(key, ver),
    ensures
        find_from(post, 0, key, ver) == find_from(pre, 0, key, ver),
{
    lemma_find_congruent_push_from(pre, post, 0, key, ver);
}

proof fn lemma_find_congruent_push_from(pre: Seq<Slot>, post: Seq<Slot>, i: int, key: Seq<char>, ver: int)
    requires
        post.len() == pre.len() + 1,
        forall|j: int| 0 <= j < pre.len() ==> post[j] == pre[j],
        !post[pre.len() as int].is_for(key, ver),
    ensures
        find_from(post, i, key, ver) == find_from(pre, i, key, ver),
    decreases post.len() - i,
{
    if 0 <= i < post.len() {
        lemma_find_congruent_push_from(pre, post, i + 1, key, ver);
    }
}

/// The Prepare transition on acceptor state `a` for ballot `b`: acknowledge
/// (promise) any ballot not below the highest seen; refuse silently otherwise.
pub open spec fn spec_prepared(a: Acceptor, b: BallotNum) -> Acceptor {
    if b.spec_ge(a.last_bal.unwrap()) {
        Acceptor { last_bal: Some(b), ..a }
    } else {
        a
    }
}

/// The Accept transition on acceptor state `a`: cast (or overwrite) the vote
/// when `b` is not below the highest ballot seen; refuse silently otherwise.
pub open spec fn spec_accepted(a: Acceptor, b: BallotNum, val: Option<Value>) -> Acceptor {
    if b.spec_ge(a.last_bal.unwrap()) {
        Acceptor { last_bal: Some(b), v_bal: Some(b), val }
    } else {
        a
    }
}

impl Acceptor {
    /// The Prepare transition on this record alone: hand back the snapshot,
    /// and acknowledge the ballot when nothing higher has been seen. This is
    /// the whole critical section one Prepare needs for one instance.
    pub fn apply_prepare(&mut self, b: &BallotNum) -> (reply: Acceptor)
        requires
            old(self).wf(),
        ensures
            final(self).wf(),
            reply == *old(self),
            *final(self) == spec_prepared(*old(self), *b),
    {
        let reply = *self;
        let last = self.last_bal.unwrap();
        if b.ge(&last) {
            self.last_bal = Some(*b);
        }
        reply
    }

    /// The Accept transition on this record alone: hand back the snapshot,
    /// and cast the vote when the ballot is not below the highest seen.
    pub fn apply_accept(&mut self, b: &BallotNum, val: Option<Value>) -> (reply: Acceptor)
        requires
            old(self).wf(),
        ensures
            final(self).wf(),
            reply == *old(self),
            *final(self) == spec_accepted(*old(self), *b, val),
    {
        let reply = *self;
        let last = self.last_bal.unwrap();
        if b.ge(&last) {
            self.last_bal = Some(*b);
            self.v_bal = Some(*b);
            self.val = val;
        }
        reply
    }
}

impl KVServer {
    /// Phase-1 handler. The reply is always the state observed before any
    /// update — a refused promise is visible only through the returned
    /// `last_bal` being above the requested ballot.
    pub fn prepare(&mut self, p: &Proposer) -> (r: Result<Acceptor, PaxosError>)
        requires
            old(self).wf(),
        ensures
            final(self).wf(),
            r matches Err(e) ==> {
                &&& (e == PaxosError::NoInstanceId <==> p.id is None)
                &&& (e == PaxosError::EmptyKey <==> p.id is Some && p.id.unwrap().key@.len() == 0)
                &&& (e == PaxosError::NoBallot <==> p.id is Some && p.id.unwrap().key@.len() > 0
                    && p.bal is None)
                &&& forall|k: Seq<char>, v: int| final(self).acc_of(k, v) == old(self).acc_of(k, v)
            },
            r is Ok <==> p.req_wf(),
            r matches Ok(reply) ==> {
                let key = p.id.unwrap().key@;
                let ver = p.id.unwrap().ver as int;
                &&& reply == old(self).acc_of(key, ver)
                &&& final(self).acc_of(key, ver) == spec_prepared(reply, p.bal.unwrap())
                &&& forall|k: Seq<char>, v: int|
                    !(k == key && v == ver) ==> final(self).acc_of(k, v) == old(self).acc_of(k, v)
            },
    {
        let id = match &p.id {
            Some(id) => id,
            None => {
                return Err(PaxosError::NoInstanceId);
            },
        };
        if id.key.as_str().is_empty() {
            return Err(PaxosError::EmptyKey);
        }
        let idx = self.get_version_slot(&id.key, id.ver);
        let ghost mid = *self;
        let r_ballot = match &p.bal {
            Some(b) => *b,
            None => {
                return Err(PaxosError::NoBallot);
            },
        };
        let reply = self.storage[idx].acc.apply_prepare(&r_ballot);
        proof {
            lemma_update_slot(mid, *self, idx as int);
        }
        Ok(reply)
    }

    /// Phase-2 handler. When the ballot is not below the highest seen, the
    /// vote is cast: `last_bal`, `v_bal` and `val` all move to the request's
    /// ballot and value. The reply is the pre-update snapshot either way.
    pub fn accept(&mut self, p: &Proposer) -> (r: Result<Acceptor, PaxosError>)
        requires
            old(self).wf(),
        ensures
            final(self).wf(),
            r matches Err(e) ==> {
                &&& (e == PaxosError::NoInstanceId <==> p.id is None)
                &&& (e == PaxosError::EmptyKey <==> p.id is Some && p.id.unwrap().key@.len() == 0)
                &&& (e == PaxosError::NoBallot <==> p.id is Some && p.id.unwrap().key@.len() > 0
                    && p.bal is None)
                &&& forall|k: Seq<char>, v: int| final(self).acc_of(k, v) == old(self).acc_of(k, v)
            },
            r is Ok <==> p.req_wf(),
            r matches Ok(reply) ==> {
                let key = p.id.unwrap().key@;
                let ver = p.id.unwrap().ver as int;
                &&& reply == old(self).acc_of(key, ver)
                &&& final(self).acc_of(key, ver) == spec_accepted(reply, p.bal.unwrap(), p.val)
                &&& forall|k: Seq<char>, v: int|
                    !(k == key && v == ver) ==> final(self).acc_of(k, v) == old(self).acc_of(k, v)
            },
    {
        let id = match &p.id {
            Some(id) => id,
            None => {
                return Err(PaxosError::NoInstanceId);
            },
        };
        if id.key.as_str().is_empty() {
            return Err(PaxosError::EmptyKey);
        }
        let idx = self.get_version_slot(&id.key, id.ver);
        let ghost mid = *self;
        let r_ballot = match &p.bal {
            Some(b) => *b,
            None => {
                return Err(PaxosError::NoBallot);
            },
        };
        let reply = self.storage[idx].acc.apply_accept(&r_ballot, p.val);
        proof {
            lemma_update_slot(mid, *self, idx as int);
        }
        Ok(reply)
    }
}

/// Any acceptor state the scan can return is well-formed when the store is.
proof fn lemma_find_wf(s: Seq<Slot>, i: int, key: Seq<char>, ver: int)
    requires
        forall|j: int| 0 <= j < s.len() ==> (#[trigger] s[j]).acc.wf(),
    ensures
        match find_from(s, i, key, ver) {
            Some(a) => a.wf(),
            None => true,
        },
    decreases s.len() - i,
{
    if 0 <= i < s.len() && !s[i].is_for(key, ver) {
        lemma_find_wf(s, i + 1, key, ver);
    }
}

impl KVServer {
    /// The total view of a well-formed store holds well-formed state only.
    pub proof fn lemma_acc_wf(self, key: Seq<char>, ver: int)
        requires
            self.wf(),
        ensures
            self.acc_of(key, ver).wf(),
    {
        lemma_find_wf(self.storage@, 0, key, ver);
    }
}

/// Law: both transitions preserve the acceptor's internal invariant — the
/// voted ballot never rises above the acknowledged one, in every state either
/// handler can leave behind.
pub proof fn lemma_transitions_preserve_wf(a: Acceptor, b: BallotNum, val: Option<Value>)
    requires
        a.wf(),
    ensures
        spec_prepared(a, b).wf(),
        spec_accepted(a, b, val).wf(),
{
}

} // verus!
