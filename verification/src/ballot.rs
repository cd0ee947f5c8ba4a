//! Ballot numbers and the total order over them.

use vstd::prelude::*;

verus! {

/// A ballot number: a round `n`, with the proposer's identity as the
/// tie-break. Ballots are compared lexicographically, round first; the
/// proposer id settles rounds shared by competing proposers, so no two
/// distinct proposers ever hold the "same" winning ballot.
#[derive(Clone, Copy, PartialEq, Eq, Structural, Debug)]
pub struct BallotNum {
    pub n: i64,
    pub proposer_id: i64,
}

/// The zero ballot, the point every fresh acceptor starts from.
pub open spec fn bal_zero() -> BallotNum {
    BallotNum { n: 0, proposer_id: 0 }
}

impl BallotNum {
    /// `self >= other` in the ballot order.
    pub open spec fn spec_ge(self, other: BallotNum) -> bool {
        self.n > other.n || (self.n == other.n && self.proposer_id >= other.proposer_id)
    }

    /// `self < other` in the ballot order.
    pub open spec fn spec_less(self, other: BallotNum) -> bool {
        self.n < other.n || (self.n == other.n && self.proposer_id < other.proposer_id)
    }

    /// Every ballot comparison in the protocol goes through this order.
    pub fn ge(&self, other: &BallotNum) -> (r: bool)
        ensures
            r == self.spec_ge(*other),
    {
        self.n > other.n || (self.n == other.n && self.proposer_id >= other.proposer_id)
    }

    pub fn less(&self, other: &BallotNum) -> (r: bool)
        ensures
            r == self.spec_less(*other),
    {
        self.n < other.n || (self.n == other.n && self.proposer_id < other.proposer_id)
    }
}

/// Law: the ballot order is total — any two ballots are comparable.
pub proof fn lemma_ballot_order_total(a: BallotNum, b: BallotNum)
    ensures
        a.spec_ge(b) || b.spec_ge(a),
{
}

/// Law: the ballot order is antisymmetric — mutual domination means equality,
/// so two proposers agreeing that each dominates the other hold one ballot.
pub proof fn lemma_ballot_order_antisymmetric(a: BallotNum, b: BallotNum)
    requires
        a.spec_ge(b),
        b.spec_ge(a),
    ensures
        a == b,
{
}

/// Law: the ballot order is transitive.
pub proof fn lemma_ballot_order_transitive(a: BallotNum, b: BallotNum, c: BallotNum)
    requires
        a.spec_ge(b),
        b.spec_ge(c),
    ensures
        a.spec_ge(c),
{
}

/// Law: `spec_less` is the strict complement of `spec_ge`.
pub proof fn lemma_ballot_less_is_strict_complement(a: BallotNum, b: BallotNum)
    ensures
        a.spec_less(b) <==> !a.spec_ge(b),
{
}

} // verus!
