//! Quorum arithmetic and the counting facts behind quorum intersection.

use vstd::prelude::*;

verus! {

/// The quorum threshold for `n` configured acceptors.
pub open spec fn spec_quorum(n: int) -> int {
    n / 2 + 1
}

/// Quorum size for `n` acceptors: a strict majority, `n / 2 + 1`.
pub fn quorum(n: usize) -> (q: usize)
    ensures
        q == spec_quorum(n as int),
{
    n / 2 + 1
}

/// Law: a quorum is a strict majority — two quorums together outnumber the
/// acceptor set, so they must share a member.
pub proof fn lemma_quorum_majority(n: int)
    requires
        n >= 0,
    ensures
        2 * spec_quorum(n) >= n + 1,
{
}

/// How many elements of `s` satisfy `p`.
pub open spec fn count_where<T>(s: Seq<T>, p: spec_fn(T) -> bool) -> int
    decreases s.len(),
{
    if s.len() == 0 {
        0
    } else {
        count_where(s.drop_last(), p) + if p(s.last()) {
            1int
        } else {
            0int
        }
    }
}

pub proof fn lemma_count_bounds<T>(s: Seq<T>, p: spec_fn(T) -> bool)
    ensures
        0 <= count_where(s, p) <= s.len(),
    decreases s.len(),
{
    if s.len() > 0 {
        lemma_count_bounds(s.drop_last(), p);
    }
}

/// Counting transfers along a pointwise implication between two equally long
/// sequences.
pub proof fn lemma_count_pointwise<A, B>(
    s: Seq<A>,
    t: Seq<B>,
    p: spec_fn(A) -> bool,
    q: spec_fn(B) -> bool,
)
    requires
        s.len() == t.len(),
        forall|j: int| 0 <= j < s.len() && p(s[j]) ==> q(t[j]),
    ensures
        count_where(s, p) <= count_where(t, q),
    decreases s.len(),
{
    if s.len() > 0 {
        assert(forall|j: int|
            0 <= j < s.drop_last().len() && p(s.drop_last()[j]) ==> q(t.drop_last()[j]));
        lemma_count_pointwise(s.drop_last(), t.drop_last(), p, q);
    }
}

/// Pigeonhole: two counts over one sequence overlap by at least
/// `count(p) + count(q) - len`.
pub proof fn lemma_count_overlap<T>(
    s: Seq<T>,
    p: spec_fn(T) -> bool,
    q: spec_fn(T) -> bool,
    both: spec_fn(T) -> bool,
)
    requires
        forall|x: T| #[trigger] both(x) <==> p(x) && q(x),
    ensures
        count_where(s, p) + count_where(s, q) <= s.len() + count_where(s, both),
    decreases s.len(),
{
    if s.len() > 0 {
        lemma_count_overlap(s.drop_last(), p, q, both);
        assert(both(s.last()) <==> p(s.last()) && q(s.last()));
    }
}

/// A positive count names a witness.
pub proof fn lemma_count_pos_exists<T>(s: Seq<T>, p: spec_fn(T) -> bool)
    requires
        count_where(s, p) > 0,
    ensures
        exists|j: int| 0 <= j < s.len() && p(s[j]),
    decreases s.len(),
{
    if s.len() > 0 {
        if p(s.last()) {
            assert(p(s[s.len() - 1]));
        } else {
            lemma_count_pos_exists(s.drop_last(), p);
            let j = choose|j: int| 0 <= j < s.drop_last().len() && p(s.drop_last()[j]);
            assert(p(s[j]));
        }
    }
}

/// Counting can also be unrolled from the front.
pub proof fn lemma_count_drop_first<T>(s: Seq<T>, p: spec_fn(T) -> bool)
    requires
        s.len() > 0,
    ensures
        count_where(s, p) == count_where(s.drop_first(), p) + if p(s[0]) {
            1int
        } else {
            0int
        },
    decreases s.len(),
{
    if s.len() > 1 {
        assert(s.drop_last().drop_first() =~= s.drop_first().drop_last());
        assert(s.drop_last()[0] == s[0]);
        assert(s.drop_first().last() == s.last());
        lemma_count_drop_first(s.drop_last(), p);
    } else {
        assert(s.drop_first() =~= s.drop_last());
        assert(s.last() == s[0]);
    }
}

/// A predicate holding everywhere counts everything.
pub proof fn lemma_count_all<T>(s: Seq<T>, p: spec_fn(T) -> bool)
    requires
        forall|j: int| 0 <= j < s.len() ==> p(s[j]),
    ensures
        count_where(s, p) == s.len(),
    decreases s.len(),
{
    if s.len() > 0 {
        lemma_count_all(s.drop_last(), p);
    }
}

/// A predicate and its complement count the whole sequence.
pub proof fn lemma_count_complement<T>(s: Seq<T>, p: spec_fn(T) -> bool, np: spec_fn(T) -> bool)
    requires
        forall|x: T| #[trigger] np(x) <==> !p(x),
    ensures
        count_where(s, p) + count_where(s, np) == s.len(),
    decreases s.len(),
{
    if s.len() > 0 {
        lemma_count_complement(s.drop_last(), p, np);
        assert(np(s.last()) <==> !p(s.last()));
    }
}

} // verus!
