//! The policy of a search, and the orders that a search is about.

use vstd::prelude::*;
use crate::graph::{CommandNode, is_total_order, can_follow, lemma_entry_follows};

verus! {

/// When the probe is consulted.
#[derive(Clone, Copy, Debug, PartialEq, Eq, Structural)]
pub enum VerificationPolicy {
    /// Never: the first complete order is accepted.
    Off,
    /// After every command that the transport took.
    PerNode,
    /// Once, after a complete order was sent.
    EndOfSequence,
}

/// Whether complete orders that failed are remembered.
#[derive(Clone, Copy, Debug, PartialEq, Eq, Structural)]
pub enum Dedup {
    /// Nothing is remembered.
    Off,
    /// The hash of every complete order that failed verification is kept,
    /// and a complete order whose hash is kept is not verified again.
    SequenceHash,
}

/// The policy of a search.
#[derive(Clone, Copy, Debug, PartialEq, Eq, Structural)]
pub struct SearchPolicy {
    pub verification: VerificationPolicy,
    pub dedup: Dedup,
    /// The node that every order must begin with, if any.
    pub first: Option<usize>,
    /// The node that every order must end with, if any.
    pub last: Option<usize>,
}

/// Node `c` may stand at position `p` of an order of `n` nodes.
pub open spec fn anchors_ok_at(policy: SearchPolicy, n: nat, p: int, c: usize) -> bool {
    &&& (policy.first matches Some(a) ==> (p == 0 ==> c == a))
    &&& (policy.last matches Some(z) ==> (c == z <==> p == n - 1))
}

/// Every entry of `s` stands where the anchors let it stand.
pub open spec fn respects_anchors(policy: SearchPolicy, n: nat, s: Seq<usize>) -> bool {
    forall|p: int| 0 <= p < s.len() ==> anchors_ok_at(policy, n, p, #[trigger] s[p])
}

/// `s` is a total order of `g` within the anchors that begins with `begun`.
pub open spec fn candidate(
    g: Seq<CommandNode>,
    policy: SearchPolicy,
    begun: Seq<usize>,
    s: Seq<usize>,
) -> bool {
    &&& is_total_order(g, s)
    &&& respects_anchors(policy, g.len(), s)
    &&& begun.len() <= s.len()
    &&& s.take(begun.len() as int) == begun
}

/// `s` is tried before `t`: the two agree up to some position, at which
/// `s` has the smaller node.
pub open spec fn precedes(s: Seq<usize>, t: Seq<usize>) -> bool {
    exists|p: int| 0 <= p < s.len() && p < t.len() && #[trigger] s.take(p) == t.take(p) && s[p] < t[p]
}

/// No order that begins with `begun` continues with a node that may not
/// follow `begun` or that the anchors do not let stand there.
pub proof fn lemma_no_candidate(
    g: Seq<CommandNode>,
    policy: SearchPolicy,
    begun: Seq<usize>,
    c: usize,
    s: Seq<usize>,
)
    requires
        candidate(g, policy, begun, s),
        begun.len() < s.len(),
        !can_follow(g, begun, c) || !anchors_ok_at(policy, g.len(), begun.len() as int, c),
    ensures
        s[begun.len() as int] != c,
{
    lemma_entry_follows(g, s, begun.len() as int);
}

/// An order that begins with `begun` and continues with `c` begins with
/// `begun.push(c)`.
pub proof fn lemma_candidate_step(
    g: Seq<CommandNode>,
    policy: SearchPolicy,
    begun: Seq<usize>,
    c: usize,
    s: Seq<usize>,
)
    requires
        candidate(g, policy, begun, s),
        begun.len() < s.len(),
        s[begun.len() as int] == c,
    ensures
        candidate(g, policy, begun.push(c), s),
{
    assert(s.take(begun.len() as int + 1) =~= begun.push(c));
}

} // verus!
