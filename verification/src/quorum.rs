//! Majorities.
use crate::config::NodeName;
use crate::raft_model::majority;
use vstd::prelude::*;

verus! {

/// Whether `voters` are a majority of `members`.
pub open spec fn is_quorum(members: Set<NodeName>, voters: Set<NodeName>) -> bool {
    voters.subset_of(members) && voters.len() >= majority(members.len() as usize)
}

/// Two majorities of the same members share a node.
pub proof fn quorums_meet(members: Set<NodeName>, a: Set<NodeName>, b: Set<NodeName>) -> (common:
    NodeName)
    requires
        members.finite(),
        members.len() <= usize::MAX,
        is_quorum(members, a),
        is_quorum(members, b),
    ensures
        a.contains(common),
        b.contains(common),
        members.contains(common),
{
    vstd::set_lib::lemma_len_subset(a, members);
    vstd::set_lib::lemma_len_subset(b, members);
    if a.disjoint(b) {
        vstd::set_lib::lemma_set_disjoint_lens(a, b);
        assert((a + b).subset_of(members));
        vstd::set_lib::lemma_len_subset(a + b, members);
        assert(false);
    }
    let common = choose|n: NodeName| a.contains(n) && b.contains(n);
    common
}

} // verus!
