//! Static membership and fault-bound record shared by every component of one
//! run.

use vstd::prelude::*;

verus! {

/// Immutable per-run record of the node set: this node's identity, the total
/// node count `n` and the fault bound `f`, with `n >= 3 * f + 1`.
///
/// Node identities are the integers `0 .. n`.  The record never changes after
/// construction and is copied freely into every component that needs it.
#[derive(Clone, Copy, PartialEq, Eq, Structural, Debug)]
pub struct NetworkInfo {
    /// This node's identity, below `num_nodes`.
    pub our_id: usize,
    /// Total number of nodes, `n`.
    pub num_nodes: usize,
    /// Fault bound, `f`: the number of Byzantine nodes tolerated.
    pub num_faulty: usize,
}

impl NetworkInfo {
    /// The membership is valid: the fault bound leaves an honest two-thirds
    /// majority and this node is a member.
    pub open spec fn wf(self) -> bool {
        &&& self.num_nodes > 3 * self.num_faulty
        &&& self.our_id < self.num_nodes
    }

    /// Builds the record, rejecting a membership whose fault bound is too
    /// large for the node count or whose own identity is out of range.
    pub fn new(our_id: usize, num_nodes: usize, num_faulty: usize) -> (r: Option<NetworkInfo>)
        ensures
            match r {
                Some(ni) => ni.wf() && ni.our_id == our_id && ni.num_nodes == num_nodes
                    && ni.num_faulty == num_faulty,
                None => !(num_nodes > 3 * num_faulty && our_id < num_nodes),
            },
    {
        if num_faulty <= usize::MAX / 3 && num_nodes > 0 && num_nodes - 1 >= 3 * num_faulty
            && our_id < num_nodes {
            Some(NetworkInfo { our_id, num_nodes, num_faulty })
        } else {
            None
        }
    }

    /// This node's identity.
    pub fn our_id(&self) -> (r: usize)
        ensures
            r == self.our_id,
    {
        self.our_id
    }

    /// Total number of nodes, `n`.
    pub fn num_nodes(&self) -> (r: usize)
        ensures
            r == self.num_nodes,
    {
        self.num_nodes
    }

    /// Fault bound, `f`: the number of Byzantine nodes tolerated.
    pub fn num_faulty(&self) -> (r: usize)
        ensures
            r == self.num_faulty,
    {
        self.num_faulty
    }
}

} // verus!
