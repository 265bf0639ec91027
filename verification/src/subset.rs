//! One epoch's common-subset instance: the composition of `n` reliable
//! broadcasts gated by a binary-agreement outcome per proposer.
//!
//! The reliable-broadcast and binary-agreement primitives themselves are
//! external collaborators; this instance consumes their terminal outcomes —
//! a delivered ciphertext per proposer and an accept/reject decision per
//! proposer — and composes them into the epoch's subset: the map from every
//! accepted proposer to its ciphertext.  Each outcome is recorded at most
//! once; later or conflicting outcomes for the same proposer are ignored, so
//! the composition is insensitive to message arrival order.

use vstd::prelude::*;

use crate::util::clone_bytes;
use crate::util::lemma_bytes_deep_view;
use crate::util::lemma_deep_view_index;

verus! {

/// The state of one epoch's common-subset composition.
///
/// The instance transitions from running to terminated with output exactly
/// once: `take_output` sets `complete`, after which the driver stops feeding
/// it.
pub struct Subset {
    /// Total number of nodes, `n`; proposers are `0 .. n`.
    pub num_nodes: usize,
    /// Per proposer, the ciphertext its reliable broadcast delivered, if any.
    pub delivered: Vec<Option<Vec<u8>>>,
    /// Per proposer, the binary-agreement outcome, if decided.
    pub decided: Vec<Option<bool>>,
    /// Whether the instance has terminated with output.
    pub complete: bool,
}

impl Subset {
    /// Well-formed: one slot per proposer.
    pub open spec fn wf(self) -> bool {
        &&& self.delivered.len() == self.num_nodes
        &&& self.decided.len() == self.num_nodes
    }

    /// Deep view of the delivered ciphertexts, one slot per proposer.
    pub open spec fn delivered_view(self) -> Seq<Option<Seq<u8>>> {
        self.delivered.deep_view()
    }

    /// The agreement outcomes, one slot per proposer.
    pub open spec fn decided_view(self) -> Seq<Option<bool>> {
        self.decided@
    }

    /// Every proposer has a decision, and every accepted proposer's
    /// ciphertext has been delivered: the subset is determined.
    pub open spec fn ready(self) -> bool {
        forall|p: int|
            0 <= p < self.num_nodes ==> self.decided_view()[p] is Some && (self.decided_view()[p]
                == Some(true) ==> self.delivered_view()[p] is Some)
    }

    /// The subset's entry for proposer `p`: its ciphertext when accepted,
    /// nothing otherwise.
    pub open spec fn output_entry(self, p: int) -> Option<Seq<u8>> {
        if self.decided_view()[p] == Some(true) {
            self.delivered_view()[p]
        } else {
            None
        }
    }

    /// A fresh, running instance with no outcome recorded.
    pub fn new(num_nodes: usize) -> (r: Subset)
        ensures
            r.wf(),
            r.num_nodes == num_nodes,
            !r.complete,
            forall|p: int| 0 <= p < num_nodes ==> r.delivered_view()[p] is None,
            forall|p: int| 0 <= p < num_nodes ==> r.decided_view()[p] is None,
    {
        let mut delivered: Vec<Option<Vec<u8>>> = Vec::new();
        let mut decided: Vec<Option<bool>> = Vec::new();
        let mut i: usize = 0;
        while i < num_nodes
            invariant
                i <= num_nodes,
                delivered.len() == i,
                decided.len() == i,
                forall|p: int| 0 <= p < i ==> delivered@[p] is None,
                forall|p: int| 0 <= p < i ==> decided@[p] is None,
            decreases num_nodes - i,
        {
            delivered.push(None);
            decided.push(None);
            i = i + 1;
        }
        proof {
            lemma_deep_view_index(delivered);
        }
        Subset { num_nodes, delivered, decided, complete: false }
    }

    /// Records the reliable-broadcast delivery of `proposer`'s ciphertext.
    /// Only the first delivery per proposer counts; a terminated instance
    /// ignores everything.
    pub fn handle_echo(&mut self, proposer: usize, ciphertext: Vec<u8>)
        requires
            old(self).wf(),
            proposer < old(self).num_nodes,
        ensures
            final(self).wf(),
            final(self).num_nodes == old(self).num_nodes,
            final(self).complete == old(self).complete,
            final(self).decided_view() == old(self).decided_view(),
            if !old(self).complete && old(self).delivered_view()[proposer as int] is None {
                final(self).delivered_view() == old(self).delivered_view().update(
                    proposer as int,
                    Some(ciphertext@),
                )
            } else {
                final(self).delivered_view() == old(self).delivered_view()
            },
    {
        proof {
            lemma_deep_view_index(self.delivered);
        }
        if !self.complete && self.delivered[proposer].is_none() {
            let ghost pre = self.delivered;
            self.delivered.set(proposer, Some(ciphertext));
            proof {
                lemma_deep_view_index(self.delivered);
                lemma_bytes_deep_view(ciphertext);
                assert(self.delivered_view() =~= pre.deep_view().update(
                    proposer as int,
                    Some(ciphertext@),
                ));
            }
        }
    }

    /// Records the binary-agreement outcome for `proposer`.  Only the first
    /// decision per proposer counts; a terminated instance ignores
    /// everything.
    pub fn handle_decided(&mut self, proposer: usize, accept: bool)
        requires
            old(self).wf(),
            proposer < old(self).num_nodes,
        ensures
            final(self).wf(),
            final(self).num_nodes == old(self).num_nodes,
            final(self).complete == old(self).complete,
            final(self).delivered_view() == old(self).delivered_view(),
            if !old(self).complete && old(self).decided_view()[proposer as int] is None {
                final(self).decided_view() == old(self).decided_view().update(
                    proposer as int,
                    Some(accept),
                )
            } else {
                final(self).decided_view() == old(self).decided_view()
            },
    {
        if !self.complete && self.decided[proposer].is_none() {
            self.decided.set(proposer, Some(accept));
        }
    }

    /// Whether the subset is determined and not yet taken.
    pub fn poll(&self) -> (r: bool)
        requires
            self.wf(),
        ensures
            r == (self.ready() && !self.complete),
    {
        proof {
            lemma_deep_view_index(self.delivered);
        }
        if self.complete {
            return false;
        }
        let mut p: usize = 0;
        while p < self.num_nodes
            invariant
                self.wf(),
                p <= self.num_nodes,
                forall|q: int|
                    0 <= q < p ==> self.decided_view()[q] is Some && (self.decided_view()[q]
                        == Some(true) ==> self.delivered_view()[q] is Some),
            decreases self.num_nodes - p,
        {
            proof {
                lemma_deep_view_index(self.delivered);
            }
            match self.decided[p] {
                None => {
                    assert(self.decided_view()[p as int] is None);
                    return false;
                },
                Some(accept) => {
                    if accept && self.delivered[p].is_none() {
                        assert(self.delivered_view()[p as int] is None);
                        return false;
                    }
                },
            }
            p = p + 1;
        }
        true
    }

    /// Terminates the instance and returns its output: one slot per
    /// proposer, holding the ciphertext of every accepted proposer.
    pub fn take_output(&mut self) -> (r: Vec<Option<Vec<u8>>>)
        requires
            old(self).wf(),
            old(self).ready(),
            !old(self).complete,
        ensures
            final(self).wf(),
            final(self).complete,
            final(self).num_nodes == old(self).num_nodes,
            final(self).delivered_view() == old(self).delivered_view(),
            final(self).decided_view() == old(self).decided_view(),
            r.deep_view().len() == old(self).num_nodes,
            forall|p: int|
                0 <= p < old(self).num_nodes ==> r.deep_view()[p] == old(self).output_entry(p),
    {
        let ghost pre = *self;
        let mut r: Vec<Option<Vec<u8>>> = Vec::new();
        let mut p: usize = 0;
        while p < self.num_nodes
            invariant
                *self == pre,
                pre.wf(),
                pre.ready(),
                p <= self.num_nodes,
                r@.len() == p,
                forall|q: int| 0 <= q < p ==> r.deep_view()[q] == pre.output_entry(q),
            decreases self.num_nodes - p,
        {
            proof {
                lemma_deep_view_index(self.delivered);
                lemma_deep_view_index(r);
            }
            let ghost r_pre = r;
            let mut entry: Option<Vec<u8>> = None;
            match self.decided[p] {
                Some(true) => {
                    match &self.delivered[p] {
                        Some(c) => {
                            entry = Some(clone_bytes(c));
                        },
                        None => {
                            proof {
                                assert(pre.decided_view()[p as int] == Some(true));
                                assert(pre.delivered_view()[p as int] is Some);
                                assert(false);
                            }
                        },
                    }
                },
                _ => {},
            }
            r.push(entry);
            p = p + 1;
            proof {
                lemma_deep_view_index(r);
                assert(forall|q: int|
                    0 <= q < r_pre@.len() ==> r.deep_view()[q] == r_pre.deep_view()[q]);
                assert(r.deep_view()[p - 1] == pre.output_entry(p - 1));
            }
        }
        self.complete = true;
        proof {
            lemma_deep_view_index(r);
        }
        r
    }
}

} // verus!
