//! All mutable state of one epoch, pruned as a whole when the epoch
//! finalizes: the common-subset instance, the ciphertext registry filled from
//! its output, the decryption-share table and the decrypted contributions.
//!
//! The threshold cryptosystem is an external collaborator.  This core carries
//! ciphertext, share and plaintext bytes opaquely: a decryption share is
//! valid when its bytes match the registered ciphertext, a quorum of
//! `f + 1` valid shares combines to that common byte string, and fewer never
//! combine.  Verification against key shares and the combination itself are
//! the collaborator's work; the driver's guarantees are about routing,
//! counting, quorum and lifecycle.

use vstd::prelude::*;

use crate::fault::Fault;
use crate::fault::FaultKind;
use crate::subset::Subset;
use crate::util::clone_bytes;
use crate::util::eq_bytes;
use crate::util::lemma_bytes_deep_view;
use crate::util::lemma_deep_view_index;

verus! {

/// How many of the slots `0 .. i` hold exactly the ciphertext `c`.
pub open spec fn count_matching(row: Seq<Option<Seq<u8>>>, c: Seq<u8>, i: int) -> int
    decreases i,
{
    if i <= 0 {
        0
    } else {
        count_matching(row, c, i - 1) + if row[i - 1] == Some(c) {
            1int
        } else {
            0int
        }
    }
}

/// A count never exceeds the number of slots counted.
pub proof fn lemma_count_bounds(row: Seq<Option<Seq<u8>>>, c: Seq<u8>, i: int)
    ensures
        0 <= count_matching(row, c, i) <= i || i < 0,
    decreases i,
{
    if i > 0 {
        lemma_count_bounds(row, c, i - 1);
    }
}

/// How updating one slot changes the count.
pub proof fn lemma_count_update(
    row: Seq<Option<Seq<u8>>>,
    c: Seq<u8>,
    s: int,
    v: Option<Seq<u8>>,
    i: int,
)
    requires
        0 <= s < row.len(),
        i <= row.len(),
    ensures
        count_matching(row.update(s, v), c, i) == if s < i {
            count_matching(row, c, i) - (if row[s] == Some(c) {
                1int
            } else {
                0int
            }) + (if v == Some(c) {
                1int
            } else {
                0int
            })
        } else {
            count_matching(row, c, i)
        },
    decreases i,
{
    if i > 0 {
        lemma_count_update(row, c, s, v, i - 1);
    }
}

/// The pairs `(slot, bytes)` of every filled slot below `i`, in slot order.
pub open spec fn pairs_upto(slots: Seq<Option<Seq<u8>>>, i: int) -> Seq<(usize, Seq<u8>)>
    decreases i,
{
    if i <= 0 {
        Seq::empty()
    } else {
        pairs_upto(slots, i - 1) + match slots[i - 1] {
            Some(v) => seq![((i - 1) as usize, v)],
            None => Seq::empty(),
        }
    }
}

/// The pairs are listed in strictly increasing slot order.
pub open spec fn proposers_increasing(pairs: Seq<(usize, Seq<u8>)>) -> bool {
    forall|a: int, b: int|
        0 <= a < b < pairs.len() ==> (#[trigger] pairs[a]).0 < (#[trigger] pairs[b]).0
}

/// The pair list of a slot table is strictly increasing in slot order.
pub proof fn lemma_pairs_increasing(slots: Seq<Option<Seq<u8>>>, i: int)
    requires
        i <= usize::MAX,
    ensures
        proposers_increasing(pairs_upto(slots, i)),
        forall|a: int|
            0 <= a < pairs_upto(slots, i).len() ==> (#[trigger] pairs_upto(slots, i)[a]).0 < i,
    decreases i,
{
    if i > 0 {
        lemma_pairs_increasing(slots, i - 1);
        let prefix = pairs_upto(slots, i - 1);
        let whole = pairs_upto(slots, i);
        assert forall|a: int| 0 <= a < whole.len() implies (#[trigger] whole[a]).0 < i by {
            if a < prefix.len() {
                assert(whole[a] == prefix[a]);
            } else {
                assert(slots[i - 1] is Some);
                assert(whole[a] == (((i - 1) as usize), slots[i - 1]->Some_0));
            }
        }
        assert forall|a: int, b: int| 0 <= a < b < whole.len() implies (#[trigger] whole[a]).0 < (
        #[trigger] whole[b]).0 by {
            if b < prefix.len() {
                assert(whole[a] == prefix[a] && whole[b] == prefix[b]);
            } else {
                assert(slots[i - 1] is Some);
                assert(whole[b] == (((i - 1) as usize), slots[i - 1]->Some_0));
                assert(whole[a] == prefix[a]);
                assert(prefix[a].0 < i - 1);
            }
        }
    }
}

/// The determined subset of a ready common-subset instance, one slot per
/// proposer: the ciphertext of every accepted proposer.
pub open spec fn subset_output_view(s: Subset) -> Seq<Option<Seq<u8>>> {
    Seq::new(s.num_nodes as nat, |p: int| s.output_entry(p))
}

/// A buffered share row after the ciphertext `c` becomes known: this node's
/// own share joins, matching shares stay, everything else is dropped.
pub open spec fn verified_row(row: Seq<Option<Seq<u8>>>, c: Seq<u8>, our_id: int) -> Seq<
    Option<Seq<u8>>,
> {
    Seq::new(row.len(), |s: int| if s == our_id || row[s] == Some(c) {
        Some(c)
    } else {
        None
    })
}

/// All mutable state of one epoch.
pub struct EpochState {
    /// Total number of nodes, `n`.
    pub num_nodes: usize,
    /// Fault bound, `f`; a quorum is `f + 1` shares.
    pub num_faulty: usize,
    /// This node's identity.
    pub our_id: usize,
    /// The epoch's common-subset instance.
    pub subset: Subset,
    /// The ciphertext registry, filled from the subset output when the
    /// instance terminates: one slot per proposer.
    pub registry: Option<Vec<Option<Vec<u8>>>>,
    /// The decryption-share table: per proposer, per sender, at most one
    /// share.
    pub shares: Vec<Vec<Option<Vec<u8>>>>,
    /// The decrypted contributions: per proposer, the plaintext once a
    /// quorum of valid shares combined.  Immutable once set.
    pub decrypted: Vec<Option<Vec<u8>>>,
}

impl EpochState {
    /// Deep view of the ciphertext registry.
    pub open spec fn registry_view(self) -> Option<Seq<Option<Seq<u8>>>> {
        self.registry.deep_view()
    }

    /// Deep view of the share table.
    pub open spec fn shares_view(self) -> Seq<Seq<Option<Seq<u8>>>> {
        self.shares.deep_view()
    }

    /// Deep view of the decrypted contributions.
    pub open spec fn decrypted_view(self) -> Seq<Option<Seq<u8>>> {
        self.decrypted.deep_view()
    }

    /// The number of valid shares that reconstructs a contribution.
    pub open spec fn quorum(self) -> int {
        self.num_faulty + 1
    }

    /// The registered ciphertext still awaiting decryption shares for
    /// proposer `p`, if the subset output is known and names `p`.
    pub open spec fn live_cipher(self, p: int) -> Option<Seq<u8>> {
        match self.registry_view() {
            Some(reg) => reg[p],
            None => None,
        }
    }

    /// Proposer `p`'s share row holds no share.
    pub open spec fn row_clear(self, p: int) -> bool {
        forall|s: int| 0 <= s < self.num_nodes ==> self.shares_view()[p][s] is None
    }

    /// The invariant of an epoch's state.
    ///
    /// Once the registry is known: it equals the subset output; every stored
    /// share matches its registered ciphertext; a decrypted contribution is
    /// the registered ciphertext's bytes and its shares are discarded; and a
    /// proposer still undecrypted holds at most `f` shares — only a quorum of
    /// `f + 1` combines.
    pub open spec fn wf(self) -> bool {
        &&& self.num_nodes > 3 * self.num_faulty
        &&& self.our_id < self.num_nodes
        &&& self.subset.wf()
        &&& self.subset.num_nodes == self.num_nodes
        &&& self.shares_view().len() == self.num_nodes
        &&& forall|p: int|
            0 <= p < self.num_nodes ==> (#[trigger] self.shares_view()[p]).len() == self.num_nodes
        &&& self.decrypted_view().len() == self.num_nodes
        &&& (self.registry is Some <==> self.subset.complete)
        &&& match self.registry_view() {
            None => forall|p: int|
                0 <= p < self.num_nodes ==> self.decrypted_view()[p] is None,
            Some(reg) => {
                &&& reg.len() == self.num_nodes
                &&& forall|p: int|
                    0 <= p < self.num_nodes ==> #[trigger] reg[p] == self.subset.output_entry(p)
                &&& forall|p: int, s: int|
                    0 <= p < self.num_nodes && 0 <= s < self.num_nodes && (
                    #[trigger] self.shares_view()[p][s]) is Some ==> self.shares_view()[p][s]
                        == reg[p]
                &&& forall|p: int|
                    0 <= p < self.num_nodes && #[trigger] reg[p] is None ==> self.row_clear(p)
                        && self.decrypted_view()[p] is None
                &&& forall|p: int|
                    0 <= p < self.num_nodes && (#[trigger] self.decrypted_view()[p]) is Some
                        ==> self.decrypted_view()[p] == reg[p] && self.row_clear(p)
                &&& forall|p: int|
                    0 <= p < self.num_nodes && self.decrypted_view()[p] is None ==> match (
                    #[trigger] reg[p]) {
                        Some(c) => count_matching(
                            self.shares_view()[p],
                            c,
                            self.num_nodes as int,
                        ) <= self.num_faulty,
                        None => true,
                    }
            },
        }
    }

    /// The epoch's output batch once every registered proposer is decrypted:
    /// the contributions in proposer order.
    pub open spec fn batch_view(self) -> Seq<(usize, Seq<u8>)> {
        pairs_upto(self.decrypted_view(), self.num_nodes as int)
    }

    /// Every proposer named by the subset output has a decrypted
    /// contribution: the batch can be assembled and the epoch finalized.
    pub open spec fn batch_ready(self) -> bool {
        &&& self.registry_view() matches Some(reg)
        &&& forall|p: int|
            0 <= p < self.num_nodes && (#[trigger] self.registry_view()->Some_0[p]) is Some
                ==> self.decrypted_view()[p] is Some
    }

    /// A record holding no protocol state at all: a running subset instance
    /// with no outcome, no registry, no shares, no contributions.
    pub open spec fn fresh(self) -> bool {
        &&& self.registry is None
        &&& !self.subset.complete
        &&& forall|p: int| 0 <= p < self.num_nodes ==> self.subset.delivered_view()[p] is None
        &&& forall|p: int| 0 <= p < self.num_nodes ==> self.subset.decided_view()[p] is None
        &&& forall|p: int| 0 <= p < self.num_nodes ==> self.row_clear(p)
        &&& forall|p: int| 0 <= p < self.num_nodes ==> self.decrypted_view()[p] is None
    }

    /// Fresh state for one epoch: a running subset instance, no registry, no
    /// shares, no contributions.
    pub fn new(num_nodes: usize, num_faulty: usize, our_id: usize) -> (r: EpochState)
        requires
            num_nodes > 3 * num_faulty,
            our_id < num_nodes,
        ensures
            r.wf(),
            r.fresh(),
            r.num_nodes == num_nodes,
            r.num_faulty == num_faulty,
            r.our_id == our_id,
            r.registry is None,
            !r.subset.complete,
            !r.batch_ready(),
            !r.subset.ready(),
            forall|p: int| 0 <= p < num_nodes ==> r.subset.delivered_view()[p] is None,
            forall|p: int| 0 <= p < num_nodes ==> r.subset.decided_view()[p] is None,
            forall|p: int| 0 <= p < num_nodes ==> r.row_clear(p),
            forall|p: int| 0 <= p < num_nodes ==> r.decrypted_view()[p] is None,
    {
        let subset = Subset::new(num_nodes);
        let mut shares: Vec<Vec<Option<Vec<u8>>>> = Vec::new();
        let mut decrypted: Vec<Option<Vec<u8>>> = Vec::new();
        let mut i: usize = 0;
        while i < num_nodes
            invariant
                i <= num_nodes,
                shares.deep_view().len() == i,
                decrypted.deep_view().len() == i,
                forall|p: int|
                    0 <= p < i ==> (#[trigger] shares.deep_view()[p]).len() == num_nodes,
                forall|p: int, s: int|
                    0 <= p < i && 0 <= s < num_nodes ==> (#[trigger] shares.deep_view()[p][s])
                        is None,
                forall|p: int| 0 <= p < i ==> decrypted.deep_view()[p] is None,
            decreases num_nodes - i,
        {
            let row = new_row(num_nodes);
            proof {
                lemma_deep_view_index(shares);
                lemma_deep_view_index(decrypted);
            }
            let ghost shares_pre = shares;
            let ghost decrypted_pre = decrypted;
            shares.push(row);
            decrypted.push(None);
            i = i + 1;
            proof {
                lemma_deep_view_index(shares);
                lemma_deep_view_index(decrypted);
                assert forall|p: int| 0 <= p < i implies decrypted.deep_view()[p] is None by {
                    assert(decrypted.deep_view()[p] == decrypted@[p].deep_view());
                    if p < i - 1 {
                        assert(decrypted@[p] == decrypted_pre@[p]);
                        assert(decrypted_pre.deep_view()[p] == decrypted_pre@[p].deep_view());
                    } else {
                        assert(decrypted@[p] == None::<Vec<u8>>);
                    }
                }
                assert forall|p: int| 0 <= p < i implies (#[trigger] shares.deep_view()[p]).len()
                    == num_nodes && forall|s: int|
                    0 <= s < num_nodes ==> shares.deep_view()[p][s] is None by {
                    if p < i - 1 {
                        assert(shares@[p] == shares_pre@[p]);
                        assert(shares_pre.deep_view()[p] == shares_pre@[p].deep_view());
                        assert(shares_pre.deep_view()[p].len() == num_nodes);
                    } else {
                        assert(shares@[p] == row);
                    }
                    assert(shares.deep_view()[p] == shares@[p].deep_view());
                }
            }
        }
        proof {
            assert(subset.decided_view()[0] is None);
            assert(!subset.ready());
        }
        EpochState { num_nodes, num_faulty, our_id, subset, registry: None, shares, decrypted }
    }
}

/// The faults one share row provokes when its ciphertext `c` becomes known:
/// one invalid-share fault per stored mismatching share, in sender order;
/// this node's own slot is overwritten, never faulted.
pub open spec fn row_faults(row: Seq<Option<Seq<u8>>>, c: Seq<u8>, our_id: int, i: int) -> Seq<
    Fault,
>
    decreases i,
{
    if i <= 0 {
        Seq::empty()
    } else {
        row_faults(row, c, our_id, i - 1) + if i - 1 != our_id && row[i - 1] is Some && row[i - 1]
            != Some(c) {
            seq![Fault { sender: (i - 1) as usize, kind: FaultKind::InvalidDecryptionShare }]
        } else {
            Seq::empty()
        }
    }
}

/// The faults that terminating the subset provokes: per accepted proposer,
/// in proposer order, the faults of its buffered share row.
pub open spec fn subset_faults(
    reg: Seq<Option<Seq<u8>>>,
    shares: Seq<Seq<Option<Seq<u8>>>>,
    our_id: int,
    i: int,
) -> Seq<Fault>
    decreases i,
{
    if i <= 0 {
        Seq::empty()
    } else {
        subset_faults(reg, shares, our_id, i - 1) + match reg[i - 1] {
            Some(c) => row_faults(shares[i - 1], c, our_id, shares[i - 1].len() as int),
            None => Seq::empty(),
        }
    }
}

/// The fault that accepting a share provokes, as a function of the state it
/// meets: an out-of-range proposer identity, or a share that fails
/// verification against a registered, still-undecrypted ciphertext.
pub open spec fn share_fault(pre: EpochState, proposer: usize, sh: Seq<u8>) -> Option<FaultKind> {
    if proposer >= pre.num_nodes {
        Some(FaultKind::InvalidProposer)
    } else if pre.decrypted_view()[proposer as int] is None && (match pre.live_cipher(
        proposer as int,
    ) {
        Some(c) => sh != c,
        None => false,
    }) {
        Some(FaultKind::InvalidDecryptionShare)
    } else {
        None
    }
}

/// How accepting one decryption share moves the epoch's state: rejected,
/// ignored, buffered, stored, or combined at the quorum — the whole case
/// analysis of the aggregator, as a relation between the old and new state.
pub open spec fn share_effect(
    pre: EpochState,
    post: EpochState,
    sender: usize,
    proposer: usize,
    sh: Seq<u8>,
) -> bool {
    &&& post.num_nodes == pre.num_nodes
    &&& post.num_faulty == pre.num_faulty
    &&& post.our_id == pre.our_id
    &&& post.subset == pre.subset
    &&& post.registry == pre.registry
    &&& if proposer >= pre.num_nodes {
        post == pre
    } else if pre.registry is None {
        &&& post.decrypted == pre.decrypted
        &&& if pre.shares_view()[proposer as int][sender as int] is None {
            post.shares_view() == pre.shares_view().update(
                proposer as int,
                pre.shares_view()[proposer as int].update(sender as int, Some(sh)),
            )
        } else {
            post == pre
        }
    } else if pre.live_cipher(proposer as int) is None || pre.decrypted_view()[proposer as int]
        is Some {
        post == pre
    } else {
        let c = pre.live_cipher(proposer as int)->Some_0;
        if sh != c {
            post == pre
        } else if pre.shares_view()[proposer as int][sender as int] is Some {
            post == pre
        } else if count_matching(pre.shares_view()[proposer as int], c, pre.num_nodes as int) + 1
            >= pre.quorum() {
            &&& post.decrypted_view() == pre.decrypted_view().update(proposer as int, Some(c))
            &&& post.row_clear(proposer as int)
            &&& forall|q: int|
                0 <= q < pre.num_nodes && q != proposer ==> post.shares_view()[q]
                    == pre.shares_view()[q]
        } else {
            &&& post.decrypted == pre.decrypted
            &&& post.shares_view() == pre.shares_view().update(
                proposer as int,
                pre.shares_view()[proposer as int].update(sender as int, Some(sh)),
            )
        }
    }
}

impl EpochState {
    /// Accepts one decryption share from `sender` for `proposer`'s
    /// ciphertext: the threshold-decryption aggregator.
    ///
    /// A share is accepted at most once per (proposer, sender) pair;
    /// duplicates and shares for already-decrypted or unregistered proposers
    /// are ignored, not errors.  Before the subset output is known the share
    /// is buffered unverified.  Once the ciphertext is registered, a share
    /// that fails verification is discarded with a fault and no state
    /// change; a valid share is stored, and when it is the `f + 1`-st the
    /// shares combine into the contribution and are discarded.
    pub fn add_share(&mut self, sender: usize, proposer: usize, share: Vec<u8>) -> (fault: Option<
        FaultKind,
    >)
        requires
            old(self).wf(),
            sender < old(self).num_nodes,
        ensures
            final(self).wf(),
            final(self).num_nodes == old(self).num_nodes,
            final(self).num_faulty == old(self).num_faulty,
            final(self).our_id == old(self).our_id,
            final(self).subset == old(self).subset,
            final(self).registry == old(self).registry,
            share_effect(*old(self), *final(self), sender, proposer, share@),
            fault == share_fault(*old(self), proposer, share@),
            // an out-of-range proposer identity is the sender's fault
            proposer >= old(self).num_nodes ==> fault == Some(FaultKind::InvalidProposer)
                && *final(self) == *old(self),
            // before the subset output: buffered, at most once per slot
            proposer < old(self).num_nodes && old(self).registry is None ==> fault is None
                && final(self).decrypted == old(self).decrypted && (if old(
                self,
            ).shares_view()[proposer as int][sender as int] is None {
                final(self).shares_view() == old(self).shares_view().update(
                    proposer as int,
                    old(self).shares_view()[proposer as int].update(
                        sender as int,
                        Some(share@),
                    ),
                )
            } else {
                *final(self) == *old(self)
            }),
            // unregistered proposer or already-decrypted contribution: ignored
            proposer < old(self).num_nodes && old(self).registry is Some && (old(self).live_cipher(
                proposer as int,
            ) is None || old(self).decrypted_view()[proposer as int] is Some) ==> fault is None
                && *final(self) == *old(self),
            // a share that fails verification is the sender's fault
            proposer < old(self).num_nodes && old(self).decrypted_view()[proposer as int] is None
                && (match old(self).live_cipher(proposer as int) {
                Some(c) => share@ != c,
                None => false,
            }) ==> fault == Some(FaultKind::InvalidDecryptionShare) && *final(self) == *old(self),
            // a valid share for a registered, undecrypted proposer
            proposer < old(self).num_nodes && old(self).decrypted_view()[proposer as int] is None
                && (match old(self).live_cipher(proposer as int) {
                Some(c) => share@ == c,
                None => false,
            }) ==> fault is None && {
                let c = old(self).live_cipher(proposer as int)->Some_0;
                if old(self).shares_view()[proposer as int][sender as int] is Some {
                    // same (proposer, sender) seen before: idempotent
                    *final(self) == *old(self)
                } else if count_matching(
                    old(self).shares_view()[proposer as int],
                    c,
                    old(self).num_nodes as int,
                ) + 1 >= old(self).quorum() {
                    // the quorum share: combine, record, discard the shares
                    &&& final(self).decrypted_view() == old(self).decrypted_view().update(
                        proposer as int,
                        Some(c),
                    )
                    &&& final(self).row_clear(proposer as int)
                    &&& forall|q: int|
                        0 <= q < old(self).num_nodes && q != proposer
                            ==> final(self).shares_view()[q] == old(self).shares_view()[q]
                } else {
                    &&& final(self).decrypted == old(self).decrypted
                    &&& final(self).shares_view() == old(self).shares_view().update(
                        proposer as int,
                        old(self).shares_view()[proposer as int].update(
                            sender as int,
                            Some(share@),
                        ),
                    )
                }
            },
    {
        proof {
            lemma_deep_view_index(self.shares);
            lemma_deep_view_index(self.decrypted);
            lemma_deep_view_index(self.shares@[proposer as int]);
        }
        if proposer >= self.num_nodes {
            return Some(FaultKind::InvalidProposer);
        }
        // Extract the registered ciphertext for this proposer, if any.
        let mut cipher: Option<Vec<u8>> = None;
        match &self.registry {
            Some(reg) => {
                proof {
                    lemma_deep_view_index(*reg);
                }
                match &reg[proposer] {
                    Some(c) => {
                        let cc = clone_bytes(c);
                        proof {
                            lemma_bytes_deep_view(*c);
                            lemma_bytes_deep_view(cc);
                            assert(reg@[proposer as int].deep_view() == Some(c@));
                        }
                        cipher = Some(cc);
                    },
                    None => {},
                }
            },
            None => {},
        }
        assert(cipher.deep_view() == self.live_cipher(proposer as int) || self.registry is None);
        if self.registry.is_none() {
            // The subset output is not known yet: buffer the share.
            if self.shares[proposer][sender].is_none() {
                store_share(&mut self.shares, proposer, sender, share);
            }
            return None;
        }
        match &cipher {
            None => {
                // The subset excluded this proposer: nothing to decrypt.
                None
            },
            Some(c) => {
                proof {
                    lemma_bytes_deep_view(*c);
                    assert(Some(c@) == self.live_cipher(proposer as int));
                }
                if self.decrypted[proposer].is_some() {
                    // Superseded: the contribution is already decrypted.
                    return None;
                }
                if !eq_bytes(&share, c) {
                    // Fails verification against the registered ciphertext.
                    return Some(FaultKind::InvalidDecryptionShare);
                }
                if self.shares[proposer][sender].is_some() {
                    // Duplicate (proposer, sender) pair: ignored.
                    return None;
                }
                let cnt = count_row(&self.shares[proposer], c);
                if cnt >= self.num_faulty {
                    // This share completes the quorum of f + 1: combine the
                    // shares into the contribution and discard them.
                    proof {
                        lemma_count_bounds(
                            self.shares_view()[proposer as int],
                            c@,
                            self.num_nodes as int,
                        );
                    }
                    self.decrypted.set(proposer, Some(clone_bytes(c)));
                    self.shares.set(proposer, new_row(self.num_nodes));
                    proof {
                        lemma_deep_view_index(self.shares);
                        lemma_deep_view_index(self.decrypted);
                        assert(self.decrypted_view() =~= old(self).decrypted_view().update(
                            proposer as int,
                            Some(c@),
                        ));
                        assert forall|q: int|
                            0 <= q < old(self).num_nodes && q != proposer implies
                            self.shares_view()[q] == old(self).shares_view()[q] by {
                            assert(self.shares@[q] == old(self).shares@[q]);
                        }
                    }
                    None
                } else {
                    store_share(&mut self.shares, proposer, sender, share);
                    proof {
                        lemma_count_update(
                            old(self).shares_view()[proposer as int],
                            c@,
                            sender as int,
                            Some(c@),
                            old(self).num_nodes as int,
                        );
                    }
                    None
                }
            },
        }
    }
}

impl EpochState {
    /// Routes a reliable-broadcast delivery into the epoch's subset
    /// instance; everything else is untouched.
    pub fn echo(&mut self, proposer: usize, ciphertext: Vec<u8>)
        requires
            old(self).wf(),
            proposer < old(self).num_nodes,
        ensures
            final(self).wf(),
            final(self).num_nodes == old(self).num_nodes,
            final(self).num_faulty == old(self).num_faulty,
            final(self).our_id == old(self).our_id,
            final(self).registry == old(self).registry,
            final(self).shares == old(self).shares,
            final(self).decrypted == old(self).decrypted,
            final(self).subset.complete == old(self).subset.complete,
            final(self).subset.decided_view() == old(self).subset.decided_view(),
            if !old(self).subset.complete && old(self).subset.delivered_view()[proposer as int]
                is None {
                final(self).subset.delivered_view() == old(self).subset.delivered_view().update(
                    proposer as int,
                    Some(ciphertext@),
                )
            } else {
                final(self).subset.delivered_view() == old(self).subset.delivered_view()
            },
    {
        self.subset.handle_echo(proposer, ciphertext);
        proof {
            if self.registry is Some {
                assert(!old(self).subset.complete ==> false);
                assert(self.subset.delivered_view() == old(self).subset.delivered_view());
            }
        }
    }

    /// Routes a binary-agreement outcome into the epoch's subset instance;
    /// everything else is untouched.
    pub fn decided(&mut self, proposer: usize, accept: bool)
        requires
            old(self).wf(),
            proposer < old(self).num_nodes,
        ensures
            final(self).wf(),
            final(self).num_nodes == old(self).num_nodes,
            final(self).num_faulty == old(self).num_faulty,
            final(self).our_id == old(self).our_id,
            final(self).registry == old(self).registry,
            final(self).shares == old(self).shares,
            final(self).decrypted == old(self).decrypted,
            final(self).subset.complete == old(self).subset.complete,
            final(self).subset.delivered_view() == old(self).subset.delivered_view(),
            if !old(self).subset.complete && old(self).subset.decided_view()[proposer as int]
                is None {
                final(self).subset.decided_view() == old(self).subset.decided_view().update(
                    proposer as int,
                    Some(accept),
                )
            } else {
                final(self).subset.decided_view() == old(self).subset.decided_view()
            },
    {
        self.subset.handle_decided(proposer, accept);
        proof {
            if self.registry is Some {
                assert(self.subset.decided_view() == old(self).subset.decided_view());
            }
        }
    }

    /// Drives the common-subset instance to its output, if it is ready.
    ///
    /// On termination the subset output becomes the ciphertext registry.
    /// For every accepted proposer, this node derives its own decryption
    /// share (to be disseminated by the caller and counted locally), the
    /// buffered shares are verified against the now-known ciphertext —
    /// mismatches are discarded with a fault — and any pair already holding
    /// a quorum of `f + 1` valid shares combines at once.  Shares buffered
    /// for excluded proposers are discarded.
    ///
    /// Returns the pairs `(proposer, own share)` to disseminate, and the
    /// faults of senders whose buffered shares failed verification.
    pub fn complete_subset(&mut self) -> (r: (Vec<(usize, Vec<u8>)>, Vec<Fault>))
        requires
            old(self).wf(),
        ensures
            final(self).wf(),
            final(self).num_nodes == old(self).num_nodes,
            final(self).num_faulty == old(self).num_faulty,
            final(self).our_id == old(self).our_id,
            final(self).subset.delivered_view() == old(self).subset.delivered_view(),
            final(self).subset.decided_view() == old(self).subset.decided_view(),
            if old(self).subset.ready() && !old(self).subset.complete {
                &&& final(self).subset.complete
                &&& final(self).registry_view() == Some(subset_output_view(old(self).subset))
                &&& forall|p: int|
                    0 <= p < old(self).num_nodes ==> match (#[trigger] subset_output_view(
                        old(self).subset,
                    )[p]) {
                        Some(c) => final(self).decrypted_view()[p] == (if count_matching(
                            verified_row(
                                old(self).shares_view()[p],
                                c,
                                old(self).our_id as int,
                            ),
                            c,
                            old(self).num_nodes as int,
                        ) >= old(self).quorum() {
                            Some(c)
                        } else {
                            None
                        }),
                        None => final(self).decrypted_view()[p] is None,
                    }
                &&& r.0.deep_view() == pairs_upto(
                    subset_output_view(old(self).subset),
                    old(self).num_nodes as int,
                )
                &&& r.1@ == subset_faults(
                    subset_output_view(old(self).subset),
                    old(self).shares_view(),
                    old(self).our_id as int,
                    old(self).num_nodes as int,
                )
            } else {
                *final(self) == *old(self) && r.0@.len() == 0 && r.1@.len() == 0
            },
            forall|i: int|
                0 <= i < r.1@.len() ==> (#[trigger] r.1@[i]).kind
                    == FaultKind::InvalidDecryptionShare && r.1@[i].sender < old(self).num_nodes,
    {
        if !self.subset.poll() {
            return (Vec::new(), Vec::new());
        }
        let ghost sub0 = self.subset;
        let reg = self.subset.take_output();
        proof {
            lemma_deep_view_index(reg);
            assert(reg.deep_view() =~= subset_output_view(sub0));
            lemma_deep_view_index(self.shares);
            lemma_deep_view_index(self.decrypted);
        }
        let ghost regv = reg.deep_view();
        let mut own: Vec<(usize, Vec<u8>)> = Vec::new();
        let mut faults: Vec<Fault> = Vec::new();
        let mut p: usize = 0;
        while p < self.num_nodes
            invariant
                old(self).wf(),
                sub0 == old(self).subset,
                sub0.ready(),
                self.num_nodes == old(self).num_nodes,
                self.num_faulty == old(self).num_faulty,
                self.our_id == old(self).our_id,
                self.registry == old(self).registry,
                self.registry is None,
                self.subset.wf(),
                self.subset.complete,
                self.subset.num_nodes == self.num_nodes,
                self.subset.delivered_view() == sub0.delivered_view(),
                self.subset.decided_view() == sub0.decided_view(),
                regv == subset_output_view(sub0),
                regv.len() == self.num_nodes,
                reg.deep_view() == regv,
                reg@.len() == self.num_nodes,
                self.our_id < self.num_nodes,
                self.num_nodes > 3 * self.num_faulty,
                p <= self.num_nodes,
                self.shares_view().len() == self.num_nodes,
                self.decrypted_view().len() == self.num_nodes,
                forall|q: int|
                    0 <= q < self.num_nodes ==> (#[trigger] self.shares_view()[q]).len()
                        == self.num_nodes,
                forall|q: int|
                    p <= q < self.num_nodes ==> #[trigger] self.shares_view()[q] == old(
                        self,
                    ).shares_view()[q],
                forall|q: int|
                    p <= q < self.num_nodes ==> (#[trigger] self.decrypted_view()[q]) is None,
                forall|q: int|
                    0 <= q < p ==> match (#[trigger] regv[q]) {
                        Some(c) => {
                            let vr = verified_row(
                                old(self).shares_view()[q],
                                c,
                                self.our_id as int,
                            );
                            let cm = count_matching(vr, c, self.num_nodes as int);
                            if cm >= self.num_faulty + 1 {
                                &&& self.decrypted_view()[q] == Some(c)
                                &&& forall|s: int|
                                    0 <= s < self.num_nodes ==> self.shares_view()[q][s] is None
                            } else {
                                &&& self.decrypted_view()[q] is None
                                &&& self.shares_view()[q] == vr
                            }
                        },
                        None => {
                            &&& self.decrypted_view()[q] is None
                            &&& forall|s: int|
                                0 <= s < self.num_nodes ==> self.shares_view()[q][s] is None
                        },
                    },
                own.deep_view() == pairs_upto(regv, p as int),
                forall|i: int|
                    0 <= i < faults@.len() ==> (#[trigger] faults@[i]).kind
                        == FaultKind::InvalidDecryptionShare && faults@[i].sender < self.num_nodes,
                faults@ == subset_faults(
                    regv,
                    old(self).shares_view(),
                    self.our_id as int,
                    p as int,
                ),
            decreases self.num_nodes - p,
        {
            proof {
                lemma_deep_view_index(reg);
                lemma_deep_view_index(self.shares);
                lemma_deep_view_index(self.decrypted);
                lemma_deep_view_index(own);
            }
            let ghost st0 = *self;
            let ghost own_pre = own;
            match &reg[p] {
                Some(c) => {
                    proof {
                        lemma_bytes_deep_view(*c);
                        assert(reg.deep_view()[p as int] == reg@[p as int].deep_view());
                        assert(regv[p as int] == Some(c@));
                        assert(self.shares_view()[p as int] == self.shares@[p as int].deep_view());
                    }
                    let (row2, cnt) = verify_row(&self.shares[p], c, self.our_id, &mut faults);
                    let oc = clone_bytes(c);
                    proof {
                        lemma_bytes_deep_view(oc);
                    }
                    own.push((p, oc));
                    if cnt >= self.num_faulty + 1 {
                        let dc = clone_bytes(c);
                        proof {
                            lemma_bytes_deep_view(dc);
                        }
                        self.decrypted.set(p, Some(dc));
                        self.shares.set(p, new_row(self.num_nodes));
                    } else {
                        self.shares.set(p, row2);
                    }
                },
                None => {
                    proof {
                        assert(reg.deep_view()[p as int] == reg@[p as int].deep_view());
                        assert(regv[p as int] is None);
                    }
                    self.shares.set(p, new_row(self.num_nodes));
                },
            }
            p = p + 1;
            proof {
                lemma_deep_view_index(self.shares);
                lemma_deep_view_index(self.decrypted);
                lemma_deep_view_index(own);
                assert forall|q: int|
                    0 <= q < self.num_nodes implies #[trigger] self.shares_view()[q] == (if q == p
                    - 1 {
                    self.shares_view()[q]
                } else {
                    st0.shares_view()[q]
                }) && self.decrypted_view()[q] == (if q == p - 1 {
                    self.decrypted_view()[q]
                } else {
                    st0.decrypted_view()[q]
                }) by {
                    if q != p - 1 {
                        assert(self.shares@[q] == st0.shares@[q]);
                        assert(st0.shares_view()[q] == st0.shares@[q].deep_view());
                        assert(self.shares_view()[q] == self.shares@[q].deep_view());
                        assert(self.decrypted@[q] == st0.decrypted@[q]);
                        assert(st0.decrypted_view()[q] == st0.decrypted@[q].deep_view());
                        assert(self.decrypted_view()[q] == self.decrypted@[q].deep_view());
                    }
                }
                assert forall|q: int|
                    p <= q < self.num_nodes implies (#[trigger] self.decrypted_view()[q]) is None by {
                    lemma_deep_view_index(st0.decrypted);
                    assert(self.decrypted@[q] == st0.decrypted@[q]);
                    assert(st0.decrypted_view()[q] is None);
                    assert(self.decrypted_view()[q] == self.decrypted@[q].deep_view());
                    assert(st0.decrypted_view()[q] == st0.decrypted@[q].deep_view());
                }
                assert(own.deep_view() =~= pairs_upto(regv, p as int));
                assert(faults@ =~= subset_faults(
                    regv,
                    old(self).shares_view(),
                    self.our_id as int,
                    p as int,
                ));
                assert forall|q: int|
                    0 <= q < self.num_nodes implies (#[trigger] self.shares_view()[q]).len()
                    == self.num_nodes by {
                    assert(self.shares_view()[q] == self.shares@[q].deep_view());
                    if q != p - 1 {
                        assert(st0.shares_view()[q].len() == self.num_nodes);
                    }
                }
            }
        }
        self.registry = Some(reg);
        proof {
            assert(self.registry_view() == Some(regv));
        }
        (own, faults)
    }
}

impl EpochState {
    /// Whether every proposer named by the subset output has a decrypted
    /// contribution, so the epoch can finalize.
    pub fn is_batch_ready(&self) -> (r: bool)
        requires
            self.wf(),
        ensures
            r == self.batch_ready(),
    {
        match &self.registry {
            None => false,
            Some(reg) => {
                proof {
                    lemma_deep_view_index(*reg);
                    lemma_deep_view_index(self.decrypted);
                }
                let mut p: usize = 0;
                while p < self.num_nodes
                    invariant
                        self.wf(),
                        self.registry_view() == Some(reg.deep_view()),
                        reg@.len() == self.num_nodes,
                        p <= self.num_nodes,
                        forall|q: int|
                            0 <= q < p && (#[trigger] reg.deep_view()[q]) is Some
                                ==> self.decrypted_view()[q] is Some,
                    decreases self.num_nodes - p,
                {
                    proof {
                        lemma_deep_view_index(*reg);
                        lemma_deep_view_index(self.decrypted);
                        assert(reg.deep_view()[p as int] == reg@[p as int].deep_view());
                        assert(self.decrypted_view()[p as int] == self.decrypted@[p
                            as int].deep_view());
                    }
                    if reg[p].is_some() && self.decrypted[p].is_none() {
                        return false;
                    }
                    p = p + 1;
                }
                true
            },
        }
    }

    /// Assembles the epoch's output batch: the decrypted contributions,
    /// ordered by proposer identity — deterministic and identical on every
    /// correct node.
    pub fn batch_contributions(&self) -> (r: Vec<(usize, Vec<u8>)>)
        requires
            self.wf(),
        ensures
            r.deep_view() == self.batch_view(),
    {
        let mut r: Vec<(usize, Vec<u8>)> = Vec::new();
        let mut p: usize = 0;
        while p < self.num_nodes
            invariant
                self.wf(),
                p <= self.num_nodes,
                r.deep_view() == pairs_upto(self.decrypted_view(), p as int),
            decreases self.num_nodes - p,
        {
            proof {
                lemma_deep_view_index(self.decrypted);
                lemma_deep_view_index(r);
                assert(self.decrypted_view()[p as int] == self.decrypted@[p as int].deep_view());
            }
            let ghost r_pre = r;
            match &self.decrypted[p] {
                Some(v) => {
                    let cv = clone_bytes(v);
                    proof {
                        lemma_bytes_deep_view(cv);
                        lemma_bytes_deep_view(*v);
                    }
                    r.push((p, cv));
                },
                None => {},
            }
            p = p + 1;
            proof {
                lemma_deep_view_index(r);
                assert forall|j: int| 0 <= j < r_pre@.len() implies r.deep_view()[j]
                    == r_pre.deep_view()[j] by {
                    assert(r@[j] == r_pre@[j]);
                    assert(r.deep_view()[j] == r@[j].deep_view());
                    assert(r_pre.deep_view()[j] == r_pre@[j].deep_view());
                }
                assert(r.deep_view() =~= pairs_upto(self.decrypted_view(), p as int));
            }
        }
        r
    }
}

/// Quorum threshold, the negative direction: while a registered proposer's
/// contribution is not reconstructed, at most `f` valid shares are stored —
/// `f` valid shares never combine; only the `f + 1`-st does (the positive
/// direction is the contract of [`EpochState::add_share`] and of
/// [`EpochState::complete_subset`]).
pub proof fn lemma_below_quorum_no_contribution(s: EpochState, p: int)
    requires
        s.wf(),
        0 <= p < s.num_nodes,
        s.live_cipher(p) is Some,
        s.decrypted_view()[p] is None,
    ensures
        count_matching(s.shares_view()[p], s.live_cipher(p)->Some_0, s.num_nodes as int)
            <= s.num_faulty,
        s.num_faulty < s.quorum(),
{
}

/// A finalized epoch's batch holds exactly the proposers of the subset
/// output — none missing, none duplicated — each with the bytes its quorum
/// combined to, in strictly increasing proposer order.
pub proof fn lemma_batch_matches_registry(s: EpochState)
    requires
        s.wf(),
        s.batch_ready(),
    ensures
        s.registry_view() matches Some(reg) && s.batch_view() == pairs_upto(
            reg,
            s.num_nodes as int,
        ),
{
    let reg = s.registry_view()->Some_0;
    assert forall|p: int| 0 <= p < s.num_nodes implies s.decrypted_view()[p] == reg[p] by {
        if reg[p] is Some {
            assert(s.decrypted_view()[p] is Some);
        }
    }
    assert(s.decrypted_view() =~= reg);
}

/// Safety: the output batch is a function of the subset output alone.  Two
/// nodes whose common-subset instances terminated with the same output —
/// which the agreement collaborator guarantees for all correct nodes — and
/// that both reached a full set of decrypted contributions assemble
/// identical batches: same proposers, same bytes, same order.
pub proof fn lemma_batch_agreement(a: EpochState, b: EpochState)
    requires
        a.wf(),
        b.wf(),
        a.batch_ready(),
        b.batch_ready(),
        a.registry_view() == b.registry_view(),
    ensures
        a.batch_view() == b.batch_view(),
{
    let reg = a.registry_view()->Some_0;
    assert(a.num_nodes == reg.len());
    assert(b.num_nodes == reg.len());
    assert forall|p: int| 0 <= p < reg.len() implies a.decrypted_view()[p] == reg[p]
        && b.decrypted_view()[p] == reg[p] by {
        if reg[p] is Some {
            assert(a.decrypted_view()[p] is Some);
            assert(b.decrypted_view()[p] is Some);
        }
    }
    assert(a.decrypted_view() =~= b.decrypted_view());
}

/// Verifies a buffered share row once its ciphertext `c` is known: this
/// node's own share joins at slot `our_id`, matching shares stay, and every
/// mismatch is discarded with a fault against its sender.  Returns the
/// verified row and its count of valid shares.
fn verify_row(
    row: &Vec<Option<Vec<u8>>>,
    c: &Vec<u8>,
    our_id: usize,
    faults: &mut Vec<Fault>,
) -> (r: (Vec<Option<Vec<u8>>>, usize))
    requires
        our_id < row@.len(),
    ensures
        r.0.deep_view() == verified_row(row.deep_view(), c@, our_id as int),
        r.1 == count_matching(verified_row(row.deep_view(), c@, our_id as int), c@, row@.len() as int),
        r.1 <= row@.len(),
        old(faults)@.len() <= final(faults)@.len(),
        forall|i: int| 0 <= i < old(faults)@.len() ==> final(faults)@[i] == old(faults)@[i],
        forall|i: int|
            old(faults)@.len() <= i < final(faults)@.len() ==> (#[trigger] final(faults)@[i]).kind
                == FaultKind::InvalidDecryptionShare && final(faults)@[i].sender < row@.len(),
        final(faults)@ == old(faults)@ + row_faults(
            row.deep_view(),
            c@,
            our_id as int,
            row@.len() as int,
        ),
{
    let ghost vrow = verified_row(row.deep_view(), c@, our_id as int);
    let mut out: Vec<Option<Vec<u8>>> = Vec::new();
    let mut count: usize = 0;
    let mut s: usize = 0;
    while s < row.len()
        invariant
            our_id < row@.len(),
            vrow == verified_row(row.deep_view(), c@, our_id as int),
            s <= row@.len(),
            count <= s,
            out.deep_view().len() == s,
            forall|j: int| 0 <= j < s ==> out.deep_view()[j] == vrow[j],
            count == count_matching(vrow, c@, s as int),
            old(faults)@.len() <= faults@.len(),
            forall|i: int| 0 <= i < old(faults)@.len() ==> faults@[i] == old(faults)@[i],
            forall|i: int|
                old(faults)@.len() <= i < faults@.len() ==> (#[trigger] faults@[i]).kind
                    == FaultKind::InvalidDecryptionShare && faults@[i].sender < row@.len(),
            faults@ == old(faults)@ + row_faults(row.deep_view(), c@, our_id as int, s as int),
        decreases row@.len() - s,
    {
        proof {
            lemma_deep_view_index(*row);
            lemma_deep_view_index(out);
        }
        let ghost out_pre = out;
        if s == our_id {
            out.push(Some(clone_bytes(c)));
            count = count + 1;
            proof {
                assert(vrow[s as int] == Some(c@));
            }
        } else {
            match &row[s] {
                Some(sh) => {
                    proof {
                        lemma_bytes_deep_view(*sh);
                    }
                    if eq_bytes(sh, c) {
                        out.push(Some(clone_bytes(sh)));
                        count = count + 1;
                        proof {
                            assert(vrow[s as int] == Some(c@));
                        }
                    } else {
                        faults.push(Fault { sender: s, kind: FaultKind::InvalidDecryptionShare });
                        out.push(None);
                        proof {
                            assert(vrow[s as int] is None);
                        }
                    }
                },
                None => {
                    out.push(None);
                    proof {
                        assert(vrow[s as int] is None);
                    }
                },
            }
        }
        s = s + 1;
        proof {
            lemma_deep_view_index(out);
            assert forall|j: int| 0 <= j < s implies out.deep_view()[j] == vrow[j] by {
                assert(out.deep_view()[j] == out@[j].deep_view());
                if j < s - 1 {
                    assert(out@[j] == out_pre@[j]);
                    assert(out_pre.deep_view()[j] == out_pre@[j].deep_view());
                }
            }
            assert(count_matching(vrow, c@, s as int) == count_matching(vrow, c@, s - 1)
                + if vrow[s - 1] == Some(c@) {
                1int
            } else {
                0int
            });
            assert(row.deep_view()[s - 1] == row@[s - 1].deep_view());
            assert(faults@ =~= old(faults)@ + row_faults(
                row.deep_view(),
                c@,
                our_id as int,
                s as int,
            ));
        }
    }
    proof {
        assert(out.deep_view() =~= vrow);
    }
    (out, count)
}

/// Counts the shares in `row` that match the ciphertext `c`.
fn count_row(row: &Vec<Option<Vec<u8>>>, c: &Vec<u8>) -> (r: usize)
    ensures
        r == count_matching(row.deep_view(), c@, row@.len() as int),
{
    let mut count: usize = 0;
    let mut s: usize = 0;
    while s < row.len()
        invariant
            s <= row@.len(),
            count <= s,
            count == count_matching(row.deep_view(), c@, s as int),
        decreases row@.len() - s,
    {
        proof {
            lemma_deep_view_index(*row);
        }
        match &row[s] {
            Some(sh) => {
                proof {
                    lemma_bytes_deep_view(*sh);
                }
                if eq_bytes(sh, c) {
                    count = count + 1;
                }
            },
            None => {},
        }
        s = s + 1;
        proof {
            assert(row.deep_view()[s - 1] == row@[s - 1].deep_view());
            assert(count_matching(row.deep_view(), c@, s as int) == count_matching(
                row.deep_view(),
                c@,
                s - 1,
            ) + if row.deep_view()[s - 1] == Some(c@) {
                1int
            } else {
                0int
            });
        }
    }
    count
}

/// Stores one share at `(proposer, sender)` in the share table.
fn store_share(
    shares: &mut Vec<Vec<Option<Vec<u8>>>>,
    proposer: usize,
    sender: usize,
    share: Vec<u8>,
)
    requires
        proposer < old(shares)@.len(),
        sender < old(shares).deep_view()[proposer as int].len(),
    ensures
        final(shares).deep_view() == old(shares).deep_view().update(
            proposer as int,
            old(shares).deep_view()[proposer as int].update(sender as int, Some(share@)),
        ),
{
    proof {
        lemma_deep_view_index(*old(shares));
        lemma_deep_view_index(old(shares)@[proposer as int]);
        lemma_bytes_deep_view(share);
    }
    let mut row: Vec<Option<Vec<u8>>> = Vec::new();
    shares.set_and_swap(proposer, &mut row);
    let ghost row_pre = row;
    row.set(sender, Some(share));
    shares.set_and_swap(proposer, &mut row);
    proof {
        lemma_deep_view_index(*shares);
        lemma_deep_view_index(shares@[proposer as int]);
        assert(shares@[proposer as int]@ == row_pre@.update(sender as int, Some(share)));
        assert(shares@[proposer as int].deep_view() =~= old(shares).deep_view()[proposer
            as int].update(sender as int, Some(share@)));
        assert(shares.deep_view() =~= old(shares).deep_view().update(
            proposer as int,
            old(shares).deep_view()[proposer as int].update(sender as int, Some(share@)),
        ));
    }
}

/// A fresh share row: one empty slot per sender.
fn new_row(n: usize) -> (r: Vec<Option<Vec<u8>>>)
    ensures
        r.deep_view().len() == n,
        forall|s: int| 0 <= s < n ==> r.deep_view()[s] is None,
{
    let mut r: Vec<Option<Vec<u8>>> = Vec::new();
    let mut i: usize = 0;
    while i < n
        invariant
            i <= n,
            r.deep_view().len() == i,
            forall|s: int| 0 <= s < i ==> r.deep_view()[s] is None,
        decreases n - i,
    {
        proof {
            lemma_deep_view_index(r);
        }
        let ghost pre = r;
        r.push(None);
        i = i + 1;
        proof {
            lemma_deep_view_index(r);
            assert(r.deep_view().len() == i);
            assert forall|s: int| 0 <= s < i implies r.deep_view()[s] is None by {
                assert(r.deep_view()[s] == r@[s].deep_view());
                if s < i - 1 {
                    assert(r@[s] == pre@[s]);
                    assert(pre.deep_view()[s] == pre@[s].deep_view());
                } else {
                    assert(r@[s] == None::<Vec<u8>>);
                }
            }
        }
    }
    r
}

} // verus!
