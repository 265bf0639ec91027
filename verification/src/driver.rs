//! The epoch driver: owns the current epoch counter, the live epoch's
//! state, and the queue of messages addressed to future epochs; routes
//! messages by epoch and sender, finalizes epochs and advances.
//!
//! Every entry point is synchronous and returns a [`Step`]: the messages to
//! broadcast, the finalized batches, and the faults to report.  Advancement
//! cascades: finalizing one epoch replays the messages buffered for the
//! next, which may finalize it in turn, all within one call.

use vstd::prelude::*;

use crate::fault::Error;
use crate::fault::Fault;
use crate::fault::FaultKind;
use crate::message::Message;
use crate::message::MessageContent;
use crate::message::SubsetMessage;
use crate::netinfo::NetworkInfo;
use crate::state::lemma_pairs_increasing;
use crate::state::pairs_upto;
use crate::state::proposers_increasing;
use crate::state::share_effect;
use crate::state::share_fault;
use crate::state::subset_output_view;
use crate::state::EpochState;
use crate::util::clone_bytes;
use crate::util::lemma_bytes_deep_view;
use crate::util::lemma_deep_view_index;

verus! {

/// A message buffered for an epoch ahead of the current one.
pub struct QueuedMessage {
    /// The epoch the message is addressed to.
    pub epoch: u64,
    /// The node that sent it.
    pub sender: usize,
    /// The payload.
    pub content: MessageContent,
}

/// One finalized epoch's output: the agreed contributions, ordered by
/// proposer identity.
#[derive(Debug)]
pub struct Batch {
    /// The finalized epoch.
    pub epoch: u64,
    /// The contributions, as `(proposer, bytes)` pairs in strictly
    /// increasing proposer order.
    pub contributions: Vec<(usize, Vec<u8>)>,
}

/// What one driver call produced: messages to broadcast to the other nodes,
/// finalized batches in epoch order, and faults to report upstream.
pub struct Step {
    /// Outbound messages, each tagged with its epoch, to broadcast.
    pub messages: Vec<Message>,
    /// Finalized `(epoch, batch)` outputs, consecutive by epoch.
    pub outputs: Vec<Batch>,
    /// Protocol faults attributable to senders.
    pub faults: Vec<Fault>,
    /// Ghost record of the epoch states at the moment of finalization, one
    /// per entry of `outputs`: each emitted batch is exactly the batch view
    /// of a well-formed, batch-ready state, which ties the outputs to the
    /// protocol state rather than leaving them free.
    pub finalized: Ghost<Seq<EpochState>>,
}

/// The messages of `q` addressed to epoch `e`, in order.
pub open spec fn epoch_filter(q: Seq<QueuedMessage>, e: u64) -> Seq<QueuedMessage>
    decreases q.len(),
{
    if q.len() == 0 {
        Seq::empty()
    } else {
        epoch_filter(q.drop_last(), e) + if q.last().epoch == e {
            seq![q.last()]
        } else {
            Seq::empty()
        }
    }
}

/// The messages of `q` addressed to any epoch but `e`, in order.
pub open spec fn epoch_reject(q: Seq<QueuedMessage>, e: u64) -> Seq<QueuedMessage>
    decreases q.len(),
{
    if q.len() == 0 {
        Seq::empty()
    } else {
        epoch_reject(q.drop_last(), e) + if q.last().epoch != e {
            seq![q.last()]
        } else {
            Seq::empty()
        }
    }
}

/// The filters keep only messages of the original queue: every message
/// `epoch_reject` keeps lies in the same epoch window, names the same kind
/// of sender, and is addressed to an epoch other than `e`.
pub proof fn lemma_reject_entries(q: Seq<QueuedMessage>, e: u64, lo: int, hi: int, n: usize)
    requires
        forall|j: int|
            0 <= j < q.len() ==> lo < (#[trigger] q[j]).epoch && q[j].epoch <= hi && q[j].sender
                < n,
    ensures
        forall|i: int|
            0 <= i < epoch_reject(q, e).len() ==> {
                let m = #[trigger] epoch_reject(q, e)[i];
                &&& lo < m.epoch
                &&& m.epoch <= hi
                &&& m.sender < n
                &&& m.epoch != e
            },
    decreases q.len(),
{
    if q.len() > 0 {
        lemma_reject_entries(q.drop_last(), e, lo, hi, n);
        assert(q[q.len() - 1] == q.last());
    }
}

/// Every message `epoch_filter` selects lies in the same epoch window,
/// names the same kind of sender, and is addressed to `e`.
pub proof fn lemma_filter_entries(q: Seq<QueuedMessage>, e: u64, lo: int, hi: int, n: usize)
    requires
        forall|j: int|
            0 <= j < q.len() ==> lo < (#[trigger] q[j]).epoch && q[j].epoch <= hi && q[j].sender
                < n,
    ensures
        forall|i: int|
            0 <= i < epoch_filter(q, e).len() ==> {
                let m = #[trigger] epoch_filter(q, e)[i];
                &&& lo < m.epoch
                &&& m.epoch <= hi
                &&& m.sender < n
                &&& m.epoch == e
            },
    decreases q.len(),
{
    if q.len() > 0 {
        lemma_filter_entries(q.drop_last(), e, lo, hi, n);
        assert(q[q.len() - 1] == q.last());
    }
}

/// How routing one current-epoch message moves the epoch's subset record:
/// an echo records the sender's first delivery, a decision records a
/// proposer's first agreement outcome, a decryption share touches neither —
/// and a terminated instance records nothing further.
pub open spec fn subset_transition(
    pre: EpochState,
    post: EpochState,
    sender: usize,
    content: MessageContent,
) -> bool {
    match content {
        MessageContent::Subset(SubsetMessage::Echo { ciphertext }) => {
            &&& post.subset.decided_view() == pre.subset.decided_view()
            &&& if !pre.subset.complete && pre.subset.delivered_view()[sender as int] is None {
                post.subset.delivered_view() == pre.subset.delivered_view().update(
                    sender as int,
                    Some(ciphertext@),
                )
            } else {
                post.subset.delivered_view() == pre.subset.delivered_view()
            }
        },
        MessageContent::Subset(SubsetMessage::Decided { proposer, accept }) => {
            &&& post.subset.delivered_view() == pre.subset.delivered_view()
            &&& if proposer < pre.num_nodes && !pre.subset.complete
                && pre.subset.decided_view()[proposer as int] is None {
                post.subset.decided_view() == pre.subset.decided_view().update(
                    proposer as int,
                    Some(accept),
                )
            } else {
                post.subset.decided_view() == pre.subset.decided_view()
            }
        },
        MessageContent::DecryptionShare { .. } => {
            &&& post.subset.delivered_view() == pre.subset.delivered_view()
            &&& post.subset.decided_view() == pre.subset.decided_view()
        },
    }
}

/// `post` is `pre` followed by exactly one decryption-share broadcast per
/// pair of `pairs`, in order: for the pair `(proposer, bytes)` a message of
/// epoch `epoch` carrying that proposer's share.
pub open spec fn share_messages_appended(
    pre: Seq<Message>,
    post: Seq<Message>,
    epoch: u64,
    pairs: Seq<(usize, Seq<u8>)>,
) -> bool {
    &&& post.len() == pre.len() + pairs.len()
    &&& forall|i: int| 0 <= i < pre.len() ==> post[i] == pre[i]
    &&& forall|k: int|
        0 <= k < pairs.len() ==> {
            let m = #[trigger] post[pre.len() + k];
            &&& m.epoch == epoch
            &&& match m.content {
                MessageContent::DecryptionShare { proposer, share } => proposer == pairs[k].0
                    && share@ == pairs[k].1,
                _ => false,
            }
        }
}

/// The step-by-step effect of routing the messages of `msgs`, in order,
/// into the live epoch's record: each message moves the subset record per
/// `subset_transition`, and a subset determined by a message is terminated
/// at once.
pub open spec fn replay_transition(
    pre: EpochState,
    msgs: Seq<QueuedMessage>,
    post: EpochState,
) -> bool
    decreases msgs.len(),
{
    if msgs.len() == 0 {
        &&& post.num_nodes == pre.num_nodes
        &&& post.subset.complete == pre.subset.complete
        &&& post.subset.delivered_view() == pre.subset.delivered_view()
        &&& post.subset.decided_view() == pre.subset.decided_view()
    } else {
        exists|mid: EpochState|
            #[trigger] subset_transition(mid, post, msgs.last().sender, msgs.last().content)
                && replay_transition(pre, msgs.drop_last(), mid) && post.num_nodes
                == mid.num_nodes && post.subset.complete == (mid.subset.complete
                || post.subset.ready())
    }
}

/// The epoch's record is what replaying `msgs` into a fresh record of `n`
/// slots leaves behind: what was buffered for a reached epoch is routed,
/// never dropped.
pub open spec fn replayed_from_fresh(n: usize, msgs: Seq<QueuedMessage>, post: EpochState) -> bool {
    exists|s0: EpochState|
        s0.num_nodes == n && s0.fresh() && #[trigger] replay_transition(s0, msgs, post)
}

/// Removing the messages of one epoch does not change which messages any
/// other epoch has buffered.
pub proof fn lemma_filter_after_reject(q: Seq<QueuedMessage>, e1: u64, e2: u64)
    requires
        e1 != e2,
    ensures
        epoch_filter(epoch_reject(q, e1), e2) == epoch_filter(q, e2),
    decreases q.len(),
{
    if q.len() > 0 {
        lemma_filter_after_reject(q.drop_last(), e1, e2);
        let r = epoch_reject(q, e1);
        if q.last().epoch != e1 {
            assert(r.drop_last() =~= epoch_reject(q.drop_last(), e1));
            assert(r.last() == q.last());
            assert(r.len() > 0);
        } else {
            assert(r =~= epoch_reject(q.drop_last(), e1));
        }
    }
}

/// The invalid-share faults that a call provokes by terminating the
/// subset: the verification faults of the buffered share rows, or nothing
/// when the subset does not terminate in this call.
pub open spec fn completion_faults(pre: EpochState, post: EpochState) -> Seq<Fault> {
    if post.subset.complete && !pre.subset.complete {
        crate::state::subset_faults(
            subset_output_view(post.subset),
            pre.shares_view(),
            pre.our_id as int,
            pre.num_nodes as int,
        )
    } else {
        Seq::empty()
    }
}

/// The epoch-pipelined driver of the atomic broadcast core.
pub struct HoneyBadger {
    /// Shared, immutable network data.
    pub netinfo: NetworkInfo,
    /// The current epoch; advances by exactly one per finalized batch.
    pub epoch: u64,
    /// Whether this node has already proposed in the current epoch.
    pub has_input: bool,
    /// How far ahead of the current epoch a message's epoch may lie.
    pub max_future_epochs: u64,
    /// All state of the current epoch, pruned as a whole on advancement.
    pub state: EpochState,
    /// Messages buffered for epochs inside the lookahead window but ahead
    /// of the current one, replayed when their epoch becomes current.
    pub incoming_queue: Vec<QueuedMessage>,
}

impl HoneyBadger {
    /// The driver's invariant: the network record is valid, the live
    /// epoch's state matches it, and every queued message lies strictly
    /// inside the lookahead window and names a known sender.
    pub open spec fn wf_core(self) -> bool {
        &&& self.netinfo.wf()
        &&& self.state.wf()
        &&& self.state.num_nodes == self.netinfo.num_nodes
        &&& self.state.num_faulty == self.netinfo.num_faulty
        &&& self.state.our_id == self.netinfo.our_id
        &&& forall|i: int|
            0 <= i < self.incoming_queue@.len() ==> {
                let qm = #[trigger] self.incoming_queue@[i];
                &&& self.epoch < qm.epoch
                &&& qm.epoch <= self.epoch + self.max_future_epochs
                &&& qm.sender < self.netinfo.num_nodes
            }
    }

    /// `wf_core` plus quiescence: between driving calls a determined subset
    /// has always been terminated and recorded, never left pending.
    pub open spec fn wf(self) -> bool {
        &&& self.wf_core()
        &&& (self.state.subset.ready() ==> self.state.subset.complete)
    }

    /// A fresh driver at epoch 0 with no input, no live protocol state and
    /// an empty queue.
    pub fn new(netinfo: NetworkInfo, max_future_epochs: u64) -> (r: HoneyBadger)
        requires
            netinfo.wf(),
        ensures
            r.wf(),
            r.netinfo == netinfo,
            r.epoch == 0,
            !r.has_input,
            r.max_future_epochs == max_future_epochs,
            r.incoming_queue@.len() == 0,
            r.state.fresh(),
            !r.state.batch_ready(),
    {
        let state = EpochState::new(netinfo.num_nodes(), netinfo.num_faulty(), netinfo.our_id());
        HoneyBadger {
            netinfo,
            epoch: 0,
            has_input: false,
            max_future_epochs,
            state,
            incoming_queue: Vec::new(),
        }
    }

    /// Current epoch.
    pub fn epoch(&self) -> (r: u64)
        ensures
            r == self.epoch,
    {
        self.epoch
    }

    /// Whether this node has already proposed in the current epoch.
    pub fn has_input(&self) -> (r: bool)
        ensures
            r == self.has_input,
    {
        self.has_input
    }

    /// Proposes this node's contribution for the current epoch.
    ///
    /// Accepted exactly once per epoch: a second call before the epoch
    /// advances is a usage error and leaves the driver unchanged.  On
    /// success the payload is bound as this node's ciphertext into the
    /// current epoch's subset (the threshold encryption itself is the
    /// external cryptosystem's; the bytes are opaque here), broadcast to
    /// the peers, and any thereby-completed epochs finalize.
    pub fn propose(&mut self, payload: Vec<u8>) -> (r: Result<Step, Error>)
        requires
            old(self).wf(),
        ensures
            final(self).wf(),
            final(self).netinfo == old(self).netinfo,
            final(self).max_future_epochs == old(self).max_future_epochs,
            final(self).epoch >= old(self).epoch,
            old(self).has_input ==> r == Err::<Step, Error>(Error::AlreadyProposed) && *final(self)
                == *old(self),
            !old(self).has_input ==> r is Ok && (!final(self).state.batch_ready()
                || final(self).epoch == u64::MAX),
            !old(self).has_input ==> (r matches Ok(step) && {
                &&& final(self).epoch == old(self).epoch ==> final(self).has_input
                &&& final(self).epoch > old(self).epoch ==> !final(self).has_input
                &&& step.finalized@.len() == step.outputs@.len()
                &&& forall|j: int|
                    0 <= j < step.outputs@.len() ==> (#[trigger] step.finalized@[j]).wf()
                        && step.finalized@[j].batch_ready() && step.finalized@[j].num_nodes == old(
                        self,
                    ).netinfo.num_nodes && step.finalized@[j].num_faulty == old(
                        self,
                    ).netinfo.num_faulty && step.outputs@[j].contributions.deep_view()
                        == step.finalized@[j].batch_view()
                &&& final(self).epoch > old(self).epoch ==> {
                    let st0 = step.finalized@[0];
                    &&& st0.batch_ready()
                    &&& st0.subset.decided_view() == old(self).state.subset.decided_view()
                    &&& (if !old(self).state.subset.complete && old(
                        self,
                    ).state.subset.delivered_view()[old(self).netinfo.our_id as int] is None {
                        st0.subset.delivered_view() == old(
                            self,
                        ).state.subset.delivered_view().update(
                            old(self).netinfo.our_id as int,
                            Some(payload@),
                        )
                    } else {
                        st0.subset.delivered_view() == old(self).state.subset.delivered_view()
                    })
                }
                &&& final(self).epoch > old(self).epoch ==> replayed_from_fresh(
                    old(self).netinfo.num_nodes,
                    epoch_filter(old(self).incoming_queue@, final(self).epoch),
                    final(self).state,
                )
                &&& forall|j: int|
                    0 < j < step.outputs@.len() ==> replayed_from_fresh(
                        old(self).netinfo.num_nodes,
                        epoch_filter(old(self).incoming_queue@, (old(self).epoch + j) as u64),
                        #[trigger] step.finalized@[j],
                    )
                &&& step.outputs@.len() == final(self).epoch - old(self).epoch
                &&& forall|j: int|
                    0 <= j < step.outputs@.len() ==> (#[trigger] step.outputs@[j]).epoch == old(
                        self,
                    ).epoch + j && proposers_increasing(step.outputs@[j].contributions.deep_view())
                &&& step.messages@.len() >= 1
                &&& final(self).epoch == old(self).epoch ==> step.faults@ == completion_faults(
                    old(self).state,
                    final(self).state,
                )
                &&& final(self).epoch == old(self).epoch ==> (if final(self).state.subset.complete && !old(self).state.subset.complete {
                    share_messages_appended(
                        step.messages@.take(1),
                        step.messages@,
                        old(self).epoch,
                        pairs_upto(
                            subset_output_view(final(self).state.subset),
                            old(self).netinfo.num_nodes as int,
                        ),
                    )
                } else {
                    step.messages@.len() == 1
                })
                &&& step.messages@[0].epoch == old(self).epoch
                &&& match step.messages@[0].content {
                    MessageContent::Subset(SubsetMessage::Echo { ciphertext }) => ciphertext@
                        == payload@,
                    _ => false,
                }
                &&& final(self).epoch == old(self).epoch
                    ==> final(self).state.subset.decided_view() == old(
                    self,
                ).state.subset.decided_view() && (if !old(self).state.subset.complete && old(
                    self,
                ).state.subset.delivered_view()[old(self).netinfo.our_id as int] is None {
                    final(self).state.subset.delivered_view() == old(
                        self,
                    ).state.subset.delivered_view().update(
                        old(self).netinfo.our_id as int,
                        Some(payload@),
                    )
                } else {
                    final(self).state.subset.delivered_view() == old(
                        self,
                    ).state.subset.delivered_view()
                })
            }),
    {
        if self.has_input {
            return Err(Error::AlreadyProposed);
        }
        self.has_input = true;
        let mut step = Step {
            messages: Vec::new(),
            outputs: Vec::new(),
            faults: Vec::new(),
            finalized: Ghost(Seq::empty()),
        };
        let our = self.netinfo.our_id();
        let ct = clone_bytes(&payload);
        self.state.echo(our, ct);
        step.messages.push(
            Message {
                epoch: self.epoch,
                content: MessageContent::Subset(SubsetMessage::Echo { ciphertext: payload }),
            },
        );
        let ghost m1 = step.messages@;
        let ghost mid = *self;
        self.finish_current(&mut step);
        proof {
            assert(subset_output_view(self.state.subset) =~= subset_output_view(
                mid.state.subset,
            ));
        }
        self.drive(&mut step);
        proof {
            assert(step.messages@.take(1) =~= m1);
            let cfv = completion_faults(old(self).state, self.state);
            assert(Seq::<Fault>::empty() + cfv =~= cfv);
        }
        Ok(step)
    }

    /// Routes one incoming message by sender and epoch.
    ///
    /// A message from an unknown sender is that sender's fault.  A message
    /// for an epoch already finalized is stale and silently discarded.  One
    /// beyond the lookahead window is rejected with a fault and no state
    /// change.  One for a future epoch inside the window is buffered.  One
    /// for the current epoch is routed into the live protocol state, and
    /// any thereby-completed epochs finalize, replaying buffered messages.
    pub fn handle_message(&mut self, sender: usize, epoch: u64, content: MessageContent) -> (step:
        Step)
        requires
            old(self).wf(),
        ensures
            final(self).wf(),
            final(self).netinfo == old(self).netinfo,
            final(self).max_future_epochs == old(self).max_future_epochs,
            final(self).epoch >= old(self).epoch,
            sender >= old(self).netinfo.num_nodes ==> *final(self) == *old(self)
                && step.messages@.len() == 0 && step.outputs@.len() == 0 && step.faults@ == seq![
                Fault { sender, kind: FaultKind::UnknownSender },
            ],
            sender < old(self).netinfo.num_nodes && epoch < old(self).epoch ==> *final(self)
                == *old(self) && step.messages@.len() == 0 && step.outputs@.len() == 0
                && step.faults@.len() == 0,
            sender < old(self).netinfo.num_nodes && epoch > old(self).epoch + old(
                self,
            ).max_future_epochs ==> *final(self) == *old(self) && step.messages@.len() == 0
                && step.outputs@.len() == 0 && step.faults@ == seq![
                Fault { sender, kind: FaultKind::EpochBeyondWindow },
            ],
            sender < old(self).netinfo.num_nodes && old(self).epoch < epoch <= old(self).epoch
                + old(self).max_future_epochs ==> final(self).incoming_queue@ == old(
                self,
            ).incoming_queue@.push(QueuedMessage { epoch, sender, content })
                && final(self).epoch == old(self).epoch && final(self).has_input == old(
                self,
            ).has_input && final(self).state == old(self).state && step.messages@.len() == 0
                && step.outputs@.len() == 0 && step.faults@.len() == 0,
            step.finalized@.len() == step.outputs@.len(),
            sender < old(self).netinfo.num_nodes && epoch == old(self).epoch ==> {
                &&& !final(self).state.batch_ready() || final(self).epoch == u64::MAX
                &&& step.outputs@.len() == final(self).epoch - old(self).epoch
                &&& forall|j: int|
                    0 <= j < step.outputs@.len() ==> (#[trigger] step.outputs@[j]).epoch == old(
                        self,
                    ).epoch + j && proposers_increasing(step.outputs@[j].contributions.deep_view())
                &&& forall|j: int|
                    0 <= j < step.outputs@.len() ==> (#[trigger] step.finalized@[j]).wf()
                        && step.finalized@[j].batch_ready() && step.finalized@[j].num_nodes == old(
                        self,
                    ).netinfo.num_nodes && step.finalized@[j].num_faulty == old(
                        self,
                    ).netinfo.num_faulty && step.outputs@[j].contributions.deep_view()
                        == step.finalized@[j].batch_view()
                &&& final(self).epoch > old(self).epoch ==> subset_transition(
                    old(self).state,
                    step.finalized@[0],
                    sender,
                    content,
                ) && step.finalized@[0].batch_ready()
                &&& final(self).epoch > old(self).epoch ==> replayed_from_fresh(
                    old(self).netinfo.num_nodes,
                    epoch_filter(old(self).incoming_queue@, final(self).epoch),
                    final(self).state,
                )
                &&& forall|j: int|
                    0 < j < step.outputs@.len() ==> replayed_from_fresh(
                        old(self).netinfo.num_nodes,
                        epoch_filter(old(self).incoming_queue@, (old(self).epoch + j) as u64),
                        #[trigger] step.finalized@[j],
                    )
                &&& (match content {
                    MessageContent::DecryptionShare { proposer, share } => {
                        &&& (final(self).epoch == old(self).epoch ==> share_effect(
                            old(self).state,
                            final(self).state,
                            sender,
                            proposer,
                            share@,
                        ) && (match share_fault(old(self).state, proposer, share@) {
                            Some(k) => step.faults@ == seq![Fault { sender, kind: k }],
                            None => step.faults@.len() == 0,
                        }) && step.messages@.len() == 0)
                        &&& (final(self).epoch > old(self).epoch ==> share_effect(
                            old(self).state,
                            step.finalized@[0],
                            sender,
                            proposer,
                            share@,
                        ))
                    },
                    _ => true,
                })
                &&& final(self).epoch == old(self).epoch ==> (if final(self).state.subset.complete && !old(self).state.subset.complete {
                    share_messages_appended(
                        Seq::empty(),
                        step.messages@,
                        old(self).epoch,
                        pairs_upto(
                            subset_output_view(final(self).state.subset),
                            old(self).netinfo.num_nodes as int,
                        ),
                    )
                } else {
                    step.messages@.len() == 0
                })
                &&& final(self).epoch == old(self).epoch ==> (match content {
                    MessageContent::Subset(SubsetMessage::Echo { .. }) => step.faults@
                        == completion_faults(old(self).state, final(self).state),
                    MessageContent::Subset(SubsetMessage::Decided { proposer, .. }) => step.faults@
                        == (if proposer >= old(self).netinfo.num_nodes {
                        seq![Fault { sender, kind: FaultKind::InvalidProposer }]
                    } else {
                        Seq::empty()
                    }) + completion_faults(old(self).state, final(self).state),
                    MessageContent::DecryptionShare { .. } => true,
                })
                &&& final(self).epoch > old(self).epoch ==> !final(self).has_input
                &&& final(self).epoch == old(self).epoch ==> final(self).has_input == old(
                    self,
                ).has_input && subset_transition(old(self).state, final(self).state, sender, content)
            },
    {
        let mut step = Step {
            messages: Vec::new(),
            outputs: Vec::new(),
            faults: Vec::new(),
            finalized: Ghost(Seq::empty()),
        };
        if sender >= self.netinfo.num_nodes() {
            step.faults.push(Fault { sender, kind: FaultKind::UnknownSender });
            proof {
                assert(step.faults@ =~= seq![Fault { sender, kind: FaultKind::UnknownSender }]);
            }
            return step;
        }
        if epoch < self.epoch {
            // Stale: the epoch is already finalized; retransmissions are
            // expected and discarded silently.
            return step;
        }
        if epoch - self.epoch > self.max_future_epochs {
            // Beyond the lookahead window: the sender violates the bound.
            step.faults.push(Fault { sender, kind: FaultKind::EpochBeyondWindow });
            proof {
                assert(step.faults@ =~= seq![Fault { sender, kind: FaultKind::EpochBeyondWindow }]);
            }
            return step;
        }
        if epoch > self.epoch {
            // A future epoch inside the window: buffer until it is current.
            self.incoming_queue.push(QueuedMessage { epoch, sender, content });
            return step;
        }
        self.route_current(sender, content, &mut step);
        self.drive(&mut step);
        proof {
            let cfv = completion_faults(old(self).state, self.state);
            assert(Seq::<Fault>::empty() + cfv =~= cfv);
            let ipf = seq![Fault { sender, kind: FaultKind::InvalidProposer }];
            assert((Seq::<Fault>::empty() + ipf) + cfv =~= ipf + cfv);
            let ipe = Seq::<Fault>::empty();
            assert((Seq::<Fault>::empty() + ipe) + cfv =~= ipe + cfv);
        }
        step
    }

    /// Routes a current-epoch message into the live protocol state and, if
    /// the subset thereby terminates, records its output and disseminates
    /// this node's decryption shares.  Never advances the epoch.
    fn route_current(&mut self, sender: usize, content: MessageContent, step: &mut Step)
        requires
            old(self).wf(),
            sender < old(self).netinfo.num_nodes,
        ensures
            final(self).wf(),
            final(self).netinfo == old(self).netinfo,
            final(self).max_future_epochs == old(self).max_future_epochs,
            final(self).epoch == old(self).epoch,
            final(self).has_input == old(self).has_input,
            final(self).incoming_queue == old(self).incoming_queue,
            final(step).outputs == old(step).outputs,
            old(step).messages@.len() <= final(step).messages@.len(),
            forall|i: int|
                0 <= i < old(step).messages@.len() ==> final(step).messages@[i] == old(
                    step,
                ).messages@[i],
            old(step).faults@.len() <= final(step).faults@.len(),
            forall|i: int|
                0 <= i < old(step).faults@.len() ==> final(step).faults@[i] == old(
                    step,
                ).faults@[i],
            final(step).finalized == old(step).finalized,
            if final(self).state.subset.complete && !old(self).state.subset.complete {
                share_messages_appended(
                    old(step).messages@,
                    final(step).messages@,
                    old(self).epoch,
                    pairs_upto(
                        subset_output_view(final(self).state.subset),
                        old(self).state.num_nodes as int,
                    ),
                )
            } else {
                final(step).messages == old(step).messages
            },
            subset_transition(old(self).state, final(self).state, sender, content),
            final(self).state.subset.complete == (old(self).state.subset.complete
                || final(self).state.subset.ready()),
            match content {
                MessageContent::DecryptionShare { proposer, share } => {
                    &&& share_effect(old(self).state, final(self).state, sender, proposer, share@)
                    &&& final(step).messages == old(step).messages
                    &&& (match share_fault(old(self).state, proposer, share@) {
                        Some(k) => final(step).faults@ == old(step).faults@.push(
                            Fault { sender, kind: k },
                        ),
                        None => final(step).faults == old(step).faults,
                    })
                },
                MessageContent::Subset(SubsetMessage::Echo { .. }) => final(step).faults@ == old(step).faults@ + completion_faults(old(self).state, final(self).state),
                MessageContent::Subset(SubsetMessage::Decided { proposer, .. }) => final(step).faults@ == old(step).faults@ + (if proposer >= old(self).state.num_nodes {
                    seq![Fault { sender, kind: FaultKind::InvalidProposer }]
                } else {
                    Seq::empty()
                }) + completion_faults(old(self).state, final(self).state),
            },
    {
        match content {
            MessageContent::Subset(sm) => {
                match sm {
                    SubsetMessage::Echo { ciphertext } => {
                        // The envelope sender is the proposer whose
                        // reliable broadcast delivered this ciphertext.
                        self.state.echo(sender, ciphertext);
                    },
                    SubsetMessage::Decided { proposer, accept } => {
                        if proposer >= self.netinfo.num_nodes() {
                            step.faults.push(Fault { sender, kind: FaultKind::InvalidProposer });
                        } else {
                            self.state.decided(proposer, accept);
                        }
                    },
                }
            },
            MessageContent::DecryptionShare { proposer, share } => {
                match self.state.add_share(sender, proposer, share) {
                    Some(kind) => {
                        step.faults.push(Fault { sender, kind });
                    },
                    None => {},
                }
            },
        }
        let ghost mid = *self;
        self.finish_current(step);
        proof {
            assert(subset_output_view(self.state.subset) =~= subset_output_view(
                mid.state.subset,
            ));
        }
    }

    /// If the current epoch's subset just became determined, records its
    /// output as the ciphertext registry and broadcasts this node's
    /// decryption share for every accepted proposer: exactly one share
    /// message per accepted proposer, in proposer order.  Otherwise nothing
    /// changes.
    fn finish_current(&mut self, step: &mut Step)
        requires
            old(self).wf_core(),
        ensures
            final(self).wf(),
            final(self).netinfo == old(self).netinfo,
            final(self).max_future_epochs == old(self).max_future_epochs,
            final(self).epoch == old(self).epoch,
            final(self).has_input == old(self).has_input,
            final(self).incoming_queue == old(self).incoming_queue,
            final(self).state.subset.delivered_view() == old(self).state.subset.delivered_view(),
            final(self).state.subset.decided_view() == old(self).state.subset.decided_view(),
            final(self).state.subset.complete == (old(self).state.subset.complete || old(
                self,
            ).state.subset.ready()),
            final(step).outputs == old(step).outputs,
            final(step).finalized == old(step).finalized,
            if old(self).state.subset.ready() && !old(self).state.subset.complete {
                share_messages_appended(
                    old(step).messages@,
                    final(step).messages@,
                    old(self).epoch,
                    pairs_upto(
                        subset_output_view(old(self).state.subset),
                        old(self).state.num_nodes as int,
                    ),
                )
            } else {
                *final(self) == *old(self) && *final(step) == *old(step)
            },
            old(step).faults@.len() <= final(step).faults@.len(),
            forall|i: int|
                0 <= i < old(step).faults@.len() ==> final(step).faults@[i] == old(
                    step,
                ).faults@[i],
            forall|i: int|
                old(step).faults@.len() <= i < final(step).faults@.len() ==> (#[trigger] final(step).faults@[i]).kind == FaultKind::InvalidDecryptionShare
                    && final(step).faults@[i].sender < old(self).state.num_nodes,
            old(self).state.subset.ready() && !old(self).state.subset.complete
                ==> final(step).faults@ == old(step).faults@ + crate::state::subset_faults(
                subset_output_view(old(self).state.subset),
                old(self).state.shares_view(),
                old(self).state.our_id as int,
                old(self).state.num_nodes as int,
            ),
    {
        let ghost ready_now = self.state.subset.ready() && !self.state.subset.complete;
        let ghost pairs = pairs_upto(
            subset_output_view(self.state.subset),
            self.state.num_nodes as int,
        );
        let r = self.state.complete_subset();
        let mut own = r.0;
        let mut fs = r.1;
        proof {
            if !ready_now {
                assert(own@.len() == 0 && fs@.len() == 0);
            }
            lemma_deep_view_index(own);
        }
        if own.len() == 0 && fs.len() == 0 {
            return;
        }
        let ghost own0 = own.deep_view();
        let ghost k: int = 0;
        while own.len() > 0
            invariant
                0 <= k,
                own0.len() == k + own@.len(),
                own.deep_view() == own0.skip(k),
                step.messages@.len() == old(step).messages@.len() + k,
                forall|i: int|
                    0 <= i < old(step).messages@.len() ==> step.messages@[i] == old(
                        step,
                    ).messages@[i],
                forall|j: int|
                    0 <= j < k ==> {
                        let m = #[trigger] step.messages@[old(step).messages@.len() + j];
                        &&& m.epoch == self.epoch
                        &&& match m.content {
                            MessageContent::DecryptionShare { proposer, share } => proposer
                                == own0[j].0 && share@ == own0[j].1,
                            _ => false,
                        }
                    },
                step.outputs == old(step).outputs,
                step.faults == old(step).faults,
                step.finalized == old(step).finalized,
            decreases own@.len(),
        {
            proof {
                lemma_deep_view_index(own);
            }
            let ghost own_pre = own;
            let qm = own.remove(0);
            proof {
                assert(qm == own_pre@[0]);
                assert(own_pre.deep_view()[0] == own0[k]);
            }
            step.messages.push(
                Message {
                    epoch: self.epoch,
                    content: MessageContent::DecryptionShare { proposer: qm.0, share: qm.1 },
                },
            );
            proof {
                lemma_deep_view_index(own);
                lemma_bytes_deep_view(qm.1);
                assert(own@ =~= own_pre@.subrange(1, own_pre@.len() as int));
                assert forall|j: int| 0 <= j < own.deep_view().len() implies own.deep_view()[j]
                    == own0.skip(k + 1)[j] by {
                    assert(own@[j] == own_pre@[j + 1]);
                    assert(own.deep_view()[j] == own@[j].deep_view());
                    assert(own_pre.deep_view()[j + 1] == own_pre@[j + 1].deep_view());
                    assert(own_pre.deep_view()[j + 1] == own0[k + 1 + j]);
                }
                assert(own.deep_view() =~= own0.skip(k + 1));
                k = k + 1;
            }
        }
        let ghost msgs_mid = step.messages;
        let ghost fs0 = fs@;
        let ghost k2: int = 0;
        while fs.len() > 0
            invariant
                0 <= k2,
                fs0.len() == k2 + fs@.len(),
                fs@ == fs0.skip(k2),
                step.faults@ == old(step).faults@ + fs0.take(k2),
                forall|i: int|
                    0 <= i < fs0.len() ==> (#[trigger] fs0[i]).kind
                        == FaultKind::InvalidDecryptionShare && fs0[i].sender
                        < self.state.num_nodes,
                step.outputs == old(step).outputs,
                step.finalized == old(step).finalized,
                step.messages == msgs_mid,
            decreases fs@.len(),
        {
            let ghost fs_pre = fs@;
            let f = fs.remove(0);
            step.faults.push(f);
            proof {
                assert(f == fs0[k2]);
                assert(fs@ =~= fs0.skip(k2 + 1));
                assert(fs0.take(k2 + 1).drop_last() =~= fs0.take(k2));
                assert(step.faults@ =~= old(step).faults@ + fs0.take(k2 + 1));
                k2 = k2 + 1;
            }
        }
        proof {
            assert(fs0.take(k2) =~= fs0);
        }
    }

    /// Removes and returns the queued messages addressed to epoch `e`,
    /// keeping the rest in order.
    fn take_queued(&mut self, e: u64) -> (r: Vec<QueuedMessage>)
        ensures
            r@ == epoch_filter(old(self).incoming_queue@, e),
            final(self).incoming_queue@ == epoch_reject(old(self).incoming_queue@, e),
            final(self).netinfo == old(self).netinfo,
            final(self).max_future_epochs == old(self).max_future_epochs,
            final(self).epoch == old(self).epoch,
            final(self).has_input == old(self).has_input,
            final(self).state == old(self).state,
    {
        let ghost q0 = self.incoming_queue@;
        let mut matched: Vec<QueuedMessage> = Vec::new();
        let mut rest: Vec<QueuedMessage> = Vec::new();
        let ghost mut k: int = 0;
        while self.incoming_queue.len() > 0
            invariant
                0 <= k <= q0.len(),
                self.incoming_queue@ == q0.skip(k),
                matched@ == epoch_filter(q0.take(k), e),
                rest@ == epoch_reject(q0.take(k), e),
                self.netinfo == old(self).netinfo,
                self.max_future_epochs == old(self).max_future_epochs,
                self.epoch == old(self).epoch,
                self.has_input == old(self).has_input,
                self.state == old(self).state,
            decreases self.incoming_queue@.len(),
        {
            let qm = self.incoming_queue.remove(0);
            proof {
                assert(qm == q0[k]);
                assert(self.incoming_queue@ =~= q0.skip(k + 1));
                assert(q0.take(k + 1).drop_last() =~= q0.take(k));
                assert(q0.take(k + 1).last() == q0[k]);
            }
            if qm.epoch == e {
                matched.push(qm);
            } else {
                rest.push(qm);
            }
            proof {
                assert(matched@ =~= epoch_filter(q0.take(k + 1), e));
                assert(rest@ =~= epoch_reject(q0.take(k + 1), e));
                k = k + 1;
            }
        }
        proof {
            assert(q0.take(k) =~= q0);
        }
        self.incoming_queue = rest;
        matched
    }

    /// Finalizes epochs for as long as the current one is complete: emits
    /// its batch, purges all its state, advances the epoch, resets the
    /// input flag, and replays the messages buffered for the new epoch —
    /// which may complete it in turn.  The loop keeps the cascade's stack
    /// depth constant under adversarial buffering.
    fn drive(&mut self, step: &mut Step)
        requires
            old(self).wf(),
            old(step).finalized@.len() == old(step).outputs@.len(),
        ensures
            final(self).wf(),
            final(self).netinfo == old(self).netinfo,
            final(self).max_future_epochs == old(self).max_future_epochs,
            final(self).epoch >= old(self).epoch,
            !final(self).state.batch_ready() || final(self).epoch == u64::MAX,
            final(self).epoch > old(self).epoch ==> !final(self).has_input,
            final(self).epoch == old(self).epoch ==> *final(self) == *old(self) && *final(step)
                == *old(step),
            final(step).finalized@.len() == final(step).outputs@.len(),
            forall|i: int|
                0 <= i < old(step).finalized@.len() ==> final(step).finalized@[i] == old(
                    step,
                ).finalized@[i],
            forall|j: int|
                old(step).outputs@.len() <= j < final(step).outputs@.len() ==> (#[trigger] final(step).finalized@[j]).wf() && final(step).finalized@[j].batch_ready()
                    && final(step).finalized@[j].num_nodes == old(self).netinfo.num_nodes
                    && final(step).finalized@[j].num_faulty == old(self).netinfo.num_faulty
                    && final(step).outputs@[j].contributions.deep_view()
                    == final(step).finalized@[j].batch_view(),
            final(self).epoch > old(self).epoch ==> final(step).finalized@[old(
                step,
            ).outputs@.len() as int] == old(self).state && old(self).state.batch_ready(),
            final(self).epoch > old(self).epoch ==> replayed_from_fresh(
                old(self).netinfo.num_nodes,
                epoch_filter(old(self).incoming_queue@, final(self).epoch),
                final(self).state,
            ),
            forall|j: int|
                old(step).outputs@.len() < j < final(step).outputs@.len() ==> replayed_from_fresh(
                    old(self).netinfo.num_nodes,
                    epoch_filter(
                        old(self).incoming_queue@,
                        (old(self).epoch + (j - old(step).outputs@.len())) as u64,
                    ),
                    #[trigger] final(step).finalized@[j],
                ),
            final(step).outputs@.len() == old(step).outputs@.len() + final(self).epoch - old(
                self,
            ).epoch,
            forall|i: int|
                0 <= i < old(step).outputs@.len() ==> final(step).outputs@[i] == old(
                    step,
                ).outputs@[i],
            forall|j: int|
                old(step).outputs@.len() <= j < final(step).outputs@.len() ==> (#[trigger] final(step).outputs@[j]).epoch == old(self).epoch + (j - old(step).outputs@.len())
                    && proposers_increasing(final(step).outputs@[j].contributions.deep_view()),
            old(step).messages@.len() <= final(step).messages@.len(),
            forall|i: int|
                0 <= i < old(step).messages@.len() ==> final(step).messages@[i] == old(
                    step,
                ).messages@[i],
            old(step).faults@.len() <= final(step).faults@.len(),
            forall|i: int|
                0 <= i < old(step).faults@.len() ==> final(step).faults@[i] == old(
                    step,
                ).faults@[i],
    {
        while self.epoch < u64::MAX && self.state.is_batch_ready()
            invariant
                self.wf(),
                self.netinfo == old(self).netinfo,
                self.max_future_epochs == old(self).max_future_epochs,
                self.epoch >= old(self).epoch,
                self.epoch > old(self).epoch ==> !self.has_input,
                self.epoch == old(self).epoch ==> *self == *old(self) && *step == *old(step),
                old(step).finalized@.len() == old(step).outputs@.len(),
                step.finalized@.len() == step.outputs@.len(),
                forall|i: int|
                    0 <= i < old(step).finalized@.len() ==> step.finalized@[i] == old(
                        step,
                    ).finalized@[i],
                forall|j: int|
                    old(step).outputs@.len() <= j < step.outputs@.len() ==> (
                    #[trigger] step.finalized@[j]).wf() && step.finalized@[j].batch_ready()
                        && step.finalized@[j].num_nodes == old(self).netinfo.num_nodes
                        && step.finalized@[j].num_faulty == old(self).netinfo.num_faulty
                        && step.outputs@[j].contributions.deep_view()
                        == step.finalized@[j].batch_view(),
                self.epoch > old(self).epoch ==> step.finalized@[old(step).outputs@.len() as int]
                    == old(self).state && old(self).state.batch_ready(),
                forall|e2: u64|
                    e2 > self.epoch ==> #[trigger] epoch_filter(self.incoming_queue@, e2)
                        == epoch_filter(old(self).incoming_queue@, e2),
                self.epoch > old(self).epoch ==> replayed_from_fresh(
                    old(self).netinfo.num_nodes,
                    epoch_filter(old(self).incoming_queue@, self.epoch),
                    self.state,
                ),
                forall|j: int|
                    old(step).outputs@.len() < j < step.outputs@.len() ==> replayed_from_fresh(
                        old(self).netinfo.num_nodes,
                        epoch_filter(
                            old(self).incoming_queue@,
                            (old(self).epoch + (j - old(step).outputs@.len())) as u64,
                        ),
                        #[trigger] step.finalized@[j],
                    ),
                step.outputs@.len() == old(step).outputs@.len() + self.epoch - old(self).epoch,
                forall|i: int|
                    0 <= i < old(step).outputs@.len() ==> step.outputs@[i] == old(
                        step,
                    ).outputs@[i],
                forall|j: int|
                    old(step).outputs@.len() <= j < step.outputs@.len() ==> (
                    #[trigger] step.outputs@[j]).epoch == old(self).epoch + (j - old(
                        step,
                    ).outputs@.len()) && proposers_increasing(
                        step.outputs@[j].contributions.deep_view(),
                    ),
                old(step).messages@.len() <= step.messages@.len(),
                forall|i: int|
                    0 <= i < old(step).messages@.len() ==> step.messages@[i] == old(
                        step,
                    ).messages@[i],
                old(step).faults@.len() <= step.faults@.len(),
                forall|i: int|
                    0 <= i < old(step).faults@.len() ==> step.faults@[i] == old(step).faults@[i],
            decreases u64::MAX - self.epoch,
        {
            // Assemble and emit the finalized batch.
            let contributions = self.state.batch_contributions();
            proof {
                lemma_pairs_increasing(
                    self.state.decrypted_view(),
                    self.state.num_nodes as int,
                );
            }
            step.outputs.push(Batch { epoch: self.epoch, contributions });
            proof {
                step.finalized@ = step.finalized@.push(self.state);
            }
            // Purge all state of the finalized epoch and advance.
            self.state = EpochState::new(
                self.netinfo.num_nodes(),
                self.netinfo.num_faulty(),
                self.netinfo.our_id(),
            );
            self.epoch = self.epoch + 1;
            self.has_input = false;
            // Replay the messages buffered for the new current epoch.
            let ghost replay_start = self.state;
            let ghost q_pre = self.incoming_queue@;
            let mut replay = self.take_queued(self.epoch);
            let ghost q_rest = self.incoming_queue@;
            let ghost replay_full = replay@;
            let ghost processed: Seq<QueuedMessage> = Seq::empty();
            proof {
                assert(replay_full == epoch_filter(old(self).incoming_queue@, self.epoch));
                lemma_reject_entries(
                    q_pre,
                    self.epoch,
                    self.epoch - 1,
                    self.epoch - 1 + self.max_future_epochs,
                    self.netinfo.num_nodes,
                );
                lemma_filter_entries(
                    q_pre,
                    self.epoch,
                    self.epoch - 1,
                    self.epoch - 1 + self.max_future_epochs,
                    self.netinfo.num_nodes,
                );
            }
            let ghost e_now = self.epoch;
            while replay.len() > 0
                invariant
                    self.wf(),
                    self.netinfo == old(self).netinfo,
                    self.max_future_epochs == old(self).max_future_epochs,
                    self.epoch == e_now,
                    self.epoch > old(self).epoch,
                    !self.has_input,
                    forall|i: int|
                        0 <= i < replay@.len() ==> (#[trigger] replay@[i]).sender
                            < self.netinfo.num_nodes,
                    self.incoming_queue@ == q_rest,
                    replay_start.num_nodes == old(self).netinfo.num_nodes,
                    replay_start.fresh(),
                    replay_transition(replay_start, processed, self.state),
                    processed + replay@ == replay_full,
                    forall|j: int|
                        old(step).outputs@.len() < j < step.outputs@.len() ==> replayed_from_fresh(
                            old(self).netinfo.num_nodes,
                            epoch_filter(
                                old(self).incoming_queue@,
                                (old(self).epoch + (j - old(step).outputs@.len())) as u64,
                            ),
                            #[trigger] step.finalized@[j],
                        ),
                    old(step).finalized@.len() == old(step).outputs@.len(),
                    step.finalized@.len() == step.outputs@.len(),
                    forall|i: int|
                        0 <= i < old(step).finalized@.len() ==> step.finalized@[i] == old(
                            step,
                        ).finalized@[i],
                    forall|j: int|
                        old(step).outputs@.len() <= j < step.outputs@.len() ==> (
                        #[trigger] step.finalized@[j]).wf() && step.finalized@[j].batch_ready()
                            && step.finalized@[j].num_nodes == old(self).netinfo.num_nodes
                            && step.finalized@[j].num_faulty == old(self).netinfo.num_faulty
                            && step.outputs@[j].contributions.deep_view()
                            == step.finalized@[j].batch_view(),
                    step.finalized@[old(step).outputs@.len() as int] == old(self).state,
                    old(self).state.batch_ready(),
                    step.outputs@.len() == old(step).outputs@.len() + self.epoch - old(
                        self,
                    ).epoch,
                    forall|i: int|
                        0 <= i < old(step).outputs@.len() ==> step.outputs@[i] == old(
                            step,
                        ).outputs@[i],
                    forall|j: int|
                        old(step).outputs@.len() <= j < step.outputs@.len() ==> (
                        #[trigger] step.outputs@[j]).epoch == old(self).epoch + (j - old(
                            step,
                        ).outputs@.len()) && proposers_increasing(
                            step.outputs@[j].contributions.deep_view(),
                        ),
                    old(step).messages@.len() <= step.messages@.len(),
                    forall|i: int|
                        0 <= i < old(step).messages@.len() ==> step.messages@[i] == old(
                            step,
                        ).messages@[i],
                    old(step).faults@.len() <= step.faults@.len(),
                    forall|i: int|
                        0 <= i < old(step).faults@.len() ==> step.faults@[i] == old(
                            step,
                        ).faults@[i],
                decreases replay@.len(),
            {
                let ghost replay_pre = replay@;
                let ghost state_pre = self.state;
                let qm = replay.remove(0);
                self.route_current(qm.sender, qm.content, step);
                proof {
                    let m2 = processed.push(qm);
                    assert(m2.drop_last() =~= processed);
                    assert(m2.last() == qm);
                    assert(subset_transition(state_pre, self.state, qm.sender, qm.content));
                    assert(replay_transition(replay_start, m2, self.state));
                    processed = m2;
                    assert(qm == replay_pre[0]);
                    assert(processed + replay@ =~= replay_full);
                }
            }
            proof {
                assert(processed =~= replay_full);
                assert(replayed_from_fresh(
                    old(self).netinfo.num_nodes,
                    epoch_filter(old(self).incoming_queue@, self.epoch),
                    self.state,
                ));
                assert forall|e2: u64| e2 > self.epoch implies #[trigger] epoch_filter(
                    self.incoming_queue@,
                    e2,
                ) == epoch_filter(old(self).incoming_queue@, e2) by {
                    lemma_filter_after_reject(q_pre, e_now, e2);
                    assert(epoch_filter(q_pre, e2) == epoch_filter(old(self).incoming_queue@, e2));
                }
            }
        }
    }
}

} // verus!
