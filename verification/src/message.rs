//! The message envelope exchanged between nodes, tagged by epoch and routed
//! by the driver.

use vstd::prelude::*;

verus! {

/// A message of one epoch's common-subset layer.
///
/// The reliable-broadcast and binary-agreement primitives are external
/// collaborators; what this core consumes are their terminal outcomes.
#[derive(Clone, Debug)]
pub enum SubsetMessage {
    /// The sending node's reliable broadcast of its own ciphertext for the
    /// epoch.  The envelope sender is the proposer.
    Echo { ciphertext: Vec<u8> },
    /// The binary-agreement outcome for one proposer: whether its broadcast
    /// belongs to the epoch's subset.
    Decided { proposer: usize, accept: bool },
}

/// The payload of a message, dispatched by one routing function.
#[derive(Clone, Debug)]
pub enum MessageContent {
    /// A message of the epoch's common-subset layer.
    Subset(SubsetMessage),
    /// The sender's decryption share for one proposer's ciphertext.
    DecryptionShare { proposer: usize, share: Vec<u8> },
}

/// A full envelope: the epoch the payload belongs to, and the payload.
#[derive(Clone, Debug)]
pub struct Message {
    /// The epoch the payload is addressed to.
    pub epoch: u64,
    /// The payload.
    pub content: MessageContent,
}

} // verus!
