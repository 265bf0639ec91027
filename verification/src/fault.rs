//! Fault and error reporting: protocol faults attributable to a sender, and
//! local usage errors reported to the caller.

use vstd::prelude::*;

verus! {

/// The kind of a protocol fault attributable to one sender.  Faults are
/// reported for upstream accountability and never halt epoch progress.
#[derive(Clone, Copy, PartialEq, Eq, Structural, Debug)]
pub enum FaultKind {
    /// The sender identity is not a member of the network.
    UnknownSender,
    /// The message's epoch exceeds the lookahead window
    /// `current .. current + max_future_epochs`.
    EpochBeyondWindow,
    /// A proposer identity inside the message is not a member of the network.
    InvalidProposer,
    /// A decryption share failed verification against the recorded ciphertext.
    InvalidDecryptionShare,
}

/// A protocol fault: which sender misbehaved, and how.
#[derive(Clone, Copy, PartialEq, Eq, Structural, Debug)]
pub struct Fault {
    /// The offending sender.
    pub sender: usize,
    /// What the sender did.
    pub kind: FaultKind,
}

/// A local usage error, reported to the caller with the driver's state
/// unchanged.
#[derive(Clone, Copy, PartialEq, Eq, Structural, Debug)]
pub enum Error {
    /// `propose` was called a second time in the same epoch.
    AlreadyProposed,
}

} // verus!
