//! Epoch-pipelined core of an asynchronous Byzantine-fault-tolerant atomic
//! broadcast engine.
//!
//! A set of `n = 3f + 1` mutually distrusting nodes repeatedly agrees on a
//! batch of contributions per epoch despite up to `f` faulty nodes.  This
//! crate holds the per-epoch driver: message routing by epoch and sender,
//! common-subset output handling, decryption-share aggregation with threshold
//! reconstruction at a quorum of `f + 1` shares, and epoch advancement with
//! pruning and replay of buffered messages.
//!
//! The reliable-broadcast and binary-agreement sub-protocols, the threshold
//! cryptosystem and the network transport are external collaborators: the
//! driver consumes their terminal outcomes as messages and treats ciphertext,
//! share and plaintext bytes as opaque values.

pub mod util;
pub mod builder;
pub mod driver;
pub mod fault;
pub mod message;
pub mod netinfo;
pub mod state;
pub mod subset;
