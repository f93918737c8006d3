//! A deterministic, in-process simulator of a small network of blockchains:
//! one relay chain and a set of parachains that exchange asynchronous
//! cross-chain messages over three channel kinds (downward, upward,
//! horizontal).
//!
//! The library owns the message-passing layer only: per-chain inboxes, the
//! topology with its routing rules, sequence stamping, and a fixed-point
//! dispatcher that drains all queues in a deterministic order.  What a
//! message *means* is the business of an executor collaborator: the
//! dispatcher hands each chain its pending inbound batch and enqueues
//! whatever the executor emits in response, re-validating every route.
//!
//! Every queue operation and the whole drain loop are specified against a
//! mathematical view of the network, so delivery order, routing checks and
//! convergence behaviour are proved, not just tested.

pub mod dispatch;
pub mod executor;
pub mod laws;
pub mod network;
pub mod seq_util;
pub mod sequencing;
pub mod topology;
pub mod types;
