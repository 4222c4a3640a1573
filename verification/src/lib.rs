//! Durable log storage for a Raft-style replicated state machine.
//!
//! The crate keeps the replicated log, the node's current vote, the commit
//! marker and the latest snapshot in an ordered, crash-safe key-value
//! substrate (sled). Every operation of the storage layer is specified by a
//! contract over a mathematical view of the store, and the contracts are
//! machine-checked.

pub mod types;
pub mod codec;
pub mod kv;
pub mod store;
pub mod reader;
