//! Core of a shared transaction mempool for a permissioned blockchain.
//!
//! The library buffers signed transactions keyed by (sender, sequence),
//! orders them for consensus consumption through a monotonic timeline,
//! and drives per-peer broadcast scheduling with retries and backoff.
//! Wire transport, durable storage, and transaction validation are
//! consumed as external capabilities: their results enter the library
//! as plain values, and every decision taken on those values is verified.

pub mod account_address;
pub mod account_state;
pub mod batch_id;
pub mod canonical;
pub mod core_mempool;
pub mod peer_manager;
pub mod status;
pub mod tasks;
pub mod transaction;
