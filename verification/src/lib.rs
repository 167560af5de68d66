//! Core logic of a light wallet for the Neptune Cash network: input
//! selection, key-index bookkeeping, recovery-data filtering, spending
//! decisions and the block-synchronisation state machine.
//!
//! The chain-specific cryptography (hashing, key derivation, address
//! encoding) is done by the caller; this crate works on the plain values
//! that those computations produce.
pub mod types;
pub mod selection;
pub mod recovery;
pub mod import;
pub mod keys;
pub mod spend;
pub mod sync;
pub mod block;
pub mod rpc;
pub mod commands;
pub mod key_cache;
