//! An append-only, tamper-evident ledger of signed value transfers.
//!
//! Blocks batch signed transactions and are sealed by a proof-of-work
//! search; the chain links each block to its predecessor by hash, and
//! validation replays the whole chain to detect any retroactive edit.
//! Balances are derived by replaying the ledger, and the persisted
//! text of a chain reads back field for field.

pub mod block;
pub mod blockchain;
pub mod codec;
pub mod crypto;
pub mod hexcode;
pub mod transaction;
pub mod wallet;
pub mod wire;
