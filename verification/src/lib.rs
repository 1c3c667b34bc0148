//! Ledger engine for a fungible-token protocol carried on base-chain
//! transactions: decoding of marker payloads, checked amount arithmetic,
//! an in-memory transactional ledger store with undo, and the per-block
//! state-transition updater.

pub mod ledger;
pub mod lot;
pub mod runestone;
pub mod settings;
pub mod transaction;
pub mod updater;
pub mod varint;
