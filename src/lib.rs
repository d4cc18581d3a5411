//! A small peer-to-peer ledger node: the ledger model, proof-of-work sealing,
//! the miner's scheduling policy and the decisions of the synchronisation
//! bridge, each with its contract.
pub mod hashing;
pub mod transaction;
pub mod codec;
pub mod block;
pub mod blockchain;
pub mod actions;
pub mod miner;
pub mod network;
pub mod errors;
