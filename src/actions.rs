//! The messages that pass between the miner, the synchronisation bridge and
//! the peers.
use vstd::prelude::*;
use crate::block::Block;
use crate::transaction::Transaction;

verus! {

/// A block together with the store key (its index) it is kept under.
pub struct BlockSyncMeta {
    pub key: i32,
    pub block: Block,
}

/// A transaction as peers announce it.
pub struct SendTransactionMeta {
    pub from: String,
    pub to: String,
    pub amount: u64,
}

/// What the miner asks of the bridge.
pub enum Command {
    /// Store a newly sealed block and announce it to the peers.
    AddBlock(BlockSyncMeta),
    /// Announce a transaction to the peers.
    SendTransaction(SendTransactionMeta),
}

/// What the bridge hands to the miner.
pub enum Event {
    /// A block that a peer announced and that the store did not hold.
    SyncBlock(BlockSyncMeta),
    /// A transaction that a peer announced.
    SendTransaction(SendTransactionMeta),
}

/// What peers send each other.
pub enum GossipsubEvent {
    SyncNetworkBlock(BlockSyncMeta),
    SendNetworkTransaction(SendTransactionMeta),
}

impl From<SendTransactionMeta> for Transaction {
    fn from(value: SendTransactionMeta) -> (r: Transaction)
        ensures
            r.from == value.from,
            r.to == value.to,
            r.amount == value.amount,
    {
        Transaction { from: value.from, to: value.to, amount: value.amount }
    }
}

impl vstd::std_specs::convert::FromSpecImpl<SendTransactionMeta> for Transaction {
    open spec fn obeys_from_spec() -> bool {
        true
    }

    open spec fn from_spec(v: SendTransactionMeta) -> Transaction {
        Transaction { from: v.from, to: v.to, amount: v.amount }
    }
}

} // verus!
