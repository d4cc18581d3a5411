//! The decisions of the synchronisation bridge, which stands between the
//! miner, the block store and the peers. The bridge's loop performs what
//! these functions decide: it writes to the store, publishes, and hands
//! events to the miner.
use vstd::prelude::*;
use crate::actions::{BlockSyncMeta, Command, Event, GossipsubEvent};
use crate::block::Block;
use crate::blockchain::{extends, is_linked};
use crate::codec::{
    block_bytes, decode_message, encode_block, encode_message, message_bytes, same_block,
};

verus! {

/// The two topics that peers publish on.
#[derive(PartialEq, Eq, Structural, Clone, Copy, Debug)]
pub enum Topic {
    Block,
    Transaction,
}

pub open spec fn topic_name(t: Topic) -> Seq<char> {
    match t {
        Topic::Block => "BLOCK"@,
        Topic::Transaction => "TRANSACTION"@,
    }
}

impl Topic {
    /// The name that the topic has on the bus.
    pub fn name(&self) -> (r: String)
        ensures
            r@ == topic_name(*self),
    {
        match self {
            Topic::Block => String::from_str("BLOCK"),
            Topic::Transaction => String::from_str("TRANSACTION"),
        }
    }
}

/// A record to write to the block store.
pub struct StoreWrite {
    pub key: i32,
    pub bytes: Vec<u8>,
}

/// A payload to publish on a topic.
pub struct Publication {
    pub topic: Topic,
    pub payload: Vec<u8>,
}

/// What the bridge does with a command of the miner: first the write, when
/// there is one, then the publication, which is made only when the write
/// succeeded.
pub struct Outgoing {
    pub write: Option<StoreWrite>,
    pub publication: Publication,
}

/// The bridge's response to a command of the miner: a sealed block is
/// written under its key and then announced on the block topic; a
/// transaction is announced on the transaction topic.
pub fn handle_command(command: Command) -> (r: Outgoing)
    ensures
        match command {
            Command::AddBlock(meta) => {
                &&& r.write matches Some(w) && w.key == meta.key && w.bytes@ == block_bytes(meta.block)
                &&& r.publication.topic == Topic::Block
                &&& r.publication.payload@ == message_bytes(GossipsubEvent::SyncNetworkBlock(meta))
            },
            Command::SendTransaction(meta) => {
                &&& r.write is None
                &&& r.publication.topic == Topic::Transaction
                &&& r.publication.payload@ == message_bytes(
                    GossipsubEvent::SendNetworkTransaction(meta),
                )
            },
        },
{
    match command {
        Command::AddBlock(meta) => {
            let write = StoreWrite { key: meta.key, bytes: encode_block(&meta.block) };
            let message = GossipsubEvent::SyncNetworkBlock(meta);
            let payload = encode_message(&message);
            Outgoing { write: Some(write), publication: Publication { topic: Topic::Block, payload } }
        },
        Command::SendTransaction(meta) => {
            let message = GossipsubEvent::SendNetworkTransaction(meta);
            let payload = encode_message(&message);
            Outgoing { write: None, publication: Publication { topic: Topic::Transaction, payload } }
        },
    }
}

/// What a message from a peer asks of the bridge.
pub enum Inbound {
    /// The bytes are no message: log them and drop them.
    Malformed,
    /// A block: look its key up in the store, then see `handle_block_sync`.
    Block(BlockSyncMeta),
    /// Hand this event to the miner as it is.
    Deliver(Event),
}

/// Decodes a message from a peer and says what it asks for, field for field
/// the message that the bytes encode.
pub fn handle_gossipsub_message(data: &[u8]) -> (r: Inbound)
    ensures
        r is Malformed <==> forall|m: GossipsubEvent| data@ != #[trigger] message_bytes(m),
        r matches Inbound::Block(meta) ==> data@ == message_bytes(
            GossipsubEvent::SyncNetworkBlock(meta),
        ),
        r matches Inbound::Deliver(e) ==> (e matches Event::SendTransaction(meta) && data@
            == message_bytes(GossipsubEvent::SendNetworkTransaction(meta))),
        forall|m: GossipsubEvent|
            data@ == #[trigger] message_bytes(m) ==> match m {
                GossipsubEvent::SyncNetworkBlock(x) => (r matches Inbound::Block(y) && y.key == x.key
                    && same_block(y.block, x.block)),
                GossipsubEvent::SendNetworkTransaction(x) => (r matches Inbound::Deliver(
                    Event::SendTransaction(y),
                ) && y.from@ == x.from@ && y.to@ == x.to@ && y.amount == x.amount),
            },
{
    match decode_message(data) {
        None => Inbound::Malformed,
        Some(GossipsubEvent::SyncNetworkBlock(meta)) => Inbound::Block(meta),
        Some(GossipsubEvent::SendNetworkTransaction(meta)) => Inbound::Deliver(
            Event::SendTransaction(meta),
        ),
    }
}

/// What the bridge does with a block from a peer once it has looked up the
/// block's key in the store.
pub enum SyncDecision {
    /// The store already holds a block under that key: nothing to do.
    Duplicate,
    /// Write the block under its key, then hand the event to the miner.
    Accept { write: StoreWrite, event: Event },
}

/// `d` is the bridge's decision on the block message `meta` when the store
/// does (`stored`) or does not hold a block under its key.
pub open spec fn sync_decided(meta: BlockSyncMeta, stored: bool, d: SyncDecision) -> bool {
    if stored {
        d is Duplicate
    } else {
        d matches SyncDecision::Accept { write, event } && write.key == meta.key && write.bytes@
            == block_bytes(meta.block) && event == Event::SyncBlock(meta)
    }
}

/// The store's existence check is the only de-duplication: a block whose key
/// the store holds is dropped; any other is written and handed to the miner.
pub fn handle_block_sync(meta: BlockSyncMeta, stored: bool) -> (r: SyncDecision)
    ensures
        sync_decided(meta, stored, r),
{
    if stored {
        SyncDecision::Duplicate
    } else {
        let write = StoreWrite { key: meta.key, bytes: encode_block(&meta.block) };
        SyncDecision::Accept { write, event: Event::SyncBlock(meta) }
    }
}

/// The store after the bridge carried out `d`.
pub open spec fn store_after(store: Map<i32, Seq<u8>>, d: SyncDecision) -> Map<i32, Seq<u8>> {
    match d {
        SyncDecision::Duplicate => store,
        SyncDecision::Accept { write, .. } => store.insert(write.key, write.bytes@),
    }
}

/// The number of store writes, and of events for the miner, that `d` makes.
pub open spec fn writes_of(d: SyncDecision) -> nat {
    match d {
        SyncDecision::Duplicate => 0,
        SyncDecision::Accept { .. } => 1,
    }
}

/// De-duplication is idempotent: when the same block message is delivered
/// twice, the second delivery is a duplicate, and the two together write to
/// the store (and hand an event to the miner) once when the key was new, and
/// never when it was known.
pub proof fn lemma_block_sync_idempotent(
    store: Map<i32, Seq<u8>>,
    meta: BlockSyncMeta,
    first: SyncDecision,
    second: SyncDecision,
)
    requires
        sync_decided(meta, store.contains_key(meta.key), first),
        sync_decided(meta, store_after(store, first).contains_key(meta.key), second),
    ensures
        second is Duplicate,
        store_after(store_after(store, first), second) == store_after(store, first),
        writes_of(first) + writes_of(second) == (if store.contains_key(meta.key) {
            0nat
        } else {
            1nat
        }),
{
}

/// A block that was appended to a ledger does not extend the result: the
/// miner appends a block handed over twice only once.
pub proof fn lemma_block_applies_once(blocks: Seq<Block>, b: Block)
    requires
        is_linked(blocks),
        extends(blocks, b),
    ensures
        !extends(blocks.push(b), b),
{
    assert(blocks.push(b).last() == b);
}

} // verus!
