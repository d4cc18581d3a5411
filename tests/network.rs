use std::collections::HashMap;

use ledger_node::actions::{BlockSyncMeta, Command, Event, GossipsubEvent, SendTransactionMeta};
use ledger_node::block::Block;
use ledger_node::blockchain::Blockchain;
use ledger_node::codec::{decode_message, encode_block, encode_message, put_text, put_u32, put_u64};
use ledger_node::miner::Miner;
use ledger_node::network::{
    handle_block_sync, handle_command, handle_gossipsub_message, Inbound, SyncDecision, Topic,
};

/// A fixed clock for sealing.
fn clock() -> i64 {
    1_700_000_000
}

fn sealed(prev: &Block) -> Block {
    Block::new(prev.hash.clone(), prev.index, vec![], 1, &clock).unwrap()
}

/// Carries out a decision against an in-memory store; returns the number of
/// writes made and the event for the miner, if any.
fn apply(store: &mut HashMap<i32, Vec<u8>>, d: SyncDecision) -> (usize, Option<Event>) {
    match d {
        SyncDecision::Duplicate => (0, None),
        SyncDecision::Accept { write, event } => {
            store.insert(write.key, write.bytes);
            (1, Some(event))
        }
    }
}

fn deliver(store: &mut HashMap<i32, Vec<u8>>, miner: &mut Miner, bytes: &[u8]) -> usize {
    match handle_gossipsub_message(bytes) {
        Inbound::Block(meta) => {
            let stored = store.contains_key(&meta.key);
            let (writes, event) = apply(store, handle_block_sync(meta, stored));
            if let Some(e) = event {
                miner.handle_event(e);
            }
            writes
        }
        _ => panic!("expected a block"),
    }
}

#[test]
fn duplicate_block_sync_is_idempotent() {
    let mut miner = Miner::new(Blockchain::new(None, clock()).unwrap());
    miner.blockchain.difficulty = 1;
    let b1 = sealed(&miner.blockchain.blocks[0]);
    let msg = encode_message(&GossipsubEvent::SyncNetworkBlock(BlockSyncMeta { key: 1, block: b1 }));
    let mut store: HashMap<i32, Vec<u8>> = HashMap::new();
    let first = deliver(&mut store, &mut miner, &msg);
    let second = deliver(&mut store, &mut miner, &msg);
    assert_eq!(first + second, 1);
    assert_eq!(store.len(), 1);
    assert_eq!(miner.blockchain.blocks.len(), 2);
}

#[test]
fn known_key_is_dropped() {
    let b = Block::new(String::new(), 0, vec![], 1, &clock).unwrap();
    let d = handle_block_sync(BlockSyncMeta { key: 1, block: b.clone() }, true);
    assert!(matches!(d, SyncDecision::Duplicate));
    match handle_block_sync(BlockSyncMeta { key: 1, block: b.clone() }, false) {
        SyncDecision::Accept { write, event } => {
            assert_eq!(write.key, 1);
            assert_eq!(write.bytes, encode_block(&b));
            assert!(matches!(event, Event::SyncBlock(m) if m.key == 1));
        }
        SyncDecision::Duplicate => panic!("expected acceptance"),
    }
}

#[test]
fn concurrent_seal_and_remote_copies_of_one_index() {
    let mut miner = Miner::new(Blockchain::new(None, clock()).unwrap());
    miner.blockchain.difficulty = 1;
    for _ in 0..6 {
        assert!(miner.process_new_block(&clock).is_some());
    }
    let tip = miner.blockchain.blocks[6].clone();
    // a peer seals its own block 7 on the same tip
    let remote = Block::new(tip.hash.clone(), tip.index, vec![], 2, &clock).unwrap();
    let remote_msg = encode_message(&GossipsubEvent::SyncNetworkBlock(BlockSyncMeta { key: 7, block: remote }));
    // the local miner seals block 7; its command has not reached the bridge yet
    let local_cmd = miner.process_new_block(&clock).unwrap();
    let local_block = miner.blockchain.blocks[7].clone();

    let mut store: HashMap<i32, Vec<u8>> = HashMap::new();
    let mut writes = 0;
    writes += deliver(&mut store, &mut miner, &remote_msg);
    let out = handle_command(local_cmd);
    let w = out.write.unwrap();
    store.insert(w.key, w.bytes);
    writes += 1;
    writes += deliver(&mut store, &mut miner, &remote_msg);

    assert_eq!(writes, 2);
    assert_eq!(store.len(), 1);
    assert_eq!(store[&7], encode_block(&local_block));
    let at_seven = miner.blockchain.blocks.iter().filter(|b| b.index == 7).count();
    assert_eq!(at_seven, 1);
    assert_eq!(miner.blockchain.blocks.len(), 8);
}

#[test]
fn commands_become_writes_and_publications() {
    let b = Block::new(String::new(), 0, vec![], 1, &clock).unwrap();
    let out = handle_command(Command::AddBlock(BlockSyncMeta { key: 1, block: b.clone() }));
    let w = out.write.unwrap();
    assert_eq!(w.key, 1);
    assert_eq!(w.bytes, encode_block(&b));
    assert_eq!(out.publication.topic, Topic::Block);
    assert_eq!(out.publication.topic.name(), "BLOCK");
    match decode_message(&out.publication.payload).unwrap() {
        GossipsubEvent::SyncNetworkBlock(m) => {
            assert_eq!(m.key, 1);
            assert_eq!(m.block.hash, b.hash);
        }
        GossipsubEvent::SendNetworkTransaction(_) => panic!("expected a block"),
    }
    let meta = SendTransactionMeta { from: "a".to_string(), to: "b".to_string(), amount: 4 };
    let out = handle_command(Command::SendTransaction(meta));
    assert!(out.write.is_none());
    assert_eq!(out.publication.topic.name(), "TRANSACTION");
}

#[test]
fn transaction_messages_go_to_the_miner() {
    let meta = SendTransactionMeta { from: "alice".to_string(), to: "bob".to_string(), amount: 12 };
    let bytes = encode_message(&GossipsubEvent::SendNetworkTransaction(meta));
    match handle_gossipsub_message(&bytes) {
        Inbound::Deliver(Event::SendTransaction(m)) => {
            assert_eq!(m.from, "alice");
            assert_eq!(m.to, "bob");
            assert_eq!(m.amount, 12);
        }
        _ => panic!("expected a transaction"),
    }
}

#[test]
fn malformed_messages_are_dropped() {
    assert!(matches!(handle_gossipsub_message(&[]), Inbound::Malformed));
    assert!(matches!(handle_gossipsub_message(&[9, 0, 0, 0]), Inbound::Malformed));
    let meta = SendTransactionMeta { from: "a".to_string(), to: "b".to_string(), amount: 1 };
    let mut bytes = encode_message(&GossipsubEvent::SendNetworkTransaction(meta));
    bytes.push(0);
    assert!(matches!(handle_gossipsub_message(&bytes), Inbound::Malformed));
    bytes.truncate(bytes.len() - 2);
    assert!(matches!(handle_gossipsub_message(&bytes), Inbound::Malformed));
    // invalid UTF-8 in a text field
    let mut bad: Vec<u8> = Vec::new();
    put_u32(&mut bad, 1);
    put_u64(&mut bad, 1);
    bad.push(0xff);
    put_text(&mut bad, "b");
    put_u64(&mut bad, 1);
    assert!(matches!(handle_gossipsub_message(&bad), Inbound::Malformed));
}
