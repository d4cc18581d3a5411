use ledger_node::actions::{BlockSyncMeta, Command, Event, SendTransactionMeta};
use ledger_node::block::Block;
use ledger_node::blockchain::Blockchain;
use ledger_node::miner::{Miner, MAX_TRANSACTIONS_IN_BLOCK, STALENESS_WINDOW_SECS};
use ledger_node::transaction::Transaction;

/// A fixed clock for sealing.
fn clock() -> i64 {
    1_700_000_000
}


fn tx(from: &str, to: &str, amount: u64) -> Transaction {
    Transaction { from: from.to_string(), to: to.to_string(), amount }
}

fn funded_miner(difficulty: usize) -> Miner {
    let genesis = Block {
        index: 0,
        hash: "g".to_string(),
        prev_hash: String::new(),
        transactions: vec![tx("mint", "alice", 100)],
        nonce: 0,
        timestamp: 0,
        difficulty: 0,
    };
    let mut chain = Blockchain::new(Some(vec![genesis]), clock()).unwrap();
    chain.difficulty = difficulty;
    Miner::new(chain)
}

#[test]
fn should_seal_on_staleness() {
    let mut miner = Miner::new(Blockchain::new(None, clock()).unwrap());
    assert_eq!(miner.staleness_secs, 600);
    assert_eq!(STALENESS_WINDOW_SECS, 600);
    assert_eq!(miner.batch_threshold, MAX_TRANSACTIONS_IN_BLOCK);
    let now: i64 = 1_700_000_000;
    miner.blockchain.blocks[0].timestamp = now - 11 * 60;
    // nothing pending: never
    assert!(!miner.is_ready_to_sign(now));
    assert!(miner.blockchain.add_transaction(tx("a", "b", 0)));
    assert!(miner.is_ready_to_sign(now));
    miner.blockchain.blocks[0].timestamp = now - 60;
    assert!(!miner.is_ready_to_sign(now));
    // exactly at the window: not yet older than it
    miner.blockchain.blocks[0].timestamp = now - 600;
    assert!(!miner.is_ready_to_sign(now));
    // a full batch seals whatever the age of the tip
    miner.blockchain.blocks[0].timestamp = now - 60;
    miner.batch_threshold = 1;
    assert!(miner.is_ready_to_sign(now));
}

#[test]
fn should_seal_on_full_batch() {
    let mut miner = Miner::new(Blockchain::new(None, clock()).unwrap());
    let now: i64 = 1_700_000_000;
    miner.blockchain.blocks[0].timestamp = now;
    for _ in 0..MAX_TRANSACTIONS_IN_BLOCK - 1 {
        assert!(miner.blockchain.add_transaction(tx("a", "b", 0)));
    }
    assert!(!miner.is_ready_to_sign(now));
    assert!(miner.blockchain.add_transaction(tx("a", "b", 0)));
    assert!(miner.is_ready_to_sign(now));
}

#[test]
fn seal_drains_the_pool() {
    let mut miner = funded_miner(1);
    assert!(miner.blockchain.add_transaction(tx("alice", "bob", 60)));
    assert!(miner.blockchain.add_transaction(tx("bob", "carol", 5)));
    assert!(miner.blockchain.add_transaction(tx("alice", "carol", 100)));
    // bob is backed by the 60 he receives earlier in the same block; the
    // last transfer would overdraw alice once the first is counted
    assert_eq!(miner.sign_txs().len(), 2);
    let cmd = miner.process_new_block(&clock).unwrap();
    assert!(miner.blockchain.transactions.is_empty());
    assert_eq!(miner.blockchain.blocks.len(), 2);
    let sealed = &miner.blockchain.blocks[1];
    assert_eq!(sealed.index, 1);
    assert_eq!(sealed.prev_hash, "g");
    assert_eq!(sealed.transactions.len(), 2);
    assert_eq!(sealed.transactions[0].to, "bob");
    assert_eq!(sealed.transactions[1].from, "bob");
    assert_eq!(sealed.transactions[1].amount, 5);
    assert!(sealed.hash.starts_with("0"));
    assert_eq!(sealed.prepare_hash(), sealed.hash);
    match cmd {
        Command::AddBlock(meta) => {
            assert_eq!(meta.key, 1);
            assert_eq!(meta.block.hash, sealed.hash);
        }
        Command::SendTransaction(_) => panic!("expected a block"),
    }
    // the dropped transaction is not re-queued
    assert!(miner.blockchain.transactions.is_empty());
}

#[test]
fn seal_with_nothing_valid_still_seals_an_empty_block() {
    let mut miner = funded_miner(1);
    assert!(miner.blockchain.add_transaction(tx("bob", "carol", 5)));
    assert!(miner.process_new_block(&clock).is_some());
    assert!(miner.blockchain.blocks[1].transactions.is_empty());
    assert!(miner.blockchain.transactions.is_empty());
}

#[test]
fn contiguity_under_seals_and_external_blocks() {
    let mut miner = funded_miner(1);
    assert!(miner.process_new_block(&clock).is_some());
    let tip = miner.blockchain.blocks[1].clone();
    let external = Block::new(tip.hash.clone(), tip.index, vec![], 1, &clock).unwrap();
    assert!(miner.handle_event(Event::SyncBlock(BlockSyncMeta { key: 2, block: external.clone() })));
    // the same block again does not extend the tip
    assert!(!miner.handle_event(Event::SyncBlock(BlockSyncMeta { key: 2, block: external })));
    // a block that skips an index is refused
    let skipping = Block::new("x".to_string(), 5, vec![], 1, &clock).unwrap();
    assert!(!miner.handle_event(Event::SyncBlock(BlockSyncMeta { key: 6, block: skipping })));
    assert!(miner.process_new_block(&clock).is_some());
    let blocks = &miner.blockchain.blocks;
    assert_eq!(blocks.len(), 4);
    for i in 0..blocks.len() {
        assert_eq!(blocks[i].index as usize, i);
        if i > 0 {
            assert_eq!(blocks[i].prev_hash, blocks[i - 1].hash);
        }
    }
}

#[test]
fn transactions_join_the_pool() {
    let mut miner = funded_miner(1);
    let meta = SendTransactionMeta { from: "alice".to_string(), to: "bob".to_string(), amount: 3 };
    assert!(miner.handle_event(Event::SendTransaction(meta)));
    assert_eq!(miner.blockchain.transactions.len(), 1);
    assert_eq!(miner.blockchain.transactions[0].from, "alice");
    assert_eq!(miner.blockchain.transactions[0].amount, 3);
    let t = Transaction::from(SendTransactionMeta { from: "p".to_string(), to: "q".to_string(), amount: 9 });
    assert_eq!((t.from.as_str(), t.to.as_str(), t.amount), ("p", "q", 9));
}

#[test]
fn tick_without_pending_does_nothing() {
    let mut miner = funded_miner(1);
    assert!(miner.tick(&clock).is_none());
    assert_eq!(miner.blockchain.blocks.len(), 1);
}

#[test]
fn tick_seals_a_stale_pool() {
    let mut miner = funded_miner(1);
    assert!(miner.blockchain.add_transaction(tx("alice", "bob", 1)));
    // the tip's timestamp is 0, long past the window
    assert!(miner.tick(&clock).is_some());
    assert_eq!(miner.blockchain.blocks.len(), 2);
    assert!(miner.blockchain.transactions.is_empty());
}

#[test]
fn balances_stay_non_negative_after_validated_seal() {
    let mut miner = funded_miner(1);
    assert!(miner.blockchain.add_transaction(tx("alice", "bob", 100)));
    assert!(miner.blockchain.add_transaction(tx("bob", "carol", 10)));
    assert!(miner.process_new_block(&clock).is_some());
    for who in ["alice", "bob", "carol"] {
        assert!(miner.blockchain.address_balance(who.to_string()) >= 0);
    }
    assert_eq!(miner.blockchain.address_balance("alice".to_string()), 0);
    assert_eq!(miner.blockchain.address_balance("bob".to_string()), 90);
    assert_eq!(miner.blockchain.address_balance("carol".to_string()), 10);
}

#[test]
fn two_transfers_cannot_overdraw_together() {
    let mut miner = funded_miner(1);
    assert!(miner.blockchain.add_transaction(tx("alice", "bob", 60)));
    assert!(miner.blockchain.add_transaction(tx("alice", "carol", 60)));
    assert!(miner.process_new_block(&clock).is_some());
    assert_eq!(miner.blockchain.blocks[1].transactions.len(), 1);
    assert_eq!(miner.blockchain.address_balance("alice".to_string()), 40);
    assert_eq!(miner.blockchain.address_balance("carol".to_string()), 0);
}

#[test]
fn step_follows_the_schedule() {
    let mut miner = funded_miner(1);
    miner.blockchain.blocks[0].timestamp = 1_000;
    assert!(miner.blockchain.add_transaction(tx("alice", "bob", 1)));
    assert!(miner.step(1_000 + 60, &clock).is_none());
    assert_eq!(miner.blockchain.transactions.len(), 1);
    assert!(miner.step(1_000 + 11 * 60, &clock).is_some());
    assert_eq!(miner.blockchain.blocks[1].timestamp, 1_700_000_000);
}

#[test]
fn tick_seals_a_full_batch_on_a_fresh_tip() {
    let mut miner = funded_miner(1);
    miner.blockchain.blocks[0].timestamp = i64::MAX;
    miner.batch_threshold = 2;
    assert!(miner.blockchain.add_transaction(tx("alice", "bob", 1)));
    assert!(miner.tick(&clock).is_none());
    assert!(miner.blockchain.add_transaction(tx("alice", "carol", 1)));
    assert!(miner.tick(&clock).is_some());
    assert_eq!(miner.blockchain.blocks.len(), 2);
    assert_eq!(miner.blockchain.blocks[1].transactions.len(), 2);
}
