use ledger_node::block::Block;
use ledger_node::blockchain::{create_genesis_block, Blockchain, VOLUME_LIMIT};
use ledger_node::hashing::{meets_difficulty, zeros};
use ledger_node::transaction::Transaction;

/// A fixed clock for sealing.
fn clock() -> i64 {
    1_700_000_000
}


fn tx(from: &str, to: &str, amount: u64) -> Transaction {
    Transaction { from: from.to_string(), to: to.to_string(), amount }
}

fn block_at(index: u32, prev_hash: &str, hash: &str, transactions: Vec<Transaction>) -> Block {
    Block {
        index,
        hash: hash.to_string(),
        prev_hash: prev_hash.to_string(),
        transactions,
        nonce: 0,
        timestamp: 0,
        difficulty: 0,
    }
}

/// A ledger whose genesis block credits `alice` with 100 units from `mint`.
fn funded_chain() -> Blockchain {
    let genesis = block_at(0, "", "g", vec![tx("mint", "alice", 100)]);
    Blockchain::new(Some(vec![genesis]), clock()).unwrap()
}

#[test]
fn test_chain_difficulty() {
    let block1 = Block::new("".to_string(), 0, Default::default(), 2, &clock).unwrap();
    let block2 = Block::new("".to_string(), 0, Default::default(), 3, &clock).unwrap();
    let block3 = Block::new("".to_string(), 0, Default::default(), 4, &clock).unwrap();
    assert!(block1.hash.starts_with("00"));
    assert!(block2.hash.starts_with("000"));
    assert!(block3.hash.starts_with("0000"));
}

#[test]
fn sealing_at_difficulty_two_and_four() {
    let b2 = Block::new("abc".to_string(), 6, vec![tx("a", "b", 1)], 2, &clock).unwrap();
    assert!(b2.hash.starts_with("00"));
    assert_eq!(b2.index, 7);
    assert_eq!(b2.prev_hash, "abc");
    assert_eq!(b2.difficulty, 2);
    let b4 = Block::new("abc".to_string(), 6, vec![], 4, &clock).unwrap();
    assert!(b4.hash.starts_with("0000"));
}

#[test]
fn sealed_block_rehashes_to_its_digest() {
    let b = Block::new("prev".to_string(), 3, vec![tx("x", "y", 5)], 2, &clock).unwrap();
    assert_eq!(b.prepare_hash(), b.hash);
    assert_eq!(b.hash.len(), 64);
    assert!(b.hash.chars().all(|c| c.is_ascii_digit() || ('a'..='f').contains(&c)));
    // the nonce is the least that works
    for n in 0..b.nonce {
        let mut other = b.clone();
        other.nonce = n;
        assert!(!other.prepare_hash().starts_with("00"));
    }
}

#[test]
fn sealing_stamps_the_current_time() {
    let wall = || chrono::Utc::now().timestamp();
    let b = Block::new("".to_string(), 0, vec![], 1, &wall).unwrap();
    assert!(b.timestamp > 1_600_000_000);
    assert_eq!(b.prepare_hash(), b.hash);
}

#[test]
fn search_starts_at_the_blocks_own_nonce() {
    let mut b = Block::new("".to_string(), 0, vec![], 0, &clock).unwrap();
    assert_eq!(b.nonce, 0);
    b.nonce = 5;
    b.hash = String::new();
    assert!(b.proof_of_work(&clock));
    assert_eq!(b.nonce, 5);
    assert_eq!(b.prepare_hash(), b.hash);
    b.difficulty = 2;
    b.nonce = 7;
    assert!(b.proof_of_work(&clock));
    assert!(b.nonce >= 7);
    assert!(b.hash.starts_with("00"));
    for n in 7..b.nonce {
        let mut other = b.clone();
        other.nonce = n;
        assert!(!other.prepare_hash().starts_with("00"));
    }
}

#[test]
fn hash_prefix_for_difficulty() {
    let b = block_at(1, "", "", vec![]);
    let mut b3 = b.clone();
    b3.difficulty = 3;
    assert_eq!(b3.hash_starts_with(), "000");
    assert_eq!(b.hash_starts_with(), "");
    assert_eq!(zeros(5), "00000");
}

#[test]
fn difficulty_predicate() {
    assert!(meets_difficulty("00ab", 2));
    assert!(meets_difficulty("00ab", 0));
    assert!(!meets_difficulty("0a0b", 2));
    assert!(!meets_difficulty("00", 3));
    assert!(meets_difficulty("000", 3));
}

#[test]
fn genesis_and_new_chain() {
    let chain = Blockchain::new(None, clock()).unwrap();
    assert_eq!(chain.blocks.len(), 1);
    assert_eq!(chain.blocks[0].index, 0);
    assert_eq!(chain.blocks[0].prev_hash, "");
    assert!(chain.blocks[0].transactions.is_empty());
    assert!(chain.transactions.is_empty());
    assert_eq!(chain.difficulty, 4);
    let g = create_genesis_block(clock());
    assert_eq!(g.hash, "000000000000000000GENESIS");
    assert_eq!(g.timestamp, 1_700_000_000);
}

#[test]
fn loading_checks_the_links() {
    let g = block_at(0, "", "h0", vec![]);
    let b1 = block_at(1, "h0", "h1", vec![]);
    let b2 = block_at(2, "h1", "h2", vec![]);
    let chain = Blockchain::new(Some(vec![g.clone(), b1.clone(), b2.clone()]), clock()).unwrap();
    assert_eq!(chain.blocks.len(), 3);
    // a gap in the indices
    let b3 = block_at(3, "h1", "h3", vec![]);
    assert!(Blockchain::new(Some(vec![g.clone(), b1.clone(), b3]), clock()).is_none());
    // a wrong predecessor
    let bad = block_at(2, "zz", "h2", vec![]);
    assert!(Blockchain::new(Some(vec![g.clone(), b1, bad]), clock()).is_none());
    // no genesis
    assert!(Blockchain::new(Some(vec![]), clock()).is_none());
    let not_genesis = block_at(0, "x", "h0", vec![]);
    assert!(Blockchain::new(Some(vec![not_genesis]), clock()).is_none());
}

#[test]
fn add_block_keeps_contiguity() {
    let mut chain = funded_chain();
    let b1 = block_at(1, "g", "h1", vec![]);
    assert!(!chain.add_block(block_at(2, "g", "h2", vec![])));
    assert!(!chain.add_block(block_at(1, "other", "h1", vec![])));
    assert!(chain.add_block(b1.clone()));
    assert!(!chain.add_block(b1));
    assert_eq!(chain.blocks.len(), 2);
    for (i, b) in chain.blocks.iter().enumerate() {
        assert_eq!(b.index as usize, i);
        if i > 0 {
            assert_eq!(b.prev_hash, chain.blocks[i - 1].hash);
        }
    }
}

#[test]
fn balances_follow_the_history() {
    let mut chain = funded_chain();
    assert_eq!(chain.address_balance("alice".to_string()), 100);
    assert_eq!(chain.address_balance("mint".to_string()), -100);
    assert_eq!(chain.address_balance("bob".to_string()), 0);
    let b1 = block_at(1, "g", "h1", vec![tx("alice", "bob", 30), tx("bob", "bob", 7)]);
    assert!(chain.add_block(b1));
    assert_eq!(chain.address_balance("alice".to_string()), 70);
    // a transfer to oneself changes nothing
    assert_eq!(chain.address_balance("bob".to_string()), 30);
}

#[test]
fn validation_against_balance() {
    let chain = funded_chain();
    assert!(chain.is_valid_transaction(&tx("alice", "bob", 100)));
    assert!(chain.is_valid_transaction(&tx("alice", "bob", 60)));
    assert!(!chain.is_valid_transaction(&tx("alice", "bob", 101)));
    assert!(!chain.is_valid_transaction(&tx("bob", "alice", 1)));
    assert!(chain.is_valid_transaction(&tx("bob", "alice", 0)));
    let after = chain.address_balance("alice".to_string());
    assert!(after >= 60);
}

#[test]
fn volume_limit_rejects() {
    let mut chain = Blockchain::new(None, clock()).unwrap();
    assert!(chain.add_transaction(tx("a", "b", 5)));
    assert_eq!(chain.volume, 5);
    chain.volume = VOLUME_LIMIT - 5;
    assert!(!chain.add_transaction(tx("a", "b", 10)));
    assert_eq!(chain.transactions.len(), 1);
    assert!(chain.add_transaction(tx("a", "b", 5)));
    assert_eq!(chain.volume, VOLUME_LIMIT);
}
