use ledger_node::actions::{BlockSyncMeta, GossipsubEvent, SendTransactionMeta};
use ledger_node::block::Block;
use ledger_node::errors::BlockError;
use ledger_node::codec::{
    decode_block, decode_message, encode_block, encode_message, encode_seal_head, put_i64, put_text, put_u32,
    put_u64, take_block, take_text,
};
use ledger_node::transaction::Transaction;

/// A fixed clock for sealing.
fn clock() -> i64 {
    1_700_000_000
}


#[test]
fn integers_are_little_endian() {
    let mut out = Vec::new();
    put_u32(&mut out, 0x0102_0304);
    assert_eq!(out, vec![4, 3, 2, 1]);
    let mut out = Vec::new();
    put_i64(&mut out, -2);
    assert_eq!(out, vec![0xfe, 0xff, 0xff, 0xff, 0xff, 0xff, 0xff, 0xff]);
}

#[test]
fn texts_carry_their_length() {
    let mut out = Vec::new();
    put_text(&mut out, "hé");
    assert_eq!(out, vec![3, 0, 0, 0, 0, 0, 0, 0, b'h', 0xc3, 0xa9]);
    let (s, p) = take_text(&out, 0).unwrap();
    assert_eq!(s, "hé");
    assert_eq!(p, 11);
}

#[test]
fn transaction_message_exact_bytes() {
    let meta = SendTransactionMeta { from: "a".to_string(), to: "bc".to_string(), amount: 258 };
    let bytes = encode_message(&GossipsubEvent::SendNetworkTransaction(meta));
    let expected: Vec<u8> = vec![
        1, 0, 0, 0, // tag
        1, 0, 0, 0, 0, 0, 0, 0, b'a', // from
        2, 0, 0, 0, 0, 0, 0, 0, b'b', b'c', // to
        2, 1, 0, 0, 0, 0, 0, 0, // amount
    ];
    assert_eq!(bytes, expected);
}

#[test]
fn block_message_round_trip() {
    let block = Block {
        index: 3,
        hash: "00ab".to_string(),
        prev_hash: "ff".to_string(),
        transactions: vec![
            Transaction { from: "x".to_string(), to: "y".to_string(), amount: 7 },
            Transaction { from: "y".to_string(), to: "z".to_string(), amount: 1 },
        ],
        nonce: 99,
        timestamp: -5,
        difficulty: 2,
    };
    let bytes = encode_message(&GossipsubEvent::SyncNetworkBlock(BlockSyncMeta { key: -1, block: block.clone() }));
    match decode_message(&bytes).unwrap() {
        GossipsubEvent::SyncNetworkBlock(m) => {
            assert_eq!(m.key, -1);
            assert_eq!(m.block.index, 3);
            assert_eq!(m.block.hash, "00ab");
            assert_eq!(m.block.prev_hash, "ff");
            assert_eq!(m.block.transactions.len(), 2);
            assert_eq!(m.block.transactions[1].to, "z");
            assert_eq!(m.block.nonce, 99);
            assert_eq!(m.block.timestamp, -5);
            assert_eq!(m.block.difficulty, 2);
        }
        GossipsubEvent::SendNetworkTransaction(_) => panic!("expected a block"),
    }
    let record = encode_block(&block);
    let (b, p) = take_block(&record, 0).unwrap();
    assert_eq!(p, record.len());
    assert_eq!(b.prepare_hash(), block.prepare_hash());
}

#[test]
fn digest_covers_the_canonical_encoding() {
    let block = Block {
        index: 1,
        hash: String::new(),
        prev_hash: "p".to_string(),
        transactions: vec![],
        nonce: 5,
        timestamp: 123,
        difficulty: 3,
    };
    let mut bytes = encode_seal_head(1, "p", &vec![]);
    put_u32(&mut bytes, 5);
    put_i64(&mut bytes, 123);
    put_u64(&mut bytes, 3);
    assert_eq!(block.prepare_hash(), sha256::digest(&bytes));
    // the digest field is not covered; the time of sealing is
    let mut other_hash = block.clone();
    other_hash.hash = "x".to_string();
    assert_eq!(other_hash.prepare_hash(), block.prepare_hash());
    let mut later = block.clone();
    later.timestamp = 456;
    assert_ne!(later.prepare_hash(), block.prepare_hash());
    let mut other = block.clone();
    other.nonce = 6;
    assert_ne!(other.prepare_hash(), block.prepare_hash());
}

#[test]
fn block_records_decode_or_fail() {
    let block = Block::new("p".to_string(), 0, vec![], 1, &clock).unwrap();
    let record = encode_block(&block);
    let back = decode_block(&record).unwrap();
    assert_eq!(back.hash, block.hash);
    assert_eq!(back.nonce, block.nonce);
    assert_eq!(back.timestamp, block.timestamp);
    let mut longer = record.clone();
    longer.push(0);
    assert_eq!(decode_block(&longer).err(), Some(BlockError::Malformed));
    assert_eq!(decode_block(&record[..record.len() - 1]).err(), Some(BlockError::Malformed));
    assert_eq!(decode_block(&[]).err(), Some(BlockError::Malformed));
}
