//! The ledger: a linked sequence of blocks, a pool of pending transactions,
//! and the balances that the block history gives each address.
use vstd::prelude::*;
use crate::block::Block;
use crate::transaction::{lemma_txs_balance_bounded, txs_balance, txs_volume, Transaction};

verus! {

/// The largest total of amounts that a ledger holds: balances are kept in
/// `i128`, and no balance can leave that range while the total stays below it.
pub const VOLUME_LIMIT: u128 = 0x7fff_ffff_ffff_ffff_ffff_ffff_ffff_ffff;

/// The placeholder digest of a genesis block, which is not sealed.
pub open spec fn genesis_hash() -> Seq<char> {
    "000000000000000000GENESIS"@
}

/// The difficulty of a ledger built by `Blockchain::new`.
pub const DEFAULT_DIFFICULTY: usize = 4;

/// The balance of `address` after every transaction of `blocks`.
pub open spec fn chain_balance(blocks: Seq<Block>, address: Seq<char>) -> int
    decreases blocks.len(),
{
    if blocks.len() == 0 {
        0
    } else {
        chain_balance(blocks.drop_last(), address) + txs_balance(blocks.last().transactions@, address)
    }
}

/// The sum of the amounts of every transaction of `blocks`.
pub open spec fn chain_volume(blocks: Seq<Block>) -> int
    decreases blocks.len(),
{
    if blocks.len() == 0 {
        0
    } else {
        chain_volume(blocks.drop_last()) + txs_volume(blocks.last().transactions@)
    }
}

/// The blocks form a chain: the first is a genesis block (index 0, no
/// predecessor), each block's index is its position, and each later block
/// names the digest of the block before it.
pub open spec fn is_linked(blocks: Seq<Block>) -> bool {
    &&& blocks.len() >= 1
    &&& blocks[0].prev_hash@ == Seq::<char>::empty()
    &&& forall|i: int| 0 <= i < blocks.len() ==> #[trigger] blocks[i].index == i
    &&& forall|i: int| 0 < i < blocks.len() ==> #[trigger] blocks[i].prev_hash@ == blocks[i - 1].hash@
}

/// `block` may be appended to `blocks`: its index follows the tip's and it
/// names the tip's digest.
pub open spec fn extends(blocks: Seq<Block>, block: Block) -> bool {
    &&& blocks.len() >= 1
    &&& block.index == blocks.last().index + 1
    &&& block.prev_hash@ == blocks.last().hash@
}

/// The transaction is backed by the balance that the history gives its sender.
pub open spec fn is_valid(blocks: Seq<Block>, t: Transaction) -> bool {
    chain_balance(blocks, t.from@) >= t.amount
}

pub proof fn lemma_chain_balance_bounded(blocks: Seq<Block>, address: Seq<char>)
    ensures
        -chain_volume(blocks) <= chain_balance(blocks, address) <= chain_volume(blocks),
        chain_volume(blocks) >= 0,
    decreases blocks.len(),
{
    if blocks.len() > 0 {
        lemma_chain_balance_bounded(blocks.drop_last(), address);
        lemma_txs_balance_bounded(blocks.last().transactions@, address);
    }
}

pub proof fn lemma_txs_volume_prefix(txs: Seq<Transaction>, i: int)
    requires
        0 <= i <= txs.len(),
    ensures
        0 <= txs_volume(txs.subrange(0, i)) <= txs_volume(txs),
    decreases txs.len(),
{
    lemma_txs_balance_bounded(txs.subrange(0, i), Seq::empty());
    if i < txs.len() {
        assert(txs.drop_last().subrange(0, i) =~= txs.subrange(0, i));
        lemma_txs_volume_prefix(txs.drop_last(), i);
    } else {
        assert(txs.subrange(0, i) =~= txs);
    }
}

pub proof fn lemma_chain_volume_prefix(blocks: Seq<Block>, i: int)
    requires
        0 <= i <= blocks.len(),
    ensures
        0 <= chain_volume(blocks.subrange(0, i)) <= chain_volume(blocks),
    decreases blocks.len(),
{
    lemma_chain_balance_bounded(blocks.subrange(0, i), Seq::empty());
    if i < blocks.len() {
        assert(blocks.drop_last().subrange(0, i) =~= blocks.subrange(0, i));
        lemma_chain_volume_prefix(blocks.drop_last(), i);
        lemma_txs_balance_bounded(blocks.last().transactions@, Seq::empty());
    } else {
        assert(blocks.subrange(0, i) =~= blocks);
    }
}

/// The sum of the amounts of `txs`, when it is at most `budget`.
pub fn volume_within(txs: &Vec<Transaction>, budget: u128) -> (r: Option<u128>)
    ensures
        match r {
            Some(v) => v == txs_volume(txs@) && v <= budget,
            None => txs_volume(txs@) > budget,
        },
{
    let mut acc: u128 = 0;
    let mut i: usize = 0;
    while i < txs.len()
        invariant
            i <= txs@.len(),
            acc == txs_volume(txs@.subrange(0, i as int)),
            acc <= budget,
        decreases txs@.len() - i,
    {
        assert(txs@.subrange(0, i + 1).drop_last() =~= txs@.subrange(0, i as int));
        let amount = txs[i].amount;
        if amount as u128 > budget - acc {
            proof {
                lemma_txs_volume_prefix(txs@, i + 1);
            }
            return None;
        }
        acc = acc + amount as u128;
        i = i + 1;
    }
    assert(txs@.subrange(0, i as int) =~= txs@);
    Some(acc)
}

/// The sum of the amounts of every transaction of `blocks`, when it is at
/// most `budget`.
pub fn chain_volume_within(blocks: &Vec<Block>, budget: u128) -> (r: Option<u128>)
    ensures
        match r {
            Some(v) => v == chain_volume(blocks@) && v <= budget,
            None => chain_volume(blocks@) > budget,
        },
{
    let mut acc: u128 = 0;
    let mut i: usize = 0;
    while i < blocks.len()
        invariant
            i <= blocks@.len(),
            acc == chain_volume(blocks@.subrange(0, i as int)),
            acc <= budget,
        decreases blocks@.len() - i,
    {
        assert(blocks@.subrange(0, i + 1).drop_last() =~= blocks@.subrange(0, i as int));
        match volume_within(&blocks[i].transactions, budget - acc) {
            Some(v) => {
                acc = acc + v;
            },
            None => {
                proof {
                    lemma_chain_volume_prefix(blocks@, i + 1);
                }
                return None;
            },
        }
        i = i + 1;
    }
    assert(blocks@.subrange(0, i as int) =~= blocks@);
    Some(acc)
}

/// Whether the blocks form a chain in the sense of `is_linked`.
pub fn check_linked(blocks: &Vec<Block>) -> (r: bool)
    ensures
        r == is_linked(blocks@),
{
    if blocks.len() == 0 {
        return false;
    }
    if blocks[0].prev_hash.as_str().unicode_len() != 0 {
        return false;
    }
    let mut i: usize = 0;
    while i < blocks.len()
        invariant
            1 <= blocks@.len(),
            blocks@[0].prev_hash@ == Seq::<char>::empty(),
            i <= blocks@.len(),
            forall|k: int| 0 <= k < i ==> #[trigger] blocks@[k].index == k,
            forall|k: int| 0 < k < i ==> #[trigger] blocks@[k].prev_hash@ == blocks@[k - 1].hash@,
        decreases blocks@.len() - i,
    {
        if blocks[i].index as usize != i {
            return false;
        }
        if i > 0 && blocks[i].prev_hash != blocks[i - 1].hash {
            return false;
        }
        i = i + 1;
    }
    true
}

/// The first block of a new ledger: index 0, no predecessor, no
/// transactions, a fixed placeholder digest, stamped with `now`.
pub fn create_genesis_block(now: i64) -> (r: Block)
    ensures
        r.timestamp == now,
        r.index == 0,
        r.hash@ == genesis_hash(),
        r.prev_hash@ == Seq::<char>::empty(),
        r.transactions@ == Seq::<Transaction>::empty(),
        r.nonce == 0,
        r.difficulty == 0,
{
    Block {
        index: 0,
        hash: String::from_str("000000000000000000GENESIS"),
        prev_hash: String::new(),
        transactions: Vec::new(),
        nonce: 0,
        timestamp: now,
        difficulty: 0,
    }
}

/// The ledger that a node keeps.
pub struct Blockchain {
    pub blocks: Vec<Block>,
    /// Transactions received and not yet placed in a block.
    pub transactions: Vec<Transaction>,
    /// The number of leading zeros that the digest of each new block has.
    pub difficulty: usize,
    /// The sum of the amounts of the history and of the pending pool, kept
    /// up to date by every method that changes either.
    pub volume: u128,
}

impl Blockchain {
    /// The blocks are linked, and the amounts of the history and the pending
    /// pool add up to `volume`, which is within `VOLUME_LIMIT`.
    pub open spec fn wf(self) -> bool {
        &&& is_linked(self.blocks@)
        &&& self.volume == chain_volume(self.blocks@) + txs_volume(self.transactions@)
        &&& self.volume <= VOLUME_LIMIT
    }

    /// A ledger over `blocks` when given, else over a new genesis block, with
    /// an empty pending pool and the default difficulty. Given blocks are
    /// taken only when they are linked and their amounts stay within
    /// `VOLUME_LIMIT`. A new genesis block is stamped with `now`.
    pub fn new(blocks: Option<Vec<Block>>, now: i64) -> (r: Option<Blockchain>)
        ensures
            r is Some <==> match blocks {
                None => true,
                Some(bs) => is_linked(bs@) && chain_volume(bs@) <= VOLUME_LIMIT,
            },
            r matches Some(c) ==> {
                &&& c.wf()
                &&& c.transactions@ == Seq::<Transaction>::empty()
                &&& c.difficulty == DEFAULT_DIFFICULTY
                &&& match blocks {
                    None => {
                        &&& c.blocks@.len() == 1
                        &&& c.blocks@[0].index == 0
                        &&& c.blocks@[0].timestamp == now
                        &&& c.blocks@[0].hash@ == genesis_hash()
                        &&& c.blocks@[0].prev_hash@ == Seq::<char>::empty()
                        &&& c.blocks@[0].transactions@ == Seq::<Transaction>::empty()
                        &&& c.volume == 0
                    },
                    Some(bs) => c.blocks@ == bs@,
                }
            },
    {
        match blocks {
            None => {
                let genesis = create_genesis_block(now);
                let blocks = vec![genesis];
                proof {
                    assert(blocks@.drop_last() =~= Seq::<Block>::empty());
                    assert(txs_volume(Seq::<Transaction>::empty()) == 0);
                    assert(blocks@.last().transactions@ =~= Seq::<Transaction>::empty());
                    assert(chain_volume(Seq::<Block>::empty()) == 0);
                    assert(chain_volume(blocks@) == 0);
                    assert(txs_volume(Seq::<Transaction>::empty()) == 0);
                    assert(is_linked(blocks@));
                }
                Some(Blockchain {
                    blocks,
                    transactions: Vec::new(),
                    difficulty: DEFAULT_DIFFICULTY,
                    volume: 0,
                })
            },
            Some(bs) => {
                if !check_linked(&bs) {
                    return None;
                }
                match chain_volume_within(&bs, VOLUME_LIMIT) {
                    Some(v) => Some(
                        Blockchain {
                            blocks: bs,
                            transactions: Vec::new(),
                            difficulty: DEFAULT_DIFFICULTY,
                            volume: v,
                        },
                    ),
                    None => None,
                }
            },
        }
    }

    /// Appends `block` when it extends the tip and the ledger's amounts stay
    /// within `VOLUME_LIMIT`; otherwise leaves the ledger as it is.
    pub fn add_block(&mut self, block: Block) -> (added: bool)
        requires
            old(self).wf(),
        ensures
            final(self).wf(),
            added == (extends(old(self).blocks@, block) && old(self).volume + txs_volume(
                block.transactions@,
            ) <= VOLUME_LIMIT),
            added ==> final(self).blocks@ == old(self).blocks@.push(block),
            !added ==> final(self).blocks@ == old(self).blocks@,
            final(self).transactions@ == old(self).transactions@,
            final(self).difficulty == old(self).difficulty,
    {
        let n = self.blocks.len();
        let tip = &self.blocks[n - 1];
        if tip.index == u32::MAX || block.index != tip.index + 1 || block.prev_hash != tip.hash {
            return false;
        }
        match volume_within(&block.transactions, VOLUME_LIMIT - self.volume) {
            Some(v) => {
                self.volume = self.volume + v;
                self.blocks.push(block);
                proof {
                    let bs = self.blocks@;
                    assert(bs.drop_last() =~= old(self).blocks@);
                    assert forall|i: int| 0 <= i < bs.len() implies #[trigger] bs[i].index == i by {
                        if i < bs.len() - 1 {
                            assert(bs[i] == old(self).blocks@[i]);
                        }
                    }
                    assert forall|i: int| 0 < i < bs.len() implies #[trigger] bs[i].prev_hash@
                        == bs[i - 1].hash@ by {
                        if i < bs.len() - 1 {
                            assert(bs[i] == old(self).blocks@[i]);
                        }
                    }
                }
                true
            },
            None => false,
        }
    }

    /// Places a transaction in the pending pool, when the ledger's amounts
    /// stay within `VOLUME_LIMIT`; otherwise leaves the ledger as it is.
    pub fn add_transaction(&mut self, transaction: Transaction) -> (added: bool)
        requires
            old(self).wf(),
        ensures
            final(self).wf(),
            added == (old(self).volume + transaction.amount <= VOLUME_LIMIT),
            added ==> final(self).transactions@ == old(self).transactions@.push(transaction),
            !added ==> final(self).transactions@ == old(self).transactions@,
            final(self).blocks@ == old(self).blocks@,
            final(self).difficulty == old(self).difficulty,
    {
        if transaction.amount as u128 > VOLUME_LIMIT - self.volume {
            return false;
        }
        self.volume = self.volume + transaction.amount as u128;
        self.transactions.push(transaction);
        assert(self.transactions@.drop_last() =~= old(self).transactions@);
        true
    }

    /// Empties the pending pool.
    pub fn clear_transactions(&mut self)
        requires
            old(self).wf(),
        ensures
            final(self).wf(),
            final(self).transactions@ == Seq::<Transaction>::empty(),
            final(self).blocks@ == old(self).blocks@,
            final(self).difficulty == old(self).difficulty,
            final(self).volume == old(self).volume - txs_volume(old(self).transactions@),
    {
        proof {
            lemma_chain_balance_bounded(self.blocks@, Seq::empty());
        }
        match volume_within(&self.transactions, self.volume) {
            Some(v) => {
                self.volume = self.volume - v;
            },
            None => {},
        }
        self.transactions = Vec::new();
        assert(txs_volume(self.transactions@) == 0);
    }

    /// The balance of `address`: every amount it received in the history,
    /// less every amount it sent.
    pub fn address_balance(&self, address: String) -> (r: i128)
        requires
            self.wf(),
        ensures
            r == chain_balance(self.blocks@, address@),
    {
        let blocks = &self.blocks;
        let mut b: i128 = 0;
        let mut i: usize = 0;
        proof {
            lemma_chain_volume_prefix(blocks@, 0);
            lemma_txs_balance_bounded(self.transactions@, address@);
        }
        while i < blocks.len()
            invariant
                i <= blocks@.len(),
                b == chain_balance(blocks@.subrange(0, i as int), address@),
                -chain_volume(blocks@.subrange(0, i as int)) <= b <= chain_volume(
                    blocks@.subrange(0, i as int),
                ),
                chain_volume(blocks@) <= VOLUME_LIMIT,
            decreases blocks@.len() - i,
        {
            let txs = &blocks[i].transactions;
            let ghost prefix = blocks@.subrange(0, i as int);
            let ghost next = blocks@.subrange(0, i + 1);
            proof {
                assert(next.drop_last() =~= prefix);
                lemma_chain_volume_prefix(blocks@, i + 1);
                assert(chain_volume(next) == chain_volume(prefix) + txs_volume(txs@));
            }
            let mut j: usize = 0;
            while j < txs.len()
                invariant
                    j <= txs@.len(),
                    chain_volume(prefix) + txs_volume(txs@) <= VOLUME_LIMIT,
                    b == chain_balance(prefix, address@) + txs_balance(
                        txs@.subrange(0, j as int),
                        address@,
                    ),
                    -(chain_volume(prefix) + txs_volume(txs@.subrange(0, j as int))) <= b <= (
                    chain_volume(prefix) + txs_volume(txs@.subrange(0, j as int))),
                decreases txs@.len() - j,
            {
                let t = &txs[j];
                proof {
                    assert(txs@.subrange(0, j + 1).drop_last() =~= txs@.subrange(0, j as int));
                    lemma_txs_volume_prefix(txs@, j + 1);
                }
                let mut d: i128 = 0;
                if t.to == address {
                    d = t.amount as i128;
                }
                if t.from == address {
                    d = d - t.amount as i128;
                }
                b = b + d;
                j = j + 1;
            }
            assert(txs@.subrange(0, j as int) =~= txs@);
            i = i + 1;
        }
        assert(blocks@.subrange(0, i as int) =~= blocks@);
        b
    }

    /// Whether the sender's balance covers the amount.
    pub fn is_valid_transaction(&self, transaction: &Transaction) -> (r: bool)
        requires
            self.wf(),
        ensures
            r == is_valid(self.blocks@, *transaction),
            r ==> chain_balance(self.blocks@, transaction.from@) >= transaction.amount,
    {
        self.address_balance(transaction.from.clone()) >= transaction.amount as i128
    }
}


/// Contiguity: in a well-formed ledger the block at position `i` has index
/// `i`, and every block after the first names the digest of the block before
/// it. Every method that changes a ledger keeps it well formed.
pub proof fn lemma_contiguity(c: Blockchain, i: int)
    requires
        c.wf(),
        0 <= i < c.blocks@.len(),
    ensures
        c.blocks@[i].index == i,
        i > 0 ==> c.blocks@[i].prev_hash@ == c.blocks@[i - 1].hash@,
{
    assert(c.blocks@[i].index == i);
    if i > 0 {
        assert(c.blocks@[i].prev_hash@ == c.blocks@[i - 1].hash@);
    }
}

} // verus!
