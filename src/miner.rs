//! The miner: when to seal a block, and what goes into it.
use vstd::prelude::*;
use crate::actions::{BlockSyncMeta, Command, Event};
use crate::block::{nonce_failed, Block};
use crate::blockchain::{
    chain_balance, chain_volume, extends, lemma_chain_balance_bounded, lemma_txs_volume_prefix,
    Blockchain, VOLUME_LIMIT,
};
use crate::transaction::{lemma_txs_balance_bounded, txs_balance, txs_volume, Transaction};

verus! {

/// A block is sealed once this many transactions are pending.
pub const MAX_TRANSACTIONS_IN_BLOCK: usize = 5000;

/// A block is sealed once the tip is older than this many seconds and a
/// transaction is pending.
pub const STALENESS_WINDOW_SECS: i64 = 600;

/// The scheduling policy: a full batch is pending, or some transaction is
/// pending and the tip is older than the staleness window.
pub open spec fn should_seal(
    pending: nat,
    tip_timestamp: int,
    now: int,
    batch_threshold: nat,
    window: int,
) -> bool {
    pending >= batch_threshold || (pending >= 1 && now - tip_timestamp > window)
}

/// The sender of `t` holds its amount once the history `blocks` and the
/// transactions `accepted` before it in the same block are counted.
pub open spec fn backed(blocks: Seq<Block>, accepted: Seq<Transaction>, t: Transaction) -> bool {
    chain_balance(blocks, t.from@) + txs_balance(accepted, t.from@) >= t.amount
}

/// The transactions of `txs` that go into a block on `blocks`, in their order:
/// each is checked against the history and the transactions taken before it.
pub open spec fn valid_subset(blocks: Seq<Block>, txs: Seq<Transaction>) -> Seq<Transaction>
    decreases txs.len(),
{
    if txs.len() == 0 {
        Seq::empty()
    } else {
        let rest = valid_subset(blocks, txs.drop_last());
        if backed(blocks, rest, txs.last()) {
            rest.push(txs.last())
        } else {
            rest
        }
    }
}

/// `new` is `old` with one more block, sealed on the tip of `old` over the
/// pending transactions of `old` that `valid_subset` takes, with an empty
/// pending pool; `cmd` hands that block to the bridge.
pub open spec fn sealed_next(old: Blockchain, new: Blockchain, cmd: Command) -> bool {
    let tip = old.blocks@.last();
    let b = new.blocks@.last();
    &&& new.blocks@ == old.blocks@.push(b)
    &&& b.index == tip.index + 1
    &&& b.prev_hash@ == tip.hash@
    &&& b.transactions@ == valid_subset(old.blocks@, old.transactions@)
    &&& b.difficulty == old.difficulty
    &&& b.is_sealed()
    &&& new.transactions@ == Seq::<Transaction>::empty()
    &&& new.difficulty == old.difficulty
    &&& cmd matches Command::AddBlock(meta) && meta.key == b.index as i32 && meta.block.same_as(b)
}

/// Every nonce failed for a block on the tip of `c`.
pub open spec fn no_nonce_seals(c: Blockchain) -> bool {
    let tip = c.blocks@.last();
    forall|n: u32|
        #[trigger] nonce_failed(
            (tip.index + 1) as u32,
            tip.hash@,
            valid_subset(c.blocks@, c.transactions@),
            n,
            c.difficulty,
        )
}

/// What a seal attempt on `old` may come to: a sealed successor and its
/// command, or no change. There is no block when the tip's index is the
/// largest there is, and otherwise only when every nonce failed; with
/// difficulty 0 a block is owed.
pub open spec fn seal_result(old: Blockchain, new: Blockchain, r: Option<Command>) -> bool {
    let tip = old.blocks@.last();
    &&& (r matches Some(cmd) ==> sealed_next(old, new, cmd))
    &&& (r is None ==> new == old)
    &&& (tip.index == u32::MAX ==> r is None)
    &&& (tip.index < u32::MAX && old.difficulty == 0 ==> r is Some)
    &&& (tip.index < u32::MAX && r is None ==> no_nonce_seals(old))
}

pub proof fn lemma_valid_subset_volume(blocks: Seq<Block>, txs: Seq<Transaction>)
    ensures
        0 <= txs_volume(valid_subset(blocks, txs)) <= txs_volume(txs),
    decreases txs.len(),
{
    if txs.len() > 0 {
        lemma_valid_subset_volume(blocks, txs.drop_last());
        let rest = valid_subset(blocks, txs.drop_last());
        if backed(blocks, rest, txs.last()) {
            assert(rest.push(txs.last()).drop_last() =~= rest);
        }
    }
}

/// The net effect of `txs` on the balance of `address`.
pub fn balance_in(txs: &Vec<Transaction>, address: &String) -> (r: i128)
    requires
        txs_volume(txs@) <= VOLUME_LIMIT,
    ensures
        r == txs_balance(txs@, address@),
{
    let mut b: i128 = 0;
    let mut i: usize = 0;
    while i < txs.len()
        invariant
            i <= txs@.len(),
            txs_volume(txs@) <= VOLUME_LIMIT,
            b == txs_balance(txs@.subrange(0, i as int), address@),
            -txs_volume(txs@.subrange(0, i as int)) <= b <= txs_volume(txs@.subrange(0, i as int)),
        decreases txs@.len() - i,
    {
        let t = &txs[i];
        proof {
            assert(txs@.subrange(0, i + 1).drop_last() =~= txs@.subrange(0, i as int));
            lemma_txs_volume_prefix(txs@, i + 1);
        }
        let mut d: i128 = 0;
        if t.to == *address {
            d = t.amount as i128;
        }
        if t.from == *address {
            d = d - t.amount as i128;
        }
        b = b + d;
        i = i + 1;
    }
    assert(txs@.subrange(0, i as int) =~= txs@);
    b
}

/// The owner of the ledger, with its tunable scheduling thresholds.
pub struct Miner {
    pub blockchain: Blockchain,
    /// A block is sealed once this many transactions are pending.
    pub batch_threshold: usize,
    /// A block is sealed once the tip is older than this many seconds and a
    /// transaction is pending.
    pub staleness_secs: i64,
}

impl Miner {
    pub open spec fn wf(self) -> bool {
        self.blockchain.wf()
    }

    /// A miner over `blockchain` with the default thresholds.
    pub fn new(blockchain: Blockchain) -> (r: Miner)
        ensures
            r.blockchain == blockchain,
            r.batch_threshold == MAX_TRANSACTIONS_IN_BLOCK,
            r.staleness_secs == STALENESS_WINDOW_SECS,
    {
        Miner {
            blockchain,
            batch_threshold: MAX_TRANSACTIONS_IN_BLOCK,
            staleness_secs: STALENESS_WINDOW_SECS,
        }
    }

    /// Whether a block is due at time `now` (seconds since the Unix epoch).
    pub fn is_ready_to_sign(&self, now: i64) -> (r: bool)
        requires
            self.wf(),
        ensures
            r == should_seal(
                self.blockchain.transactions@.len(),
                self.blockchain.blocks@.last().timestamp as int,
                now as int,
                self.batch_threshold as nat,
                self.staleness_secs as int,
            ),
    {
        let pending = self.blockchain.transactions.len();
        if pending >= self.batch_threshold {
            return true;
        }
        let tip = &self.blockchain.blocks[self.blockchain.blocks.len() - 1];
        pending >= 1 && (now as i128) - (tip.timestamp as i128) > self.staleness_secs as i128
    }

    /// The pending transactions that go into the next block: each in turn, if
    /// the history and the transactions taken before it back it.
    pub fn sign_txs(&self) -> (r: Vec<Transaction>)
        requires
            self.wf(),
        ensures
            r@ == valid_subset(self.blockchain.blocks@, self.blockchain.transactions@),
    {
        let pending = &self.blockchain.transactions;
        let mut out: Vec<Transaction> = Vec::new();
        let mut i: usize = 0;
        proof {
            lemma_txs_volume_prefix(pending@, 0);
        }
        while i < pending.len()
            invariant
                self.wf(),
                pending@ == self.blockchain.transactions@,
                i <= pending@.len(),
                out@ == valid_subset(self.blockchain.blocks@, pending@.subrange(0, i as int)),
            decreases pending@.len() - i,
        {
            let t = &pending[i];
            let ghost blocks = self.blockchain.blocks@;
            proof {
                assert(pending@.subrange(0, i + 1).drop_last() =~= pending@.subrange(0, i as int));
                lemma_valid_subset_volume(blocks, pending@.subrange(0, i as int));
                lemma_txs_volume_prefix(pending@, i as int);
                lemma_chain_balance_bounded(blocks, t.from@);
                lemma_txs_balance_bounded(out@, t.from@);
            }
            let held = self.blockchain.address_balance(t.from.clone());
            let taken = balance_in(&out, &t.from);
            if held + taken >= t.amount as i128 {
                out.push(t.clone());
            }
            i = i + 1;
        }
        assert(pending@.subrange(0, i as int) =~= pending@);
        out
    }

    /// Seals a block on the tip over the pending transactions that
    /// `valid_subset` takes (the others are dropped for good), reading
    /// `clock` at each sealing attempt; appends it, empties the pending pool
    /// and returns the command that hands the block to the bridge. See
    /// `seal_result` for when there is no block.
    pub fn process_new_block<C: Fn() -> i64>(&mut self, clock: &C) -> (r: Option<Command>)
        requires
            old(self).wf(),
            clock.requires(()),
        ensures
            final(self).wf(),
            final(self).batch_threshold == old(self).batch_threshold,
            final(self).staleness_secs == old(self).staleness_secs,
            seal_result(old(self).blockchain, final(self).blockchain, r),
    {
        let n = self.blockchain.blocks.len();
        let tip_index = self.blockchain.blocks[n - 1].index;
        if tip_index == u32::MAX {
            return None;
        }
        let tip_hash = self.blockchain.blocks[n - 1].hash.clone();
        let valid = self.sign_txs();
        proof {
            lemma_valid_subset_volume(self.blockchain.blocks@, self.blockchain.transactions@);
        }
        let ghost g_hash = tip_hash@;
        let ghost g_valid = valid@;
        match Block::new(tip_hash, tip_index, valid, self.blockchain.difficulty, clock) {
            None => {
                assert(no_nonce_seals(self.blockchain));
                None
            },
            Some(block) => {
                self.blockchain.clear_transactions();
                let copy = block.clone();
                let added = self.blockchain.add_block(copy);
                assert(added);
                let key = #[verifier::truncate] (block.index as i32);
                Some(Command::AddBlock(BlockSyncMeta { key, block }))
            },
        }
    }

    /// One scheduling decision at time `now`: when a block is due
    /// (`should_seal`) the miner seals one as `process_new_block` does;
    /// otherwise nothing changes.
    pub fn step<C: Fn() -> i64>(&mut self, now: i64, clock: &C) -> (r: Option<Command>)
        requires
            old(self).wf(),
            clock.requires(()),
        ensures
            final(self).wf(),
            final(self).batch_threshold == old(self).batch_threshold,
            final(self).staleness_secs == old(self).staleness_secs,
            ({
                let due = should_seal(
                    old(self).blockchain.transactions@.len(),
                    old(self).blockchain.blocks@.last().timestamp as int,
                    now as int,
                    old(self).batch_threshold as nat,
                    old(self).staleness_secs as int,
                );
                &&& due ==> seal_result(old(self).blockchain, final(self).blockchain, r)
                &&& !due ==> r is None && final(self).blockchain == old(self).blockchain
            }),
    {
        if self.is_ready_to_sign(now) {
            self.process_new_block(clock)
        } else {
            None
        }
    }

    /// One scheduling step: reads `clock` for the time and takes `step`.
    /// Whatever the time, either nothing changes and there is no command, or
    /// a block is sealed; with a full batch pending a block is due at any
    /// time.
    pub fn tick<C: Fn() -> i64>(&mut self, clock: &C) -> (r: Option<Command>)
        requires
            old(self).wf(),
            clock.requires(()),
        ensures
            final(self).wf(),
            final(self).batch_threshold == old(self).batch_threshold,
            final(self).staleness_secs == old(self).staleness_secs,
            r matches Some(cmd) ==> sealed_next(old(self).blockchain, final(self).blockchain, cmd),
            r is None ==> final(self).blockchain == old(self).blockchain,
            old(self).blockchain.transactions@.len() >= old(self).batch_threshold ==> seal_result(
                old(self).blockchain,
                final(self).blockchain,
                r,
            ),
    {
        let now = clock();
        self.step(now, clock)
    }

    /// Folds in what the bridge hands over: a block is appended when it
    /// extends the tip, a transaction joins the pending pool; both only while
    /// the ledger's amounts stay within `VOLUME_LIMIT`. Returns whether the
    /// ledger took it.
    pub fn handle_event(&mut self, event: Event) -> (taken: bool)
        requires
            old(self).wf(),
        ensures
            final(self).wf(),
            final(self).batch_threshold == old(self).batch_threshold,
            final(self).staleness_secs == old(self).staleness_secs,
            final(self).blockchain.difficulty == old(self).blockchain.difficulty,
            match event {
                Event::SyncBlock(meta) => {
                    &&& taken == (extends(
                        old(self).blockchain.blocks@,
                        meta.block,
                    ) && old(self).blockchain.volume + txs_volume(meta.block.transactions@)
                        <= VOLUME_LIMIT)
                    &&& final(self).blockchain.blocks@ == (if taken {
                        old(self).blockchain.blocks@.push(meta.block)
                    } else {
                        old(self).blockchain.blocks@
                    })
                    &&& final(self).blockchain.transactions@ == old(self).blockchain.transactions@
                },
                Event::SendTransaction(meta) => {
                    &&& taken == (old(self).blockchain.volume + meta.amount <= VOLUME_LIMIT)
                    &&& final(self).blockchain.transactions@ == (if taken {
                        old(self).blockchain.transactions@.push(
                            Transaction { from: meta.from, to: meta.to, amount: meta.amount },
                        )
                    } else {
                        old(self).blockchain.transactions@
                    })
                    &&& final(self).blockchain.blocks@ == old(self).blockchain.blocks@
                },
            },
    {
        match event {
            Event::SyncBlock(meta) => self.blockchain.add_block(meta.block),
            Event::SendTransaction(meta) => self.blockchain.add_transaction(Transaction::from(meta)),
        }
    }
}

/// Draining: the sealed block holds, in their order, the pending
/// transactions that were backed when their turn came, and nothing else
/// (`sealed_next` also leaves the pending pool empty); the others are gone.
pub proof fn lemma_seal_drains(blocks: Seq<Block>, txs: Seq<Transaction>, t: Transaction)
    ensures
        valid_subset(blocks, txs).contains(t) ==> txs.contains(t),
        valid_subset(blocks, txs).len() <= txs.len(),
    decreases txs.len(),
{
    if txs.len() > 0 {
        let rest = txs.drop_last();
        lemma_seal_drains(blocks, rest, t);
        let sub = valid_subset(blocks, rest);
        if valid_subset(blocks, txs).contains(t) {
            if sub.contains(t) {
                let k = choose|k: int| 0 <= k < sub.len() && sub[k] == t;
                let m = choose|m: int| 0 <= m < rest.len() && rest[m] == t;
                assert(txs[m] == t);
            } else {
                let s = sub.push(txs.last());
                let k = choose|k: int| 0 <= k < s.len() && s[k] == t;
                if k < sub.len() {
                    assert(sub[k] == t);
                }
                assert(txs[txs.len() - 1] == t);
            }
        }
    }
}

/// Balances stay non-negative under validation: with the transactions that
/// `valid_subset` takes from `txs`, each checked against the history and the
/// ones taken before it, an address whose balance was non-negative keeps a
/// non-negative balance.
pub proof fn lemma_valid_subset_keeps_balance(
    blocks: Seq<Block>,
    txs: Seq<Transaction>,
    address: Seq<char>,
)
    requires
        chain_balance(blocks, address) >= 0,
    ensures
        chain_balance(blocks, address) + txs_balance(valid_subset(blocks, txs), address) >= 0,
    decreases txs.len(),
{
    if txs.len() > 0 {
        lemma_valid_subset_keeps_balance(blocks, txs.drop_last(), address);
        let rest = valid_subset(blocks, txs.drop_last());
        if backed(blocks, rest, txs.last()) {
            assert(rest.push(txs.last()).drop_last() =~= rest);
        }
    }
}

/// A seal keeps balances non-negative: after the miner seals a block, every
/// address whose balance was non-negative still has a non-negative balance.
pub proof fn lemma_seal_keeps_balance(
    old: Blockchain,
    new: Blockchain,
    cmd: Command,
    address: Seq<char>,
)
    requires
        sealed_next(old, new, cmd),
        chain_balance(old.blocks@, address) >= 0,
    ensures
        chain_balance(new.blocks@, address) >= 0,
{
    lemma_valid_subset_keeps_balance(old.blocks@, old.transactions@, address);
    assert(new.blocks@.drop_last() =~= old.blocks@);
}

} // verus!
