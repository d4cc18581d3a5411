//! Blocks and their proof-of-work sealing.
use vstd::prelude::*;
use crate::codec::{encode_seal_head, put_i64, put_u32, put_u64, seal_bytes, seal_head};
use crate::hashing::{
    has_zero_prefix, is_hex_digest, meets_difficulty, sha256_hex, sha256_hex_of, zero_prefix, zeros,
};
use crate::transaction::Transaction;

verus! {

/// A block of the ledger.
pub struct Block {
    pub index: u32,
    pub hash: String,
    pub prev_hash: String,
    pub transactions: Vec<Transaction>,
    pub nonce: u32,
    pub timestamp: i64,
    pub difficulty: usize,
}

impl Clone for Block {
    fn clone(&self) -> (r: Self)
        ensures
            r.same_as(*self),
    {
        let transactions = clone_transactions(&self.transactions);
        Block {
            index: self.index,
            hash: self.hash.clone(),
            prev_hash: self.prev_hash.clone(),
            transactions,
            nonce: self.nonce,
            timestamp: self.timestamp,
            difficulty: self.difficulty,
        }
    }
}

/// A copy of a list of transactions.
pub fn clone_transactions(txs: &Vec<Transaction>) -> (r: Vec<Transaction>)
    ensures
        r@ == txs@,
{
    let mut out: Vec<Transaction> = Vec::new();
    let mut i: usize = 0;
    while i < txs.len()
        invariant
            i <= txs@.len(),
            out@ == txs@.subrange(0, i as int),
        decreases txs@.len() - i,
    {
        out.push(txs[i].clone());
        i = i + 1;
        assert(out@ =~= txs@.subrange(0, i as int));
    }
    assert(out@ =~= txs@);
    out
}

/// The digest of a block with these fields meets its difficulty.
pub open spec fn nonce_meets(
    index: u32,
    prev_hash: Seq<char>,
    txs: Seq<Transaction>,
    nonce: u32,
    timestamp: i64,
    difficulty: usize,
) -> bool {
    has_zero_prefix(
        sha256_hex_of(seal_bytes(index, prev_hash, txs, nonce, timestamp, difficulty)),
        difficulty as nat,
    )
}

/// The nonce `n` was tried and failed: at the time of its attempt the digest
/// did not meet the difficulty.
pub open spec fn nonce_failed(
    index: u32,
    prev_hash: Seq<char>,
    txs: Seq<Transaction>,
    n: u32,
    difficulty: usize,
) -> bool {
    exists|t: i64| !#[trigger] nonce_meets(index, prev_hash, txs, n, t, difficulty)
}

impl Block {
    /// The two blocks hold the same values.
    pub open spec fn same_as(self, other: Block) -> bool {
        &&& self.index == other.index
        &&& self.hash@ == other.hash@
        &&& self.prev_hash@ == other.prev_hash@
        &&& self.transactions@ == other.transactions@
        &&& self.nonce == other.nonce
        &&& self.timestamp == other.timestamp
        &&& self.difficulty == other.difficulty
    }

    /// The canonical encoding of the fields that the block's digest covers:
    /// every field but the digest.
    pub open spec fn canonical_bytes(self) -> Seq<u8> {
        seal_bytes(
            self.index,
            self.prev_hash@,
            self.transactions@,
            self.nonce,
            self.timestamp,
            self.difficulty,
        )
    }

    /// The digest of the block's canonical encoding.
    pub open spec fn digest(self) -> Seq<char> {
        sha256_hex_of(self.canonical_bytes())
    }

    /// The block carries the digest of its canonical encoding, and that
    /// digest meets the block's difficulty.
    pub open spec fn is_sealed(self) -> bool {
        &&& self.hash@ == self.digest()
        &&& is_hex_digest(self.hash@)
        &&& has_zero_prefix(self.hash@, self.difficulty as nat)
    }

    /// The nonce `n` failed for a block with the fields of `self`.
    pub open spec fn failed(self, n: u32) -> bool {
        nonce_failed(self.index, self.prev_hash@, self.transactions@, n, self.difficulty)
    }

    /// Builds the block that follows the block `prevblock_index` (whose digest
    /// is `prevblock_hash`) with the given transactions, and seals it with
    /// `proof_of_work`, starting from nonce 0. Where no nonce works there is no
    /// block; with difficulty 0 the first attempt works.
    pub fn new<C: Fn() -> i64>(
        prevblock_hash: String,
        prevblock_index: u32,
        transactions: Vec<Transaction>,
        difficulty: usize,
        clock: &C,
    ) -> (r: Option<Block>)
        requires
            prevblock_index < u32::MAX,
            clock.requires(()),
        ensures
            match r {
                Some(b) => {
                    &&& b.index == prevblock_index + 1
                    &&& b.prev_hash@ == prevblock_hash@
                    &&& b.transactions@ == transactions@
                    &&& b.difficulty == difficulty
                    &&& b.is_sealed()
                    &&& forall|n: u32| n < b.nonce ==> b.failed(n)
                },
                None => forall|n: u32|
                    #[trigger] nonce_failed(
                        (prevblock_index + 1) as u32,
                        prevblock_hash@,
                        transactions@,
                        n,
                        difficulty,
                    ),
            },
            difficulty == 0 ==> (r matches Some(b) && b.nonce == 0),
    {
        let mut block = Block {
            index: prevblock_index + 1,
            hash: String::new(),
            prev_hash: prevblock_hash,
            transactions,
            nonce: 0,
            timestamp: 0,
            difficulty,
        };
        let ghost initial = block;
        if block.proof_of_work(clock) {
            Some(block)
        } else {
            proof {
                assert forall|n: u32|
                    #[trigger] nonce_failed(
                        (prevblock_index + 1) as u32,
                        prevblock_hash@,
                        transactions@,
                        n,
                        difficulty,
                    ) by {
                    assert(initial.failed(n));
                }
            }
            None
        }
    }

    /// The digest of the block's canonical encoding.
    pub fn prepare_hash(&self) -> (r: String)
        ensures
            r@ == self.digest(),
            is_hex_digest(r@),
    {
        let mut bytes = encode_seal_head(self.index, self.prev_hash.as_str(), &self.transactions);
        put_u32(&mut bytes, self.nonce);
        put_i64(&mut bytes, self.timestamp);
        put_u64(&mut bytes, self.difficulty as u64);
        assert(bytes@ =~= self.canonical_bytes());
        sha256_hex(&bytes)
    }

    /// The text that the digest of a sealed block begins with.
    pub fn hash_starts_with(&self) -> (r: String)
        ensures
            r@ == zero_prefix(self.difficulty as nat),
    {
        zeros(self.difficulty)
    }

    /// Searches the nonces upwards from the block's own. Each attempt reads
    /// `clock` and stamps the block with that time, which the digest covers.
    /// On the first attempt whose digest meets the block's difficulty the
    /// block keeps that nonce, time and digest, and `true` is returned; when
    /// every nonce up to the largest fails, `false` is returned and the
    /// digest is left as it was. With difficulty 0 the first attempt works.
    pub fn proof_of_work<C: Fn() -> i64>(&mut self, clock: &C) -> (found: bool)
        requires
            clock.requires(()),
        ensures
            final(self).index == old(self).index,
            final(self).prev_hash == old(self).prev_hash,
            final(self).transactions == old(self).transactions,
            final(self).difficulty == old(self).difficulty,
            final(self).nonce >= old(self).nonce,
            forall|n: u32| old(self).nonce <= n < final(self).nonce ==> final(self).failed(n),
            found ==> final(self).is_sealed(),
            !found ==> final(self).hash == old(self).hash,
            !found ==> forall|n: u32| old(self).nonce <= n ==> old(self).failed(n),
            old(self).difficulty == 0 ==> found && final(self).nonce == old(self).nonce,
    {
        let head = encode_seal_head(self.index, self.prev_hash.as_str(), &self.transactions);
        let start = self.nonce;
        let mut nonce: u32 = start;
        loop
            invariant
                clock.requires(()),
                head@ == seal_head(self.index, self.prev_hash@, self.transactions@),
                *self == *old(self),
                start == old(self).nonce,
                start <= nonce,
                forall|n: u32| start <= n < nonce ==> self.failed(n),
                self.difficulty == 0 ==> nonce == start,
            decreases u32::MAX - nonce,
        {
            let now = clock();
            let mut bytes = head.clone();
            assert(bytes@ =~= head@);
            put_u32(&mut bytes, nonce);
            put_i64(&mut bytes, now);
            put_u64(&mut bytes, self.difficulty as u64);
            assert(bytes@ =~= seal_bytes(
                self.index,
                self.prev_hash@,
                self.transactions@,
                nonce,
                now,
                self.difficulty,
            ));
            let hash = sha256_hex(&bytes);
            if meets_difficulty(hash.as_str(), self.difficulty) {
                let ghost before = *self;
                self.nonce = nonce;
                self.hash = hash;
                self.timestamp = now;
                assert forall|n: u32| start <= n < self.nonce implies self.failed(n) by {
                    assert(before.failed(n));
                }
                return true;
            }
            assert(!nonce_meets(
                self.index,
                self.prev_hash@,
                self.transactions@,
                nonce,
                now,
                self.difficulty,
            ));
            assert(self.failed(nonce));
            if nonce == u32::MAX {
                assert forall|n: u32| start <= n implies old(self).failed(n) by {
                    if n < nonce {
                        assert(self.failed(n));
                    } else {
                        assert(n == nonce);
                    }
                }
                return false;
            }
            nonce = nonce + 1;
        }
    }
}

/// Proof-of-work validity: a sealed block (and any copy of it) carries a
/// digest that begins with `difficulty` zeros, and hashing its canonical
/// encoding again gives that digest back.
pub proof fn lemma_sealed_block_rehashes(b: Block, copy: Block)
    requires
        b.is_sealed(),
        copy.same_as(b),
    ensures
        sha256_hex_of(b.canonical_bytes()) == b.hash@,
        has_zero_prefix(b.hash@, b.difficulty as nat),
        b.hash@.subrange(0, b.difficulty as int) == zero_prefix(b.difficulty as nat),
        copy.is_sealed(),
{
    assert(b.hash@.subrange(0, b.difficulty as int) =~= zero_prefix(b.difficulty as nat));
}

} // verus!
