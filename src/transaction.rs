//! Transfers between addresses, and what they do to an address's balance.
use vstd::prelude::*;

verus! {

/// A transfer of `amount` units from the address `from` to the address `to`.
pub struct Transaction {
    pub from: String,
    pub to: String,
    pub amount: u64,
}

impl Clone for Transaction {
    fn clone(&self) -> (r: Self)
        ensures
            r == *self,
    {
        Transaction { from: self.from.clone(), to: self.to.clone(), amount: self.amount }
    }
}

/// What `t` adds to the balance of `address`: its amount when the address
/// receives, less its amount when the address sends (so a transfer to
/// oneself changes nothing).
pub open spec fn delta(t: Transaction, address: Seq<char>) -> int {
    (if t.to@ == address {
        t.amount as int
    } else {
        0
    }) - (if t.from@ == address {
        t.amount as int
    } else {
        0
    })
}

/// The net effect of a sequence of transactions on the balance of `address`.
pub open spec fn txs_balance(txs: Seq<Transaction>, address: Seq<char>) -> int
    decreases txs.len(),
{
    if txs.len() == 0 {
        0
    } else {
        txs_balance(txs.drop_last(), address) + delta(txs.last(), address)
    }
}

/// The sum of the amounts of a sequence of transactions.
pub open spec fn txs_volume(txs: Seq<Transaction>) -> int
    decreases txs.len(),
{
    if txs.len() == 0 {
        0
    } else {
        txs_volume(txs.drop_last()) + txs.last().amount
    }
}

/// A balance moves by no more than the volume that produced it.
pub proof fn lemma_txs_balance_bounded(txs: Seq<Transaction>, address: Seq<char>)
    ensures
        -txs_volume(txs) <= txs_balance(txs, address) <= txs_volume(txs),
        txs_volume(txs) >= 0,
    decreases txs.len(),
{
    if txs.len() > 0 {
        lemma_txs_balance_bounded(txs.drop_last(), address);
    }
}

} // verus!
