//! The byte encoding of the ledger's values: integers in little-endian order,
//! texts and lists behind a 64-bit length, records as the concatenation of
//! their fields. Blocks are hashed and stored in this encoding, and peers
//! exchange messages in it.
use vstd::prelude::*;
use vstd::utf8::{decode_utf8, encode_utf8, encode_utf8_valid_utf8, valid_utf8};
use crate::actions::{BlockSyncMeta, GossipsubEvent, SendTransactionMeta};
use crate::block::Block;
use crate::errors::BlockError;
use crate::transaction::Transaction;

verus! {

/// A `u32` in four bytes, least significant first.
pub open spec fn u32_le(x: u32) -> Seq<u8> {
    seq![x as u8, (x >> 8u32) as u8, (x >> 16u32) as u8, (x >> 24u32) as u8]
}

/// A `u64` in eight bytes, least significant first.
pub open spec fn u64_le(x: u64) -> Seq<u8> {
    seq![
        x as u8,
        (x >> 8u64) as u8,
        (x >> 16u64) as u8,
        (x >> 24u64) as u8,
        (x >> 32u64) as u8,
        (x >> 40u64) as u8,
        (x >> 48u64) as u8,
        (x >> 56u64) as u8,
    ]
}

/// An `i32` as the `u32` with the same bits.
pub open spec fn i32_le(x: i32) -> Seq<u8> {
    u32_le(x as u32)
}

/// An `i64` as the `u64` with the same bits.
pub open spec fn i64_le(x: i64) -> Seq<u8> {
    u64_le(x as u64)
}

/// A text: the length of its UTF-8 form, then that form.
pub open spec fn text_bytes(s: Seq<char>) -> Seq<u8> {
    u64_le(encode_utf8(s).len() as u64) + encode_utf8(s)
}

/// A transaction: sender, receiver, amount.
pub open spec fn tx_bytes(t: Transaction) -> Seq<u8> {
    text_bytes(t.from@) + text_bytes(t.to@) + u64_le(t.amount)
}

/// The transactions of a list, one after the other.
pub open spec fn tx_items(txs: Seq<Transaction>) -> Seq<u8>
    decreases txs.len(),
{
    if txs.len() == 0 {
        Seq::empty()
    } else {
        tx_items(txs.drop_last()) + tx_bytes(txs.last())
    }
}

/// A list of transactions: its length, then its items.
pub open spec fn txs_bytes(txs: Seq<Transaction>) -> Seq<u8> {
    u64_le(txs.len() as u64) + tx_items(txs)
}

/// The fields that a block's digest covers: all but the digest itself.
pub open spec fn seal_bytes(
    index: u32,
    prev_hash: Seq<char>,
    txs: Seq<Transaction>,
    nonce: u32,
    timestamp: i64,
    difficulty: usize,
) -> Seq<u8> {
    u32_le(index) + text_bytes(prev_hash) + txs_bytes(txs) + u32_le(nonce) + i64_le(timestamp)
        + u64_le(difficulty as u64)
}

/// The part of `seal_bytes` that does not change from one sealing attempt to
/// the next.
pub open spec fn seal_head(index: u32, prev_hash: Seq<char>, txs: Seq<Transaction>) -> Seq<u8> {
    u32_le(index) + text_bytes(prev_hash) + txs_bytes(txs)
}

/// The leading fields of a block record.
pub open spec fn head_bytes(
    index: u32,
    hash: Seq<char>,
    prev_hash: Seq<char>,
    txs: Seq<Transaction>,
) -> Seq<u8> {
    u32_le(index) + text_bytes(hash) + text_bytes(prev_hash) + txs_bytes(txs)
}

/// The trailing fields of a block record.
pub open spec fn foot_bytes(nonce: u32, timestamp: i64, difficulty: usize) -> Seq<u8> {
    u32_le(nonce) + i64_le(timestamp) + u64_le(difficulty as u64)
}

/// The stored record of a block: every field, in declaration order.
pub open spec fn block_bytes(b: Block) -> Seq<u8> {
    head_bytes(b.index, b.hash@, b.prev_hash@, b.transactions@) + foot_bytes(
        b.nonce,
        b.timestamp,
        b.difficulty,
    )
}

/// A message between peers: a tag (0 for a block, 1 for a transaction), then
/// the fields of the variant.
pub open spec fn message_bytes(m: GossipsubEvent) -> Seq<u8> {
    match m {
        GossipsubEvent::SyncNetworkBlock(meta) => u32_le(0) + i32_le(meta.key) + block_bytes(
            meta.block,
        ),
        GossipsubEvent::SendNetworkTransaction(meta) => u32_le(1) + text_bytes(meta.from@)
            + text_bytes(meta.to@) + u64_le(meta.amount),
    }
}

/// `a` is the beginning of `b`.
pub open spec fn is_prefix(a: Seq<u8>, b: Seq<u8>) -> bool {
    a.len() <= b.len() && b.subrange(0, a.len() as int) == a
}

/// The bytes of `data` from `pos` on.
pub open spec fn tail(data: Seq<u8>, pos: int) -> Seq<u8> {
    data.subrange(pos, data.len() as int)
}

/// Appends the encoding of a `u32`.
pub fn put_u32(out: &mut Vec<u8>, x: u32)
    ensures
        final(out)@ == old(out)@ + u32_le(x),
{
    out.push(x as u8);
    out.push((x >> 8u32) as u8);
    out.push((x >> 16u32) as u8);
    out.push((x >> 24u32) as u8);
    assert(out@ =~= old(out)@ + u32_le(x));
}

/// Appends the encoding of a `u64`.
pub fn put_u64(out: &mut Vec<u8>, x: u64)
    ensures
        final(out)@ == old(out)@ + u64_le(x),
{
    out.push(x as u8);
    out.push((x >> 8u64) as u8);
    out.push((x >> 16u64) as u8);
    out.push((x >> 24u64) as u8);
    out.push((x >> 32u64) as u8);
    out.push((x >> 40u64) as u8);
    out.push((x >> 48u64) as u8);
    out.push((x >> 56u64) as u8);
    assert(out@ =~= old(out)@ + u64_le(x));
}

/// Appends the encoding of an `i32`.
pub fn put_i32(out: &mut Vec<u8>, x: i32)
    ensures
        final(out)@ == old(out)@ + i32_le(x),
{
    put_u32(out, x as u32);
}

/// Appends the encoding of an `i64`.
pub fn put_i64(out: &mut Vec<u8>, x: i64)
    ensures
        final(out)@ == old(out)@ + i64_le(x),
{
    put_u64(out, x as u64);
}

/// Appends the encoding of a text.
pub fn put_text(out: &mut Vec<u8>, s: &str)
    ensures
        final(out)@ == old(out)@ + text_bytes(s@),
{
    let bytes = s.as_bytes();
    let n = bytes.len();
    put_u64(out, n as u64);
    let ghost start = out@;
    let mut i: usize = 0;
    while i < n
        invariant
            n == bytes@.len(),
            bytes@ == encode_utf8(s@),
            i <= n,
            out@ == start + bytes@.subrange(0, i as int),
        decreases n - i,
    {
        out.push(bytes[i]);
        i = i + 1;
        assert(out@ =~= start + bytes@.subrange(0, i as int));
    }
    assert(bytes@.subrange(0, n as int) =~= bytes@);
}

/// Appends the encoding of a transaction.
pub fn put_transaction(out: &mut Vec<u8>, t: &Transaction)
    ensures
        final(out)@ == old(out)@ + tx_bytes(*t),
{
    put_text(out, t.from.as_str());
    put_text(out, t.to.as_str());
    put_u64(out, t.amount);
    assert(out@ =~= old(out)@ + tx_bytes(*t));
}

/// Appends the encoding of a list of transactions.
pub fn put_transactions(out: &mut Vec<u8>, txs: &Vec<Transaction>)
    ensures
        final(out)@ == old(out)@ + txs_bytes(txs@),
{
    let n = txs.len();
    put_u64(out, n as u64);
    let ghost start = out@;
    let mut i: usize = 0;
    while i < n
        invariant
            n == txs@.len(),
            i <= n,
            out@ == start + tx_items(txs@.subrange(0, i as int)),
        decreases n - i,
    {
        put_transaction(out, &txs[i]);
        i = i + 1;
        assert(txs@.subrange(0, i as int).drop_last() =~= txs@.subrange(0, i - 1));
        assert(out@ =~= start + tx_items(txs@.subrange(0, i as int)));
    }
    assert(txs@.subrange(0, n as int) =~= txs@);
    assert(out@ =~= old(out)@ + txs_bytes(txs@));
}

/// The encoding of the fields that a block's digest covers, up to the
/// transactions.
pub fn encode_seal_head(index: u32, prev_hash: &str, txs: &Vec<Transaction>) -> (r: Vec<u8>)
    ensures
        r@ == seal_head(index, prev_hash@, txs@),
{
    let mut out: Vec<u8> = Vec::new();
    put_u32(&mut out, index);
    put_text(&mut out, prev_hash);
    put_transactions(&mut out, txs);
    assert(out@ =~= seal_head(index, prev_hash@, txs@));
    out
}

/// The stored record of a block.
pub fn encode_block(b: &Block) -> (r: Vec<u8>)
    ensures
        r@ == block_bytes(*b),
{
    let mut out: Vec<u8> = Vec::new();
    put_block(&mut out, b);
    assert(out@ =~= block_bytes(*b));
    out
}

/// Appends the record of a block.
pub fn put_block(out: &mut Vec<u8>, b: &Block)
    ensures
        final(out)@ == old(out)@ + block_bytes(*b),
{
    put_u32(out, b.index);
    put_text(out, b.hash.as_str());
    put_text(out, b.prev_hash.as_str());
    put_transactions(out, &b.transactions);
    put_u32(out, b.nonce);
    put_i64(out, b.timestamp);
    put_u64(out, b.difficulty as u64);
    assert(out@ =~= old(out)@ + block_bytes(*b));
}


/// Encodes a message between peers.
pub fn encode_message(m: &GossipsubEvent) -> (r: Vec<u8>)
    ensures
        r@ == message_bytes(*m),
{
    let mut out: Vec<u8> = Vec::new();
    match m {
        GossipsubEvent::SyncNetworkBlock(meta) => {
            put_u32(&mut out, 0);
            put_i32(&mut out, meta.key);
            put_block(&mut out, &meta.block);
        },
        GossipsubEvent::SendNetworkTransaction(meta) => {
            put_u32(&mut out, 1);
            put_text(&mut out, meta.from.as_str());
            put_text(&mut out, meta.to.as_str());
            put_u64(&mut out, meta.amount);
        },
    }
    assert(out@ =~= message_bytes(*m));
    out
}

proof fn lemma_u32_bytes(b0: u8, b1: u8, b2: u8, b3: u8)
    by (bit_vector)
    ensures
        ({
            let v = (b0 as u32) | ((b1 as u32) << 8u32) | ((b2 as u32) << 16u32) | ((b3 as u32)
                << 24u32);
            &&& v as u8 == b0
            &&& (v >> 8u32) as u8 == b1
            &&& (v >> 16u32) as u8 == b2
            &&& (v >> 24u32) as u8 == b3
        }),
{
}

proof fn lemma_u64_bytes(b0: u8, b1: u8, b2: u8, b3: u8, b4: u8, b5: u8, b6: u8, b7: u8)
    by (bit_vector)
    ensures
        ({
            let v = (b0 as u64) | ((b1 as u64) << 8u64) | ((b2 as u64) << 16u64) | ((b3 as u64)
                << 24u64) | ((b4 as u64) << 32u64) | ((b5 as u64) << 40u64) | ((b6 as u64)
                << 48u64) | ((b7 as u64) << 56u64);
            &&& v as u8 == b0
            &&& (v >> 8u64) as u8 == b1
            &&& (v >> 16u64) as u8 == b2
            &&& (v >> 24u64) as u8 == b3
            &&& (v >> 32u64) as u8 == b4
            &&& (v >> 40u64) as u8 == b5
            &&& (v >> 48u64) as u8 == b6
            &&& (v >> 56u64) as u8 == b7
        }),
{
}

proof fn lemma_u64_bytes_injective(a: u64, b: u64)
    by (bit_vector)
    requires
        a as u8 == b as u8,
        (a >> 8u64) as u8 == (b >> 8u64) as u8,
        (a >> 16u64) as u8 == (b >> 16u64) as u8,
        (a >> 24u64) as u8 == (b >> 24u64) as u8,
        (a >> 32u64) as u8 == (b >> 32u64) as u8,
        (a >> 40u64) as u8 == (b >> 40u64) as u8,
        (a >> 48u64) as u8 == (b >> 48u64) as u8,
        (a >> 56u64) as u8 == (b >> 56u64) as u8,
    ensures
        a == b,
{
}

proof fn lemma_u64_le_injective(a: u64, b: u64)
    requires
        u64_le(a) == u64_le(b),
    ensures
        a == b,
{
    assert(u64_le(a)[0] == u64_le(b)[0]);
    assert(u64_le(a)[1] == u64_le(b)[1]);
    assert(u64_le(a)[2] == u64_le(b)[2]);
    assert(u64_le(a)[3] == u64_le(b)[3]);
    assert(u64_le(a)[4] == u64_le(b)[4]);
    assert(u64_le(a)[5] == u64_le(b)[5]);
    assert(u64_le(a)[6] == u64_le(b)[6]);
    assert(u64_le(a)[7] == u64_le(b)[7]);
    lemma_u64_bytes_injective(a, b);
}

/// Reads a `u32` at `pos`.
pub fn take_u32(data: &[u8], pos: usize) -> (r: Option<(u32, usize)>)
    requires
        pos <= data@.len(),
    ensures
        r is None <==> data@.len() < pos + 4,
        r matches Some((v, p)) ==> p == pos + 4 && data@.subrange(pos as int, p as int) == u32_le(v),
{
    if data.len() - pos < 4 {
        return None;
    }
    let v = (data[pos] as u32) | ((data[pos + 1] as u32) << 8u32) | ((data[pos + 2] as u32)
        << 16u32) | ((data[pos + 3] as u32) << 24u32);
    proof {
        lemma_u32_bytes(data@[pos as int], data@[pos + 1], data@[pos + 2], data@[pos + 3]);
        assert(data@.subrange(pos as int, pos + 4) =~= u32_le(v));
    }
    Some((v, pos + 4))
}

/// Reads a `u64` at `pos`.
pub fn take_u64(data: &[u8], pos: usize) -> (r: Option<(u64, usize)>)
    requires
        pos <= data@.len(),
    ensures
        r is None <==> data@.len() < pos + 8,
        r matches Some((v, p)) ==> p == pos + 8 && data@.subrange(pos as int, p as int) == u64_le(v),
{
    if data.len() - pos < 8 {
        return None;
    }
    let v = (data[pos] as u64) | ((data[pos + 1] as u64) << 8u64) | ((data[pos + 2] as u64)
        << 16u64) | ((data[pos + 3] as u64) << 24u64) | ((data[pos + 4] as u64) << 32u64) | ((
    data[pos + 5] as u64) << 40u64) | ((data[pos + 6] as u64) << 48u64) | ((data[pos + 7] as u64)
        << 56u64);
    proof {
        lemma_u64_bytes(
            data@[pos as int],
            data@[pos + 1],
            data@[pos + 2],
            data@[pos + 3],
            data@[pos + 4],
            data@[pos + 5],
            data@[pos + 6],
            data@[pos + 7],
        );
        assert(data@.subrange(pos as int, pos + 8) =~= u64_le(v));
    }
    Some((v, pos + 8))
}

/// Relies on `String::from_utf8`: it accepts exactly the well-formed UTF-8
/// byte sequences, and returns the text whose UTF-8 form they are.
#[verifier::external_body]
fn utf8_text(bytes: Vec<u8>) -> (r: Option<String>)
    ensures
        r is Some <==> valid_utf8(bytes@),
        r matches Some(s) ==> s@ == decode_utf8(bytes@),
{
    String::from_utf8(bytes).ok()
}

/// Reads a text at `pos`.
pub fn take_text(data: &[u8], pos: usize) -> (r: Option<(String, usize)>)
    requires
        pos <= data@.len(),
    ensures
        r matches Some((s, p)) ==> pos <= p <= data@.len() && data@.subrange(pos as int, p as int)
            == text_bytes(s@),
        forall|c: Seq<char>|
            is_prefix(#[trigger] text_bytes(c), tail(data@, pos as int)) ==> (r matches Some((s, p))
                && p == pos + text_bytes(c).len()),
{
    let (n, start) = match take_u64(data, pos) {
        Some(x) => x,
        None => {
            assert forall|c: Seq<char>| !is_prefix(#[trigger] text_bytes(c), tail(data@, pos as int)) by {
            }
            return None;
        },
    };
    if n > (data.len() - start) as u64 {
        proof {
            assert forall|c: Seq<char>| !is_prefix(#[trigger] text_bytes(c), tail(data@, pos as int)) by {
                if is_prefix(text_bytes(c), tail(data@, pos as int)) {
                    assert(tail(data@, pos as int).subrange(0, 8) =~= data@.subrange(pos as int, pos + 8));
                    assert(text_bytes(c).subrange(0, 8) =~= u64_le(encode_utf8(c).len() as u64));
                    lemma_u64_le_injective(n, encode_utf8(c).len() as u64);
                }
            }
        }
        return None;
    }
    let end = start + n as usize;
    let mut bytes: Vec<u8> = Vec::new();
    let mut i: usize = start;
    while i < end
        invariant
            start <= i <= end <= data@.len(),
            bytes@ == data@.subrange(start as int, i as int),
        decreases end - i,
    {
        bytes.push(data[i]);
        i = i + 1;
        assert(bytes@ =~= data@.subrange(start as int, i as int));
    }
    let ghost raw = bytes@;
    match utf8_text(bytes) {
        Some(s) => {
            proof {
                vstd::utf8::decode_utf8_encode_utf8(raw);
                assert(data@.subrange(pos as int, end as int) =~= u64_le(n) + raw);
                assert forall|c: Seq<char>|
                    is_prefix(#[trigger] text_bytes(c), tail(data@, pos as int)) implies end == pos
                    + text_bytes(c).len() by {
                    assert(tail(data@, pos as int).subrange(0, 8) =~= data@.subrange(pos as int, pos + 8));
                    assert(text_bytes(c).subrange(0, 8) =~= u64_le(encode_utf8(c).len() as u64));
                    lemma_u64_le_injective(n, encode_utf8(c).len() as u64);
                }
            }
            Some((s, end))
        },
        None => {
            proof {
                assert forall|c: Seq<char>| !is_prefix(#[trigger] text_bytes(c), tail(data@, pos as int)) by {
                    if is_prefix(text_bytes(c), tail(data@, pos as int)) {
                        assert(tail(data@, pos as int).subrange(0, 8) =~= data@.subrange(pos as int, pos + 8));
                        assert(text_bytes(c).subrange(0, 8) =~= u64_le(encode_utf8(c).len() as u64));
                        lemma_u64_le_injective(n, encode_utf8(c).len() as u64);
                        assert(text_bytes(c).subrange(8, text_bytes(c).len() as int) =~= encode_utf8(c));
                        assert(raw =~= encode_utf8(c));
                        encode_utf8_valid_utf8(c);
                    }
                }
            }
            None
        },
    }
}


proof fn lemma_prefix_concat(a: Seq<u8>, b: Seq<u8>, data: Seq<u8>, pos: int)
    requires
        0 <= pos <= data.len(),
        is_prefix(a + b, tail(data, pos)),
    ensures
        is_prefix(a, tail(data, pos)),
        is_prefix(b, tail(data, pos + a.len())),
{
    assert((a + b).subrange(0, a.len() as int) =~= a);
    assert(tail(data, pos).subrange(0, a.len() as int) =~= tail(data, pos).subrange(
        0,
        (a + b).len() as int,
    ).subrange(0, a.len() as int));
    assert(tail(data, pos + a.len()).subrange(0, b.len() as int) =~= tail(data, pos).subrange(
        0,
        (a + b).len() as int,
    ).subrange(a.len() as int, (a + b).len() as int));
    assert((a + b).subrange(a.len() as int, (a + b).len() as int) =~= b);
}

proof fn lemma_tx_prefix(x: Transaction, data: Seq<u8>, pos: int)
    requires
        0 <= pos <= data.len(),
        is_prefix(tx_bytes(x), tail(data, pos)),
    ensures
        is_prefix(text_bytes(x.from@), tail(data, pos)),
        is_prefix(text_bytes(x.to@), tail(data, pos + text_bytes(x.from@).len())),
        is_prefix(
            u64_le(x.amount),
            tail(data, pos + text_bytes(x.from@).len() + text_bytes(x.to@).len()),
        ),
{
    let a = text_bytes(x.from@);
    let b = text_bytes(x.to@);
    lemma_prefix_concat(a + b, u64_le(x.amount), data, pos);
    lemma_prefix_concat(a, b, data, pos);
}

/// Reads a transaction at `pos`.
pub fn take_transaction(data: &[u8], pos: usize) -> (r: Option<(Transaction, usize)>)
    requires
        pos <= data@.len(),
    ensures
        r matches Some((t, p)) ==> pos <= p <= data@.len() && data@.subrange(pos as int, p as int)
            == tx_bytes(t),
        forall|x: Transaction|
            is_prefix(#[trigger] tx_bytes(x), tail(data@, pos as int)) ==> (r matches Some((t, p))
                && p == pos + tx_bytes(x).len()),
{
    let (from, pos1) = match take_text(data, pos) {
        Some(x) => x,
        None => {
            proof {
                assert forall|x: Transaction| !is_prefix(#[trigger] tx_bytes(x), tail(data@, pos as int)) by {
                    if is_prefix(tx_bytes(x), tail(data@, pos as int)) {
                        lemma_tx_prefix(x, data@, pos as int);
                    }
                }
            }
            return None;
        },
    };
    let (to, pos2) = match take_text(data, pos1) {
        Some(x) => x,
        None => {
            proof {
                assert forall|x: Transaction| !is_prefix(#[trigger] tx_bytes(x), tail(data@, pos as int)) by {
                    if is_prefix(tx_bytes(x), tail(data@, pos as int)) {
                        lemma_tx_prefix(x, data@, pos as int);
                    }
                }
            }
            return None;
        },
    };
    let (amount, pos3) = match take_u64(data, pos2) {
        Some(x) => x,
        None => {
            proof {
                assert forall|x: Transaction| !is_prefix(#[trigger] tx_bytes(x), tail(data@, pos as int)) by {
                    if is_prefix(tx_bytes(x), tail(data@, pos as int)) {
                        lemma_tx_prefix(x, data@, pos as int);
                    }
                }
            }
            return None;
        },
    };
    let t = Transaction { from, to, amount };
    proof {
        assert(data@.subrange(pos as int, pos3 as int) =~= data@.subrange(pos as int, pos1 as int)
            + data@.subrange(pos1 as int, pos2 as int) + data@.subrange(pos2 as int, pos3 as int));
        assert forall|x: Transaction|
            is_prefix(#[trigger] tx_bytes(x), tail(data@, pos as int)) implies pos3 == pos + tx_bytes(
            x,
        ).len() by {
            lemma_tx_prefix(x, data@, pos as int);
        }
    }
    Some((t, pos3))
}

proof fn lemma_tx_items_len(xs: Seq<Transaction>)
    ensures
        tx_items(xs).len() >= xs.len(),
    decreases xs.len(),
{
    if xs.len() > 0 {
        lemma_tx_items_len(xs.drop_last());
    }
}

proof fn lemma_tx_items_prefix(xs: Seq<Transaction>, i: int)
    requires
        0 <= i <= xs.len(),
    ensures
        tx_items(xs) == tx_items(xs.subrange(0, i)) + tx_items(xs.subrange(i, xs.len() as int)),
    decreases xs.len() - i,
{
    if i < xs.len() {
        lemma_tx_items_prefix(xs, i + 1);
        lemma_tx_items_split_first(xs.subrange(i, xs.len() as int));
        assert(xs.subrange(0, i + 1).drop_last() =~= xs.subrange(0, i));
        assert(xs.subrange(i, xs.len() as int).subrange(1, xs.len() - i) =~= xs.subrange(
            i + 1,
            xs.len() as int,
        ));
        assert(tx_items(xs) =~= tx_items(xs.subrange(0, i)) + tx_items(
            xs.subrange(i, xs.len() as int),
        ));
    } else {
        assert(xs.subrange(0, i) =~= xs);
        assert(xs.subrange(i, xs.len() as int) =~= Seq::<Transaction>::empty());
        assert(tx_items(Seq::<Transaction>::empty()) =~= Seq::<u8>::empty());
        assert(tx_items(xs) + Seq::<u8>::empty() =~= tx_items(xs));
    }
}

proof fn lemma_tx_items_split_first(xs: Seq<Transaction>)
    requires
        xs.len() > 0,
    ensures
        tx_items(xs) == tx_bytes(xs[0]) + tx_items(xs.subrange(1, xs.len() as int)),
    decreases xs.len(),
{
    if xs.len() == 1 {
        assert(xs.drop_last() =~= Seq::<Transaction>::empty());
        assert(xs.subrange(1, 1) =~= Seq::<Transaction>::empty());
        assert(tx_items(Seq::<Transaction>::empty()) =~= Seq::<u8>::empty());
        assert(tx_items(xs) =~= tx_bytes(xs[0]) + tx_items(xs.subrange(1, xs.len() as int)));
    } else {
        lemma_tx_items_split_first(xs.drop_last());
        assert(xs.drop_last().subrange(1, xs.len() - 1) =~= xs.subrange(1, xs.len() as int).drop_last());
        assert(tx_items(xs) =~= tx_bytes(xs[0]) + tx_items(xs.subrange(1, xs.len() as int)));
    }
}

proof fn lemma_item_at(xs: Seq<Transaction>, i: int, data: Seq<u8>, start: int)
    requires
        0 <= i < xs.len(),
        0 <= start <= data.len(),
        is_prefix(tx_items(xs), tail(data, start)),
    ensures
        is_prefix(tx_bytes(xs[i]), tail(data, start + tx_items(xs.subrange(0, i)).len())),
        tx_items(xs.subrange(0, i + 1)) == tx_items(xs.subrange(0, i)) + tx_bytes(xs[i]),
{
    lemma_tx_items_prefix(xs, i);
    let rest = xs.subrange(i, xs.len() as int);
    lemma_tx_items_split_first(rest);
    assert(rest[0] == xs[i]);
    assert(tx_items(xs) =~= tx_items(xs.subrange(0, i)) + (tx_bytes(xs[i]) + tx_items(
        rest.subrange(1, rest.len() as int),
    )));
    lemma_prefix_concat(
        tx_items(xs.subrange(0, i)),
        tx_bytes(xs[i]) + tx_items(rest.subrange(1, rest.len() as int)),
        data,
        start,
    );
    lemma_prefix_concat(
        tx_bytes(xs[i]),
        tx_items(rest.subrange(1, rest.len() as int)),
        data,
        start + tx_items(xs.subrange(0, i)).len(),
    );
    assert(xs.subrange(0, i + 1).drop_last() =~= xs.subrange(0, i));
}

/// Reads a list of transactions at `pos`.
pub fn take_transactions(data: &[u8], pos: usize) -> (r: Option<(Vec<Transaction>, usize)>)
    requires
        pos <= data@.len(),
    ensures
        r matches Some((ts, p)) ==> pos <= p <= data@.len() && data@.subrange(pos as int, p as int)
            == txs_bytes(ts@),
        forall|xs: Seq<Transaction>|
            is_prefix(#[trigger] txs_bytes(xs), tail(data@, pos as int)) ==> (r matches Some((ts, p))
                && p == pos + txs_bytes(xs).len()),
{
    let (count, start) = match take_u64(data, pos) {
        Some(x) => x,
        None => {
            proof {
                assert forall|xs: Seq<Transaction>| !is_prefix(#[trigger] txs_bytes(xs), tail(data@, pos as int)) by {
                    if is_prefix(txs_bytes(xs), tail(data@, pos as int)) {
                        lemma_prefix_concat(u64_le(xs.len() as u64), tx_items(xs), data@, pos as int);
                    }
                }
            }
            return None;
        },
    };
    let dlen = data.len();
    proof {
        assert forall|xs: Seq<Transaction>|
            is_prefix(#[trigger] txs_bytes(xs), tail(data@, pos as int)) implies xs.len() == count
            && is_prefix(tx_items(xs), tail(data@, start as int)) by {
            lemma_prefix_concat(u64_le(xs.len() as u64), tx_items(xs), data@, pos as int);
            lemma_tx_items_len(xs);
            assert(xs.len() <= dlen);
            assert(tail(data@, pos as int).subrange(0, 8) =~= data@.subrange(pos as int, pos + 8));
            lemma_u64_le_injective(count, xs.len() as u64);
        }
    }
    let mut out: Vec<Transaction> = Vec::new();
    let mut p: usize = start;
    let mut i: u64 = 0;
    while i < count
        invariant
            start == pos + 8,
            start <= p <= data@.len(),
            i <= count,
            out@.len() == i,
            data@.subrange(start as int, p as int) == tx_items(out@),
            forall|xs: Seq<Transaction>|
                is_prefix(#[trigger] txs_bytes(xs), tail(data@, pos as int)) ==> xs.len() == count
                    && is_prefix(tx_items(xs), tail(data@, start as int)) && tx_items(
                    xs.subrange(0, i as int),
                ) == tx_items(out@),
        decreases count - i,
    {
        match take_transaction(data, p) {
            Some((t, q)) => {
                proof {
                    assert forall|xs: Seq<Transaction>|
                        is_prefix(#[trigger] txs_bytes(xs), tail(data@, pos as int)) implies tx_items(
                        xs.subrange(0, i + 1),
                    ) == tx_items(out@.push(t)) by {
                        lemma_item_at(xs, i as int, data@, start as int);
                        assert(out@.push(t).drop_last() =~= out@);
                    }
                    assert(out@.push(t).drop_last() =~= out@);
                    assert(data@.subrange(start as int, q as int) =~= data@.subrange(
                        start as int,
                        p as int,
                    ) + data@.subrange(p as int, q as int));
                }
                out.push(t);
                p = q;
                i = i + 1;
            },
            None => {
                proof {
                    assert forall|xs: Seq<Transaction>| !is_prefix(#[trigger] txs_bytes(xs), tail(data@, pos as int)) by {
                        if is_prefix(txs_bytes(xs), tail(data@, pos as int)) {
                            lemma_item_at(xs, i as int, data@, start as int);
                        }
                    }
                }
                return None;
            },
        }
    }
    proof {
        assert(data@.subrange(pos as int, p as int) =~= data@.subrange(pos as int, start as int)
            + data@.subrange(start as int, p as int));
        assert forall|xs: Seq<Transaction>|
            is_prefix(#[trigger] txs_bytes(xs), tail(data@, pos as int)) implies p == pos + txs_bytes(
            xs,
        ).len() by {
            assert(xs.subrange(0, i as int) =~= xs);
        }
    }
    Some((out, p))
}


proof fn lemma_u32_bytes_injective(a: u32, b: u32)
    by (bit_vector)
    requires
        a as u8 == b as u8,
        (a >> 8u32) as u8 == (b >> 8u32) as u8,
        (a >> 16u32) as u8 == (b >> 16u32) as u8,
        (a >> 24u32) as u8 == (b >> 24u32) as u8,
    ensures
        a == b,
{
}

proof fn lemma_u32_le_injective(a: u32, b: u32)
    requires
        u32_le(a) == u32_le(b),
    ensures
        a == b,
{
    assert(u32_le(a)[0] == u32_le(b)[0]);
    assert(u32_le(a)[1] == u32_le(b)[1]);
    assert(u32_le(a)[2] == u32_le(b)[2]);
    assert(u32_le(a)[3] == u32_le(b)[3]);
    lemma_u32_bytes_injective(a, b);
}

proof fn lemma_head_prefix(
    index: u32,
    hash: Seq<char>,
    prev_hash: Seq<char>,
    txs: Seq<Transaction>,
    data: Seq<u8>,
    pos: int,
)
    requires
        0 <= pos <= data.len(),
        is_prefix(head_bytes(index, hash, prev_hash, txs), tail(data, pos)),
    ensures
        is_prefix(u32_le(index), tail(data, pos)),
        is_prefix(text_bytes(hash), tail(data, pos + 4)),
        is_prefix(text_bytes(prev_hash), tail(data, pos + 4 + text_bytes(hash).len())),
        is_prefix(
            txs_bytes(txs),
            tail(data, pos + 4 + text_bytes(hash).len() + text_bytes(prev_hash).len()),
        ),
{
    let a1 = u32_le(index);
    let a2 = text_bytes(hash);
    let a3 = text_bytes(prev_hash);
    let a4 = txs_bytes(txs);
    lemma_prefix_concat(a1 + a2 + a3, a4, data, pos);
    lemma_prefix_concat(a1 + a2, a3, data, pos);
    lemma_prefix_concat(a1, a2, data, pos);
}

/// Reads the leading fields of a block record at `pos`.
pub fn take_block_head(data: &[u8], pos: usize) -> (r: Option<(u32, String, String, Vec<Transaction>, usize)>)
    requires
        pos <= data@.len(),
    ensures
        r matches Some((i, h, v, t, p)) ==> pos <= p <= data@.len() && data@.subrange(
            pos as int,
            p as int,
        ) == head_bytes(i, h@, v@, t@),
        forall|i: u32, h: Seq<char>, v: Seq<char>, t: Seq<Transaction>|
            is_prefix(#[trigger] head_bytes(i, h, v, t), tail(data@, pos as int)) ==> (r matches Some(
                (i2, h2, v2, t2, p),
            ) && p == pos + head_bytes(i, h, v, t).len()),
{
    let (index, pos1) = match take_u32(data, pos) {
        Some(x) => x,
        None => {
            proof {
                assert forall|i: u32, h: Seq<char>, v: Seq<char>, t: Seq<Transaction>|
                    !is_prefix(#[trigger] head_bytes(i, h, v, t), tail(data@, pos as int)) by {
                    if is_prefix(head_bytes(i, h, v, t), tail(data@, pos as int)) {
                        lemma_head_prefix(i, h, v, t, data@, pos as int);
                    }
                }
            }
            return None;
        },
    };
    let (hash, pos2) = match take_text(data, pos1) {
        Some(x) => x,
        None => {
            proof {
                assert forall|i: u32, h: Seq<char>, v: Seq<char>, t: Seq<Transaction>|
                    !is_prefix(#[trigger] head_bytes(i, h, v, t), tail(data@, pos as int)) by {
                    if is_prefix(head_bytes(i, h, v, t), tail(data@, pos as int)) {
                        lemma_head_prefix(i, h, v, t, data@, pos as int);
                    }
                }
            }
            return None;
        },
    };
    let (prev_hash, pos3) = match take_text(data, pos2) {
        Some(x) => x,
        None => {
            proof {
                assert forall|i: u32, h: Seq<char>, v: Seq<char>, t: Seq<Transaction>|
                    !is_prefix(#[trigger] head_bytes(i, h, v, t), tail(data@, pos as int)) by {
                    if is_prefix(head_bytes(i, h, v, t), tail(data@, pos as int)) {
                        lemma_head_prefix(i, h, v, t, data@, pos as int);
                    }
                }
            }
            return None;
        },
    };
    let (transactions, pos4) = match take_transactions(data, pos3) {
        Some(x) => x,
        None => {
            proof {
                assert forall|i: u32, h: Seq<char>, v: Seq<char>, t: Seq<Transaction>|
                    !is_prefix(#[trigger] head_bytes(i, h, v, t), tail(data@, pos as int)) by {
                    if is_prefix(head_bytes(i, h, v, t), tail(data@, pos as int)) {
                        lemma_head_prefix(i, h, v, t, data@, pos as int);
                    }
                }
            }
            return None;
        },
    };
    proof {
        assert(data@.subrange(pos as int, pos4 as int) =~= data@.subrange(pos as int, pos1 as int)
            + data@.subrange(pos1 as int, pos2 as int) + data@.subrange(pos2 as int, pos3 as int)
            + data@.subrange(pos3 as int, pos4 as int));
        assert forall|i: u32, h: Seq<char>, v: Seq<char>, t: Seq<Transaction>|
            is_prefix(#[trigger] head_bytes(i, h, v, t), tail(data@, pos as int)) implies pos4 == pos
            + head_bytes(i, h, v, t).len() by {
            lemma_head_prefix(i, h, v, t, data@, pos as int);
        }
    }
    Some((index, hash, prev_hash, transactions, pos4))
}

proof fn lemma_u64_i64_round_trip(v: u64)
    by (bit_vector)
    ensures
        ((v as i64) as u64) == v,
{
}

proof fn lemma_foot_prefix(nonce: u32, timestamp: i64, difficulty: usize, data: Seq<u8>, pos: int)
    requires
        0 <= pos <= data.len(),
        is_prefix(foot_bytes(nonce, timestamp, difficulty), tail(data, pos)),
    ensures
        is_prefix(u32_le(nonce), tail(data, pos)),
        is_prefix(u64_le(timestamp as u64), tail(data, pos + 4)),
        is_prefix(u64_le(difficulty as u64), tail(data, pos + 12)),
{
    lemma_prefix_concat(u32_le(nonce) + i64_le(timestamp), u64_le(difficulty as u64), data, pos);
    lemma_prefix_concat(u32_le(nonce), i64_le(timestamp), data, pos);
}

/// Reads the trailing fields of a block record at `pos`.
pub fn take_block_foot(data: &[u8], pos: usize) -> (r: Option<(u32, i64, usize, usize)>)
    requires
        pos <= data@.len(),
    ensures
        r matches Some((n, s, d, p)) ==> pos <= p <= data@.len() && data@.subrange(pos as int, p as int)
            == foot_bytes(n, s, d),
        forall|n: u32, s: i64, d: usize|
            is_prefix(#[trigger] foot_bytes(n, s, d), tail(data@, pos as int)) ==> (r matches Some(
                (n2, s2, d2, p),
            ) && p == pos + 20),
{
    let (nonce, pos1) = match take_u32(data, pos) {
        Some(x) => x,
        None => {
            proof {
                assert forall|n: u32, s: i64, d: usize|
                    !is_prefix(#[trigger] foot_bytes(n, s, d), tail(data@, pos as int)) by {
                    if is_prefix(foot_bytes(n, s, d), tail(data@, pos as int)) {
                        lemma_foot_prefix(n, s, d, data@, pos as int);
                    }
                }
            }
            return None;
        },
    };
    let (stamp, pos2) = match take_u64(data, pos1) {
        Some(x) => x,
        None => {
            proof {
                assert forall|n: u32, s: i64, d: usize|
                    !is_prefix(#[trigger] foot_bytes(n, s, d), tail(data@, pos as int)) by {
                    if is_prefix(foot_bytes(n, s, d), tail(data@, pos as int)) {
                        lemma_foot_prefix(n, s, d, data@, pos as int);
                    }
                }
            }
            return None;
        },
    };
    let (difficulty, pos3) = match take_u64(data, pos2) {
        Some(x) => x,
        None => {
            proof {
                assert forall|n: u32, s: i64, d: usize|
                    !is_prefix(#[trigger] foot_bytes(n, s, d), tail(data@, pos as int)) by {
                    if is_prefix(foot_bytes(n, s, d), tail(data@, pos as int)) {
                        lemma_foot_prefix(n, s, d, data@, pos as int);
                    }
                }
            }
            return None;
        },
    };
    if difficulty > usize::MAX as u64 {
        proof {
            assert forall|n: u32, s: i64, d: usize|
                !is_prefix(#[trigger] foot_bytes(n, s, d), tail(data@, pos as int)) by {
                if is_prefix(foot_bytes(n, s, d), tail(data@, pos as int)) {
                    lemma_foot_prefix(n, s, d, data@, pos as int);
                    assert(data@.subrange(pos2 as int, pos3 as int) =~= tail(data@, pos2 as int).subrange(0, 8));
                    lemma_u64_le_injective(difficulty, d as u64);
                }
            }
        }
        return None;
    }
    let timestamp = stamp as i64;
    proof {
        lemma_u64_i64_round_trip(stamp);
        assert(data@.subrange(pos as int, pos3 as int) =~= data@.subrange(pos as int, pos1 as int)
            + data@.subrange(pos1 as int, pos2 as int) + data@.subrange(pos2 as int, pos3 as int));
    }
    Some((nonce, timestamp, difficulty as usize, pos3))
}

/// Reads a stored block record at `pos`.
#[verifier::rlimit(100)]
pub fn take_block(data: &[u8], pos: usize) -> (r: Option<(Block, usize)>)
    requires
        pos <= data@.len(),
    ensures
        r matches Some((b, p)) ==> pos <= p <= data@.len() && data@.subrange(pos as int, p as int)
            == block_bytes(b),
        forall|x: Block|
            is_prefix(#[trigger] block_bytes(x), tail(data@, pos as int)) ==> (r matches Some((b, p))
                && p == pos + block_bytes(x).len()),
{
    let (index, hash, prev_hash, transactions, pos1) = match take_block_head(data, pos) {
        Some(x) => x,
        None => {
            proof {
                assert forall|x: Block| !is_prefix(#[trigger] block_bytes(x), tail(data@, pos as int)) by {
                    if is_prefix(block_bytes(x), tail(data@, pos as int)) {
                        lemma_prefix_concat(
                            head_bytes(x.index, x.hash@, x.prev_hash@, x.transactions@),
                            foot_bytes(x.nonce, x.timestamp, x.difficulty),
                            data@,
                            pos as int,
                        );
                    }
                }
            }
            return None;
        },
    };
    let ghost head = data@.subrange(pos as int, pos1 as int);
    let (nonce, timestamp, difficulty, pos2) = match take_block_foot(data, pos1) {
        Some(x) => x,
        None => {
            proof {
                assert forall|x: Block| !is_prefix(#[trigger] block_bytes(x), tail(data@, pos as int)) by {
                    if is_prefix(block_bytes(x), tail(data@, pos as int)) {
                        lemma_prefix_concat(
                            head_bytes(x.index, x.hash@, x.prev_hash@, x.transactions@),
                            foot_bytes(x.nonce, x.timestamp, x.difficulty),
                            data@,
                            pos as int,
                        );
                    }
                }
            }
            return None;
        },
    };
    let b = Block { index, hash, prev_hash, transactions, nonce, timestamp, difficulty };
    proof {
        assert(data@.subrange(pos as int, pos2 as int) =~= data@.subrange(pos as int, pos1 as int)
            + data@.subrange(pos1 as int, pos2 as int));
        assert forall|x: Block|
            is_prefix(#[trigger] block_bytes(x), tail(data@, pos as int)) implies pos2 == pos
            + block_bytes(x).len() by {
            lemma_prefix_concat(
                head_bytes(x.index, x.hash@, x.prev_hash@, x.transactions@),
                foot_bytes(x.nonce, x.timestamp, x.difficulty),
                data@,
                pos as int,
            );
        }
    }
    Some((b, pos2))
}


proof fn lemma_u32_i32_round_trip(v: u32)
    by (bit_vector)
    ensures
        ((v as i32) as u32) == v,
{
}

proof fn lemma_message_parts(m: GossipsubEvent, data: Seq<u8>)
    requires
        data == message_bytes(m),
    ensures
        tail(data, 0) == data,
        data.subrange(0, 4) == u32_le(
            match m {
                GossipsubEvent::SyncNetworkBlock(_) => 0u32,
                GossipsubEvent::SendNetworkTransaction(_) => 1u32,
            },
        ),
        m matches GossipsubEvent::SyncNetworkBlock(meta) ==> {
            &&& data.subrange(4, 8) == i32_le(meta.key)
            &&& is_prefix(block_bytes(meta.block), tail(data, 8))
            &&& data.len() == 8 + block_bytes(meta.block).len()
        },
        m matches GossipsubEvent::SendNetworkTransaction(meta) ==> {
            &&& is_prefix(text_bytes(meta.from@), tail(data, 4))
            &&& is_prefix(text_bytes(meta.to@), tail(data, 4 + text_bytes(meta.from@).len() as int))
            &&& is_prefix(
                u64_le(meta.amount),
                tail(data, (4 + text_bytes(meta.from@).len() + text_bytes(meta.to@).len()) as int),
            )
            &&& data.len() == 4 + text_bytes(meta.from@).len() + text_bytes(meta.to@).len() + 8
        },
{
    assert(tail(data, 0) =~= data);
    assert(is_prefix(data, tail(data, 0)));
    match m {
        GossipsubEvent::SyncNetworkBlock(meta) => {
            lemma_prefix_concat(u32_le(0) + i32_le(meta.key), block_bytes(meta.block), data, 0);
            lemma_prefix_concat(u32_le(0), i32_le(meta.key), data, 0);
            assert(data.subrange(4, 8) =~= tail(data, 4).subrange(0, 4));
        },
        GossipsubEvent::SendNetworkTransaction(meta) => {
            let a = u32_le(1);
            let b = text_bytes(meta.from@);
            let c = text_bytes(meta.to@);
            let d = u64_le(meta.amount);
            lemma_prefix_concat(a + b + c, d, data, 0);
            lemma_prefix_concat(a + b, c, data, 0);
            lemma_prefix_concat(a, b, data, 0);
        },
    }
}

/// Decodes a message between peers. There is a message exactly when the
/// bytes are the encoding of one, and it is the message they encode.
pub fn decode_message(data: &[u8]) -> (r: Option<GossipsubEvent>)
    ensures
        r matches Some(m) ==> data@ == message_bytes(m),
        r is None ==> forall|m: GossipsubEvent| data@ != #[trigger] message_bytes(m),
        forall|m: GossipsubEvent|
            data@ == #[trigger] message_bytes(m) ==> (r matches Some(d) && same_message(d, m)),
{
    let r = parse_message(data);
    // brings into view that the length of the bytes fits in 64 bits
    let _len = data.len();
    proof {
        assert forall|m: GossipsubEvent|
            data@ == #[trigger] message_bytes(m) implies (r matches Some(d) && same_message(d, m)) by {
            match r {
                Some(d) => lemma_message_bytes_injective(d, m),
                None => {},
            }
        }
    }
    r
}

#[verifier::rlimit(100)]
fn parse_message(data: &[u8]) -> (r: Option<GossipsubEvent>)
    ensures
        r matches Some(m) ==> data@ == message_bytes(m),
        r is None ==> forall|m: GossipsubEvent| data@ != #[trigger] message_bytes(m),
{
    let (tag, pos0) = match take_u32(data, 0) {
        Some(x) => x,
        None => {
            proof {
                assert forall|m: GossipsubEvent| data@ != #[trigger] message_bytes(m) by {
                    if data@ == message_bytes(m) {
                        lemma_message_parts(m, data@);
                    }
                }
            }
            return None;
        },
    };
    proof {
        assert(data@.subrange(0, 4) == u32_le(tag));
    }
    if tag == 0 {
        let (k, pos1) = match take_u32(data, pos0) {
            Some(x) => x,
            None => {
                proof {
                    assert forall|m: GossipsubEvent| data@ != #[trigger] message_bytes(m) by {
                        if data@ == message_bytes(m) {
                            lemma_message_parts(m, data@);
                            if m is SendNetworkTransaction {
                                lemma_u32_le_injective(tag, 1);
                            }
                        }
                    }
                }
                return None;
            },
        };
        let key = k as i32;
        proof {
            lemma_u32_i32_round_trip(k);
        }
        let (block, pos2) = match take_block(data, pos1) {
            Some(x) => x,
            None => {
                proof {
                    assert forall|m: GossipsubEvent| data@ != #[trigger] message_bytes(m) by {
                        if data@ == message_bytes(m) {
                            lemma_message_parts(m, data@);
                            if m is SendNetworkTransaction {
                                lemma_u32_le_injective(tag, 1);
                            }
                        }
                    }
                }
                return None;
            },
        };
        if pos2 != data.len() {
            proof {
                assert forall|m: GossipsubEvent| data@ != #[trigger] message_bytes(m) by {
                    if data@ == message_bytes(m) {
                        lemma_message_parts(m, data@);
                        if m is SendNetworkTransaction {
                            lemma_u32_le_injective(tag, 1);
                        }
                    }
                }
            }
            return None;
        }
        let m = GossipsubEvent::SyncNetworkBlock(BlockSyncMeta { key, block });
        proof {
            assert(data@ =~= data@.subrange(0, 4) + data@.subrange(4, 8) + data@.subrange(
                8,
                pos2 as int,
            ));
        }
        Some(m)
    } else if tag == 1 {
        let (from, pos1) = match take_text(data, pos0) {
            Some(x) => x,
            None => {
                proof {
                    assert forall|m: GossipsubEvent| data@ != #[trigger] message_bytes(m) by {
                        if data@ == message_bytes(m) {
                            lemma_message_parts(m, data@);
                            if m is SyncNetworkBlock {
                                lemma_u32_le_injective(tag, 0);
                            }
                        }
                    }
                }
                return None;
            },
        };
        let (to, pos2) = match take_text(data, pos1) {
            Some(x) => x,
            None => {
                proof {
                    assert forall|m: GossipsubEvent| data@ != #[trigger] message_bytes(m) by {
                        if data@ == message_bytes(m) {
                            lemma_message_parts(m, data@);
                            if m is SyncNetworkBlock {
                                lemma_u32_le_injective(tag, 0);
                            }
                        }
                    }
                }
                return None;
            },
        };
        let (amount, pos3) = match take_u64(data, pos2) {
            Some(x) => x,
            None => {
                proof {
                    assert forall|m: GossipsubEvent| data@ != #[trigger] message_bytes(m) by {
                        if data@ == message_bytes(m) {
                            lemma_message_parts(m, data@);
                            if m is SyncNetworkBlock {
                                lemma_u32_le_injective(tag, 0);
                            }
                        }
                    }
                }
                return None;
            },
        };
        if pos3 != data.len() {
            proof {
                assert forall|m: GossipsubEvent| data@ != #[trigger] message_bytes(m) by {
                    if data@ == message_bytes(m) {
                        lemma_message_parts(m, data@);
                        if m is SyncNetworkBlock {
                            lemma_u32_le_injective(tag, 0);
                        }
                    }
                }
            }
            return None;
        }
        let m = GossipsubEvent::SendNetworkTransaction(SendTransactionMeta { from, to, amount });
        proof {
            assert(data@ =~= data@.subrange(0, 4) + data@.subrange(4, pos1 as int) + data@.subrange(
                pos1 as int,
                pos2 as int,
            ) + data@.subrange(pos2 as int, pos3 as int));
        }
        Some(m)
    } else {
        proof {
            assert forall|m: GossipsubEvent| data@ != #[trigger] message_bytes(m) by {
                if data@ == message_bytes(m) {
                    lemma_message_parts(m, data@);
                    if m is SyncNetworkBlock {
                        lemma_u32_le_injective(tag, 0);
                    } else {
                        lemma_u32_le_injective(tag, 1);
                    }
                }
            }
        }
        None
    }
}


/// Decodes a stored block record: the block whose record the bytes are, or
/// an error exactly when they are the record of no block.
pub fn decode_block(data: &[u8]) -> (r: Result<Block, BlockError>)
    ensures
        r matches Ok(b) ==> data@ == block_bytes(b),
        r is Err <==> forall|b: Block| data@ != #[trigger] block_bytes(b),
        forall|b: Block| data@ == #[trigger] block_bytes(b) ==> (r matches Ok(d) && same_block(d, b)),
{
    // brings into view that the length of the bytes fits in 64 bits
    let _len = data.len();
    match take_block(data, 0) {
        Some((b, p)) => {
            if p == data.len() {
                proof {
                    assert(data@.subrange(0, p as int) =~= data@);
                    assert forall|x: Block| data@ == #[trigger] block_bytes(x) implies same_block(b, x) by {
                        lemma_block_bytes_injective(b, x);
                    }
                }
                Ok(b)
            } else {
                proof {
                    assert forall|x: Block| data@ != #[trigger] block_bytes(x) by {
                        if data@ == block_bytes(x) {
                            assert(tail(data@, 0) =~= data@);
                            assert(data@.subrange(0, data@.len() as int) =~= data@);
                        }
                    }
                }
                Err(BlockError::Malformed)
            }
        },
        None => {
            proof {
                assert forall|x: Block| data@ != #[trigger] block_bytes(x) by {
                    if data@ == block_bytes(x) {
                        assert(tail(data@, 0) =~= data@);
                        assert(data@.subrange(0, data@.len() as int) =~= data@);
                    }
                }
            }
            Err(BlockError::Malformed)
        },
    }
}

} // verus!

verus! {

proof fn lemma_i64_as_u64_injective(a: i64, b: i64)
    by (bit_vector)
    requires
        a as u64 == b as u64,
    ensures
        a == b,
{
}

proof fn lemma_i32_as_u32_injective(a: i32, b: i32)
    by (bit_vector)
    requires
        a as u32 == b as u32,
    ensures
        a == b,
{
}

proof fn lemma_text_prefix_unique(x: Seq<char>, y: Seq<char>, r: Seq<u8>)
    requires
        is_prefix(text_bytes(x), r),
        is_prefix(text_bytes(y), r),
        r.len() <= u64::MAX,
    ensures
        x == y,
        text_bytes(x) == text_bytes(y),
{
    assert(text_bytes(x).subrange(0, 8) =~= u64_le(encode_utf8(x).len() as u64));
    assert(text_bytes(y).subrange(0, 8) =~= u64_le(encode_utf8(y).len() as u64));
    assert(r.subrange(0, 8) =~= text_bytes(x).subrange(0, 8));
    assert(r.subrange(0, 8) =~= text_bytes(y).subrange(0, 8));
    lemma_u64_le_injective(encode_utf8(x).len() as u64, encode_utf8(y).len() as u64);
    let n = encode_utf8(x).len() as int;
    assert(encode_utf8(x) =~= text_bytes(x).subrange(8, 8 + n));
    assert(encode_utf8(y) =~= text_bytes(y).subrange(8, 8 + n));
    assert(encode_utf8(x) =~= r.subrange(8, 8 + n));
    assert(encode_utf8(y) =~= r.subrange(8, 8 + n));
    vstd::utf8::encode_utf8_decode_utf8(x);
    vstd::utf8::encode_utf8_decode_utf8(y);
}

/// The two transactions say the same: same sender, receiver and amount.
pub open spec fn same_tx(a: Transaction, b: Transaction) -> bool {
    a.from@ == b.from@ && a.to@ == b.to@ && a.amount == b.amount
}

/// The two lists hold, position by position, transactions that say the same.
pub open spec fn same_txs(a: Seq<Transaction>, b: Seq<Transaction>) -> bool {
    a.len() == b.len() && forall|i: int| 0 <= i < a.len() ==> same_tx(#[trigger] a[i], b[i])
}

proof fn lemma_tx_prefix_unique(a: Transaction, b: Transaction, r: Seq<u8>)
    requires
        is_prefix(tx_bytes(a), r),
        is_prefix(tx_bytes(b), r),
        r.len() <= u64::MAX,
    ensures
        same_tx(a, b),
        tx_bytes(a) == tx_bytes(b),
{
    assert(tail(r, 0) =~= r);
    lemma_tx_prefix(a, r, 0);
    lemma_tx_prefix(b, r, 0);
    lemma_text_prefix_unique(a.from@, b.from@, r);
    let k = text_bytes(a.from@).len() as int;
    lemma_text_prefix_unique(a.to@, b.to@, tail(r, k));
    let j = k + text_bytes(a.to@).len() as int;
    assert(tail(r, j).subrange(0, 8) =~= u64_le(a.amount));
    assert(tail(r, j).subrange(0, 8) =~= u64_le(b.amount));
    lemma_u64_le_injective(a.amount, b.amount);
}

proof fn lemma_items_prefix_unique(a: Seq<Transaction>, b: Seq<Transaction>, r: Seq<u8>)
    requires
        a.len() == b.len(),
        is_prefix(tx_items(a), r),
        is_prefix(tx_items(b), r),
        r.len() <= u64::MAX,
    ensures
        same_txs(a, b),
        tx_items(a) == tx_items(b),
    decreases a.len(),
{
    if a.len() == 0 {
        assert(tx_items(a) =~= Seq::<u8>::empty());
        assert(tx_items(b) =~= Seq::<u8>::empty());
    } else {
        assert(tail(r, 0) =~= r);
        lemma_tx_items_split_first(a);
        lemma_tx_items_split_first(b);
        let a1 = a.subrange(1, a.len() as int);
        let b1 = b.subrange(1, b.len() as int);
        lemma_prefix_concat(tx_bytes(a[0]), tx_items(a1), r, 0);
        lemma_prefix_concat(tx_bytes(b[0]), tx_items(b1), r, 0);
        lemma_tx_prefix_unique(a[0], b[0], r);
        let k = tx_bytes(a[0]).len() as int;
        lemma_items_prefix_unique(a1, b1, tail(r, k));
        assert forall|i: int| 0 <= i < a.len() implies same_tx(#[trigger] a[i], b[i]) by {
            if i > 0 {
                assert(a1[i - 1] == a[i]);
                assert(b1[i - 1] == b[i]);
            }
        }
    }
}

proof fn lemma_txs_prefix_unique(a: Seq<Transaction>, b: Seq<Transaction>, r: Seq<u8>)
    requires
        is_prefix(txs_bytes(a), r),
        is_prefix(txs_bytes(b), r),
        r.len() <= u64::MAX,
    ensures
        same_txs(a, b),
        txs_bytes(a) == txs_bytes(b),
{
    assert(tail(r, 0) =~= r);
    lemma_prefix_concat(u64_le(a.len() as u64), tx_items(a), r, 0);
    lemma_prefix_concat(u64_le(b.len() as u64), tx_items(b), r, 0);
    assert(r.subrange(0, 8) =~= u64_le(a.len() as u64));
    assert(r.subrange(0, 8) =~= u64_le(b.len() as u64));
    lemma_u64_le_injective(a.len() as u64, b.len() as u64);
    lemma_tx_items_len(a);
    lemma_tx_items_len(b);
    lemma_items_prefix_unique(a, b, tail(r, 8));
}

/// The two blocks say the same: equal fields, texts and transactions alike.
pub open spec fn same_block(a: Block, b: Block) -> bool {
    &&& a.index == b.index
    &&& a.hash@ == b.hash@
    &&& a.prev_hash@ == b.prev_hash@
    &&& same_txs(a.transactions@, b.transactions@)
    &&& a.nonce == b.nonce
    &&& a.timestamp == b.timestamp
    &&& a.difficulty == b.difficulty
}

proof fn lemma_u32_prefix_unique(a: u32, b: u32, r: Seq<u8>)
    requires
        is_prefix(u32_le(a), r),
        is_prefix(u32_le(b), r),
    ensures
        a == b,
{
    assert(r.subrange(0, 4) =~= u32_le(a));
    assert(r.subrange(0, 4) =~= u32_le(b));
    lemma_u32_le_injective(a, b);
}

proof fn lemma_head_unique(
    i1: u32,
    h1: Seq<char>,
    v1: Seq<char>,
    t1: Seq<Transaction>,
    i2: u32,
    h2: Seq<char>,
    v2: Seq<char>,
    t2: Seq<Transaction>,
    r: Seq<u8>,
)
    requires
        is_prefix(head_bytes(i1, h1, v1, t1), r),
        is_prefix(head_bytes(i2, h2, v2, t2), r),
        r.len() <= u64::MAX,
    ensures
        i1 == i2,
        h1 == h2,
        v1 == v2,
        same_txs(t1, t2),
        head_bytes(i1, h1, v1, t1) == head_bytes(i2, h2, v2, t2),
{
    assert(tail(r, 0) =~= r);
    lemma_head_prefix(i1, h1, v1, t1, r, 0);
    lemma_head_prefix(i2, h2, v2, t2, r, 0);
    lemma_u32_prefix_unique(i1, i2, r);
    lemma_text_prefix_unique(h1, h2, tail(r, 4));
    let k = 4 + text_bytes(h1).len() as int;
    lemma_text_prefix_unique(v1, v2, tail(r, k));
    let j = k + text_bytes(v1).len() as int;
    lemma_txs_prefix_unique(t1, t2, tail(r, j));
}

proof fn lemma_foot_injective(n1: u32, s1: i64, d1: usize, n2: u32, s2: i64, d2: usize)
    requires
        foot_bytes(n1, s1, d1) == foot_bytes(n2, s2, d2),
    ensures
        n1 == n2,
        s1 == s2,
        d1 == d2,
{
    let f1 = foot_bytes(n1, s1, d1);
    let f2 = foot_bytes(n2, s2, d2);
    assert(f1.subrange(0, 4) =~= u32_le(n1));
    assert(f2.subrange(0, 4) =~= u32_le(n2));
    lemma_u32_le_injective(n1, n2);
    assert(f1.subrange(4, 12) =~= u64_le(s1 as u64));
    assert(f2.subrange(4, 12) =~= u64_le(s2 as u64));
    lemma_u64_le_injective(s1 as u64, s2 as u64);
    lemma_i64_as_u64_injective(s1, s2);
    assert(f1.subrange(12, 20) =~= u64_le(d1 as u64));
    assert(f2.subrange(12, 20) =~= u64_le(d2 as u64));
    lemma_u64_le_injective(d1 as u64, d2 as u64);
}

proof fn lemma_block_bytes_injective(a: Block, b: Block)
    requires
        block_bytes(a) == block_bytes(b),
        block_bytes(a).len() <= u64::MAX,
    ensures
        same_block(a, b),
{
    let r = block_bytes(a);
    let ha = head_bytes(a.index, a.hash@, a.prev_hash@, a.transactions@);
    let hb = head_bytes(b.index, b.hash@, b.prev_hash@, b.transactions@);
    let fa = foot_bytes(a.nonce, a.timestamp, a.difficulty);
    let fb = foot_bytes(b.nonce, b.timestamp, b.difficulty);
    assert(r.subrange(0, ha.len() as int) =~= ha);
    assert(r.subrange(0, hb.len() as int) =~= hb);
    lemma_head_unique(
        a.index,
        a.hash@,
        a.prev_hash@,
        a.transactions@,
        b.index,
        b.hash@,
        b.prev_hash@,
        b.transactions@,
        r,
    );
    assert(r.subrange(ha.len() as int, r.len() as int) =~= fa);
    assert(r.subrange(hb.len() as int, r.len() as int) =~= fb);
    lemma_foot_injective(a.nonce, a.timestamp, a.difficulty, b.nonce, b.timestamp, b.difficulty);
}

/// The two messages say the same.
pub open spec fn same_message(a: GossipsubEvent, b: GossipsubEvent) -> bool {
    match (a, b) {
        (GossipsubEvent::SyncNetworkBlock(x), GossipsubEvent::SyncNetworkBlock(y)) => x.key == y.key
            && same_block(x.block, y.block),
        (GossipsubEvent::SendNetworkTransaction(x), GossipsubEvent::SendNetworkTransaction(y)) => {
            x.from@ == y.from@ && x.to@ == y.to@ && x.amount == y.amount
        },
        _ => false,
    }
}

/// The message encoding is one-to-one: two messages with the same encoding
/// say the same thing. So `decode_message` gives back, field for field, the
/// message that `encode_message` encoded.
pub proof fn lemma_message_bytes_injective(a: GossipsubEvent, b: GossipsubEvent)
    requires
        message_bytes(a) == message_bytes(b),
        message_bytes(a).len() <= u64::MAX,
    ensures
        same_message(a, b),
{
    let r = message_bytes(a);
    lemma_message_parts(a, r);
    lemma_message_parts(b, r);
    match (a, b) {
        (GossipsubEvent::SyncNetworkBlock(x), GossipsubEvent::SyncNetworkBlock(y)) => {
            assert(u32_le(x.key as u32) == u32_le(y.key as u32));
            lemma_u32_le_injective(x.key as u32, y.key as u32);
            lemma_i32_as_u32_injective(x.key, y.key);
            assert(tail(r, 8).subrange(0, block_bytes(x.block).len() as int) =~= r.subrange(
                8,
                r.len() as int,
            ));
            assert(tail(r, 8).subrange(0, block_bytes(y.block).len() as int) =~= r.subrange(
                8,
                r.len() as int,
            ));
            lemma_block_bytes_injective(x.block, y.block);
        },
        (GossipsubEvent::SendNetworkTransaction(x), GossipsubEvent::SendNetworkTransaction(y)) => {
            lemma_text_prefix_unique(x.from@, y.from@, tail(r, 4));
            let k = 4 + text_bytes(x.from@).len() as int;
            lemma_text_prefix_unique(x.to@, y.to@, tail(r, k));
            let j = k + text_bytes(x.to@).len() as int;
            assert(tail(r, j).subrange(0, 8) =~= u64_le(x.amount));
            assert(tail(r, j).subrange(0, 8) =~= u64_le(y.amount));
            lemma_u64_le_injective(x.amount, y.amount);
        },
        (GossipsubEvent::SyncNetworkBlock(_), _) => {
            lemma_u32_le_injective(0, 1);
        },
        (GossipsubEvent::SendNetworkTransaction(_), _) => {
            lemma_u32_le_injective(1, 0);
        },
    }
}

} // verus!
