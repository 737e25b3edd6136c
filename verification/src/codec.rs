//! The byte format of transactions and blocks: integers little-endian at
//! fixed width, byte arrays as they are, a sequence as a four-byte count
//! followed by its elements.

use vstd::prelude::*;
use vstd::bytes::*;
use vstd::slice::slice_subrange;
use crate::transaction::Transaction;
use crate::block::{Block, BlockView};

verus! {

/// The bytes of a transaction: amount, index, sender, recipient,
/// signature and public key, 614 bytes in all.
pub open spec fn transaction_bytes(tx: Transaction) -> Seq<u8> {
    spec_u128_to_le_bytes(tx.amount) + spec_u128_to_le_bytes(tx.index) + tx.sender@ + tx.recipient@
        + tx.signature@ + tx.public_key@
}

/// The bytes of transactions, one after the other.
pub open spec fn transactions_bytes(txs: Seq<Transaction>) -> Seq<u8>
    decreases txs.len(),
{
    if txs.len() == 0 {
        Seq::empty()
    } else {
        transactions_bytes(txs.drop_last()) + transaction_bytes(txs.last())
    }
}

/// The four bytes of a count; only its low 32 bits are written.
pub open spec fn count_bytes(n: nat) -> Seq<u8> {
    spec_u32_to_le_bytes(n as u32)
}

/// The bytes of a block before its transactions: index, parent hash,
/// nonce, miner and reward, 112 bytes in all.
pub open spec fn block_head_bytes(block: BlockView) -> Seq<u8> {
    spec_u128_to_le_bytes(block.index) + block.prev_hash@ + block.nonce@ + block.miner@
        + spec_u128_to_le_bytes(block.reward)
}

/// The bytes of a block: its head, the count of its transactions, the
/// transactions, and the difficulty.
pub open spec fn block_bytes(block: BlockView) -> Seq<u8> {
    block_head_bytes(block) + count_bytes(block.transactions.len()) + transactions_bytes(
        block.transactions,
    ) + spec_u32_to_le_bytes(block.difficulty)
}

/// Appends `bytes` to `out`.
pub fn append_bytes(out: &mut Vec<u8>, bytes: &[u8])
    ensures
        final(out)@ == old(out)@ + bytes@,
{
    let ghost start = out@;
    let mut i: usize = 0;
    while i < bytes.len()
        invariant
            i <= bytes@.len(),
            out@ == start + bytes@.take(i as int),
        decreases bytes@.len() - i,
    {
        out.push(bytes[i]);
        assert(bytes@.take(i + 1) =~= bytes@.take(i as int).push(bytes@[i as int]));
        assert(out@ =~= start + bytes@.take(i + 1));
        i += 1;
    }
    assert(bytes@.take(i as int) =~= bytes@);
}

/// Appends the bytes of `tx` to `out`.
pub(crate) fn write_transaction(out: &mut Vec<u8>, tx: &Transaction)
    ensures
        final(out)@ == old(out)@ + transaction_bytes(*tx),
{
    let ghost start = out@;
    let amount = u128_to_le_bytes(tx.amount);
    let index = u128_to_le_bytes(tx.index);
    append_bytes(out, amount.as_slice());
    append_bytes(out, index.as_slice());
    append_bytes(out, tx.sender.as_slice());
    append_bytes(out, tx.recipient.as_slice());
    append_bytes(out, tx.signature.as_slice());
    append_bytes(out, tx.public_key.as_slice());
    assert(out@ =~= start + transaction_bytes(*tx));
}

/// The bytes of `tx`.
pub fn encode_transaction(tx: &Transaction) -> (bytes: Vec<u8>)
    ensures
        bytes@ == transaction_bytes(*tx),
{
    let mut out: Vec<u8> = Vec::new();
    write_transaction(&mut out, tx);
    assert(out@ =~= transaction_bytes(*tx));
    out
}

/// Appends the bytes of `block` to `out`.
#[verifier::rlimit(50)]
pub(crate) fn write_block(out: &mut Vec<u8>, block: &Block)
    ensures
        final(out)@ == old(out)@ + block_bytes(block@),
{
    let ghost start = out@;
    let index = u128_to_le_bytes(block.index);
    let reward = u128_to_le_bytes(block.reward);
    let count = u32_to_le_bytes(#[verifier::truncate] (block.transactions.len() as u32));
    let difficulty = u32_to_le_bytes(block.difficulty);
    append_bytes(out, index.as_slice());
    append_bytes(out, block.prev_hash.as_slice());
    append_bytes(out, block.nonce.as_slice());
    append_bytes(out, block.miner.as_slice());
    append_bytes(out, reward.as_slice());
    assert(out@ =~= start + block_head_bytes(block@));
    append_bytes(out, count.as_slice());
    let ghost before = out@;
    let mut i: usize = 0;
    while i < block.transactions.len()
        invariant
            i <= block.transactions@.len(),
            out@ == before + transactions_bytes(block.transactions@.take(i as int)),
        decreases block.transactions@.len() - i,
    {
        write_transaction(out, &block.transactions[i]);
        proof {
            let next = block.transactions@.take(i + 1);
            assert(next.drop_last() =~= block.transactions@.take(i as int));
            assert(out@ =~= before + transactions_bytes(next));
        }
        i += 1;
    }
    assert(block.transactions@.take(i as int) =~= block.transactions@);
    append_bytes(out, difficulty.as_slice());
    assert(out@ =~= start + block_bytes(block@));
}

/// The bytes that a block is hashed over: its bytes, with only the low
/// 32 bits of the count of its transactions where there are more than
/// four bytes can count.
pub fn hashed_bytes(block: &Block) -> (bytes: Vec<u8>)
    ensures
        bytes@ == block_bytes(block@),
{
    let mut out: Vec<u8> = Vec::new();
    write_block(&mut out, block);
    assert(out@ =~= block_bytes(block@));
    out
}

/// A block whose transactions can be counted in four bytes.
pub open spec fn encodable(block: BlockView) -> bool {
    block.transactions.len() <= u32::MAX
}

/// Whether the block's transactions can be counted in four bytes.
pub fn can_encode(block: &Block) -> (yes: bool)
    ensures
        yes == encodable(block@),
{
    block.transactions.len() <= u32::MAX as usize
}

/// The bytes of `block`, to be read back with `decode_block`; nothing
/// where its transactions cannot be counted in four bytes.
pub fn encode_block(block: &Block) -> (bytes: Option<Vec<u8>>)
    ensures
        bytes is Some == encodable(block@),
        bytes is Some ==> bytes.unwrap()@ == block_bytes(block@),
{
    if !can_encode(block) {
        return None;
    }
    Some(hashed_bytes(block))
}

/// Where each field of a transaction stands in its bytes.
pub proof fn lemma_transaction_bytes(tx: Transaction)
    ensures
        transaction_bytes(tx).len() == 614,
        transaction_bytes(tx).subrange(0, 16) == spec_u128_to_le_bytes(tx.amount),
        transaction_bytes(tx).subrange(16, 32) == spec_u128_to_le_bytes(tx.index),
        transaction_bytes(tx).subrange(32, 48) == tx.sender@,
        transaction_bytes(tx).subrange(48, 64) == tx.recipient@,
        transaction_bytes(tx).subrange(64, 320) == tx.signature@,
        transaction_bytes(tx).subrange(320, 614) == tx.public_key@,
{
    lemma_auto_spec_u128_to_from_le_bytes();
    let b = transaction_bytes(tx);
    assert(b.subrange(0, 16) =~= spec_u128_to_le_bytes(tx.amount));
    assert(b.subrange(16, 32) =~= spec_u128_to_le_bytes(tx.index));
    assert(b.subrange(32, 48) =~= tx.sender@);
    assert(b.subrange(48, 64) =~= tx.recipient@);
    assert(b.subrange(64, 320) =~= tx.signature@);
    assert(b.subrange(320, 614) =~= tx.public_key@);
}

/// Transactions with the same bytes are the same.
pub proof fn lemma_transaction_bytes_injective(a: Transaction, b: Transaction)
    requires
        transaction_bytes(a) == transaction_bytes(b),
    ensures
        a == b,
{
    lemma_transaction_bytes(a);
    lemma_transaction_bytes(b);
    lemma_auto_spec_u128_to_from_le_bytes();
    assert(a.amount == spec_u128_from_le_bytes(spec_u128_to_le_bytes(a.amount)));
    assert(b.amount == spec_u128_from_le_bytes(spec_u128_to_le_bytes(b.amount)));
    assert(a.index == spec_u128_from_le_bytes(spec_u128_to_le_bytes(a.index)));
    assert(b.index == spec_u128_from_le_bytes(spec_u128_to_le_bytes(b.index)));
    assert(a.sender =~= b.sender);
    assert(a.recipient =~= b.recipient);
    assert(a.signature =~= b.signature);
    assert(a.public_key =~= b.public_key);
}

/// The bytes of `n` transactions are `614 * n` long, and the bytes of the
/// transaction at `i` stand at `614 * i`.
pub proof fn lemma_transactions_bytes(txs: Seq<Transaction>, i: int)
    requires
        0 <= i < txs.len(),
    ensures
        transactions_bytes(txs).len() == 614 * txs.len(),
        transactions_bytes(txs).subrange(614 * i, 614 * i + 614) == transaction_bytes(txs[i]),
    decreases txs.len(),
{
    lemma_transactions_length(txs);
    lemma_transactions_length(txs.drop_last());
    lemma_transaction_bytes(txs.last());
    if i == txs.len() - 1 {
        assert(transactions_bytes(txs).subrange(614 * i, 614 * i + 614) =~= transaction_bytes(txs[i]));
    } else {
        lemma_transactions_bytes(txs.drop_last(), i);
        assert(transactions_bytes(txs).subrange(614 * i, 614 * i + 614) =~= transactions_bytes(
            txs.drop_last(),
        ).subrange(614 * i, 614 * i + 614));
    }
}

/// The bytes of `n` transactions are `614 * n` long.
pub proof fn lemma_transactions_length(txs: Seq<Transaction>)
    ensures
        transactions_bytes(txs).len() == 614 * txs.len(),
    decreases txs.len(),
{
    if txs.len() > 0 {
        lemma_transactions_length(txs.drop_last());
        lemma_transaction_bytes(txs.last());
    }
}

/// Sequences of transactions with the same bytes are the same.
pub proof fn lemma_transactions_bytes_injective(a: Seq<Transaction>, b: Seq<Transaction>)
    requires
        transactions_bytes(a) == transactions_bytes(b),
    ensures
        a == b,
{
    lemma_transactions_length(a);
    lemma_transactions_length(b);
    assert(a.len() == b.len());
    assert forall|i: int| 0 <= i < a.len() implies a[i] == b[i] by {
        lemma_transactions_bytes(a, i);
        lemma_transactions_bytes(b, i);
        lemma_transaction_bytes_injective(a[i], b[i]);
    }
    assert(a =~= b);
}

/// Where each part of a block stands in its bytes.
#[verifier::rlimit(50)]
pub proof fn lemma_block_bytes(block: BlockView)
    ensures
        block_bytes(block).len() == 120 + 614 * block.transactions.len(),
        block_bytes(block).subrange(0, 16) == spec_u128_to_le_bytes(block.index),
        block_bytes(block).subrange(16, 48) == block.prev_hash@,
        block_bytes(block).subrange(48, 80) == block.nonce@,
        block_bytes(block).subrange(80, 96) == block.miner@,
        block_bytes(block).subrange(96, 112) == spec_u128_to_le_bytes(block.reward),
        block_bytes(block).subrange(112, 116) == count_bytes(block.transactions.len()),
        block_bytes(block).subrange(116, 116 + 614 * (block.transactions.len() as int)) == transactions_bytes(
            block.transactions,
        ),
        block_bytes(block).subrange(
            116 + 614 * (block.transactions.len() as int),
            120 + 614 * (block.transactions.len() as int),
        ) == spec_u32_to_le_bytes(block.difficulty),
{
    lemma_auto_spec_u128_to_from_le_bytes();
    lemma_auto_spec_u32_to_from_le_bytes();
    lemma_transactions_length(block.transactions);
    let b = block_bytes(block);
    let n = block.transactions.len() as int;
    assert(block_head_bytes(block).len() == 112);
    assert(b.subrange(0, 16) =~= spec_u128_to_le_bytes(block.index));
    assert(b.subrange(16, 48) =~= block.prev_hash@);
    assert(b.subrange(48, 80) =~= block.nonce@);
    assert(b.subrange(80, 96) =~= block.miner@);
    assert(b.subrange(96, 112) =~= spec_u128_to_le_bytes(block.reward));
    assert(b.subrange(112, 116) =~= count_bytes(block.transactions.len()));
    assert(b.subrange(116, 116 + 614 * n) =~= transactions_bytes(block.transactions));
    assert(b.subrange(116 + 614 * n, 120 + 614 * n) =~= spec_u32_to_le_bytes(block.difficulty));
}

/// Blocks with the same bytes are the same, as long as their
/// transactions can be counted in four bytes.
#[verifier::rlimit(50)]
pub proof fn lemma_block_bytes_injective(a: BlockView, b: BlockView)
    requires
        encodable(a),
        encodable(b),
        block_bytes(a) == block_bytes(b),
    ensures
        a == b,
{
    lemma_block_bytes(a);
    lemma_block_bytes(b);
    lemma_auto_spec_u128_to_from_le_bytes();
    lemma_auto_spec_u32_to_from_le_bytes();
    assert(a.index == spec_u128_from_le_bytes(spec_u128_to_le_bytes(a.index)));
    assert(b.index == spec_u128_from_le_bytes(spec_u128_to_le_bytes(b.index)));
    assert(a.reward == spec_u128_from_le_bytes(spec_u128_to_le_bytes(a.reward)));
    assert(b.reward == spec_u128_from_le_bytes(spec_u128_to_le_bytes(b.reward)));
    assert(a.difficulty == spec_u32_from_le_bytes(spec_u32_to_le_bytes(a.difficulty)));
    assert(b.difficulty == spec_u32_from_le_bytes(spec_u32_to_le_bytes(b.difficulty)));
    assert(a.transactions.len() == b.transactions.len());
    lemma_transactions_bytes_injective(a.transactions, b.transactions);
    assert(a.prev_hash =~= b.prev_hash);
    assert(a.nonce =~= b.nonce);
    assert(a.miner =~= b.miner);
}

/// The `N` bytes of `bytes` that start at `at`.
pub fn take_array<const N: usize>(bytes: &[u8], at: usize) -> (out: [u8; N])
    requires
        at + N <= bytes@.len(),
    ensures
        out@ == bytes@.subrange(at as int, at + N),
{
    let mut out = [0u8; N];
    let total = bytes.len();
    let mut i: usize = 0;
    while i < N
        invariant
            i <= N,
            total == bytes@.len(),
            at + N <= bytes@.len(),
            forall|j: int| 0 <= j < i ==> out@[j] == bytes@[at + j],
        decreases N - i,
    {
        out[i] = bytes[at + i];
        i += 1;
    }
    assert(out@ =~= bytes@.subrange(at as int, at + N));
    out
}

/// Reads a transaction from exactly its bytes. Any 614 bytes are the
/// bytes of one transaction.
pub fn decode_transaction(bytes: &[u8]) -> (tx: Option<Transaction>)
    ensures
        tx is Some == (bytes@.len() == 614),
        tx is Some ==> transaction_bytes(tx.unwrap()) == bytes@,
        forall|t: Transaction| transaction_bytes(t) == bytes@ ==> tx == Some(t),
{
    proof {
        assert forall|t: Transaction| transaction_bytes(t) == bytes@ implies bytes@.len() == 614 by {
            lemma_transaction_bytes(t);
        }
    }
    if bytes.len() != 614 {
        return None;
    }
    let tx = Transaction {
        amount: u128_from_le_bytes(slice_subrange(bytes, 0, 16)),
        index: u128_from_le_bytes(slice_subrange(bytes, 16, 32)),
        sender: take_array::<16>(bytes, 32),
        recipient: take_array::<16>(bytes, 48),
        signature: take_array::<256>(bytes, 64),
        public_key: take_array::<294>(bytes, 320),
    };
    proof {
        lemma_auto_spec_u128_to_from_le_bytes();
        assert(transaction_bytes(tx) =~= bytes@);
        assert forall|t: Transaction| transaction_bytes(t) == bytes@ implies tx == t by {
            lemma_transaction_bytes_injective(t, tx);
        }
    }
    Some(tx)
}

/// Reads `count` transactions from exactly their bytes.
pub fn decode_transactions(bytes: &[u8], count: usize) -> (txs: Vec<Transaction>)
    requires
        bytes@.len() == 614 * count,
    ensures
        txs@.len() == count,
        transactions_bytes(txs@) == bytes@,
{
    let mut txs: Vec<Transaction> = Vec::new();
    let total = bytes.len();
    let mut i: usize = 0;
    assert(bytes@.subrange(0, 0) =~= Seq::<u8>::empty());
    while i < count
        invariant
            i <= count,
            total == bytes@.len(),
            bytes@.len() == 614 * count,
            txs@.len() == i,
            transactions_bytes(txs@) == bytes@.subrange(0, 614 * i),
        decreases count - i,
    {
        let chunk = slice_subrange(bytes, 614 * i, 614 * i + 614);
        let tx = decode_transaction(chunk).unwrap();
        let ghost before = txs@;
        txs.push(tx);
        proof {
            assert(txs@.drop_last() =~= before);
            assert(bytes@.subrange(0, 614 * i) + bytes@.subrange(614 * i, 614 * i + 614) =~= bytes@.subrange(
                0,
                614 * (i + 1),
            ));
        }
        i += 1;
    }
    assert(bytes@.subrange(0, 614 * count) =~= bytes@);
    txs
}

/// How long the bytes of a block are whose count of transactions reads
/// `count`.
pub open spec fn block_length(count: u32) -> int {
    120 + 614 * count
}

/// Reads a block from exactly its bytes. The bytes of every block with
/// at most `u32::MAX` transactions give that block back; other bytes
/// give nothing.
#[verifier::rlimit(50)]
pub fn decode_block(bytes: &[u8]) -> (block: Option<Block>)
    ensures
        block is Some ==> block_bytes(block.unwrap()@) == bytes@ && encodable(block.unwrap()@),
        forall|b: BlockView|
            encodable(b) && block_bytes(b) == bytes@ ==> block is Some && block.unwrap()@ == b,
{
    proof {
        lemma_auto_spec_u32_to_from_le_bytes();
        lemma_auto_spec_u128_to_from_le_bytes();
        assert forall|b: BlockView| encodable(b) && block_bytes(b) == bytes@ implies bytes@.len() == 120 + 614
            * b.transactions.len() && bytes@.len() >= 120 && spec_u32_from_le_bytes(bytes@.subrange(112, 116))
            == b.transactions.len() by {
            lemma_block_bytes(b);
        }
    }
    if bytes.len() < 120 {
        return None;
    }
    let count = u32_from_le_bytes(slice_subrange(bytes, 112, 116));
    let rest = bytes.len() - 120;
    if (rest as u64) != 614u64 * (count as u64) {
        return None;
    }
    let n = count as usize;
    let block = Block {
        index: u128_from_le_bytes(slice_subrange(bytes, 0, 16)),
        prev_hash: take_array::<32>(bytes, 16),
        nonce: take_array::<32>(bytes, 48),
        miner: take_array::<16>(bytes, 80),
        reward: u128_from_le_bytes(slice_subrange(bytes, 96, 112)),
        transactions: decode_transactions(slice_subrange(bytes, 116, 116 + rest), n),
        difficulty: u32_from_le_bytes(slice_subrange(bytes, 116 + rest, 120 + rest)),
    };
    proof {
        assert(count_bytes(block@.transactions.len()) == bytes@.subrange(112, 116));
        assert(block_bytes(block@) =~= bytes@);
        assert forall|b: BlockView| encodable(b) && block_bytes(b) == bytes@ implies block@ == b by {
            lemma_block_bytes_injective(block@, b);
        }
    }
    Some(block)
}

} // verus!
