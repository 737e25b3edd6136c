//! What holds of every block, transaction and store, whatever their
//! contents.

use vstd::prelude::*;
use crate::types::{has_leading_zeros, Address};
use crate::crypto::{address_of, rsa_sha3_verifies};
use crate::codec::block_bytes;
use crate::transaction::{signing_bytes, Transaction};
use crate::block::{block_hash, views, Block, BlockView};
use crate::world::{account, apply_reward, apply_transaction, lemma_apply_reward, lemma_apply_transaction, lemma_sound_transaction_applies, sound, total, world_of, AccountState};

verus! {

/// Two blocks with the same bytes have the same hash.
pub proof fn lemma_hash_follows_bytes(a: BlockView, b: BlockView)
    requires
        block_bytes(a) == block_bytes(b),
    ensures
        block_hash(a) == block_hash(b),
{
}

/// A block that a store accepts has a hash that starts with as many zero
/// bytes as its difficulty says.
pub proof fn lemma_valid_block_has_work(block: BlockView, store: Seq<BlockView>)
    requires
        block.validity(store) is Ok,
    ensures
        has_leading_zeros(block_hash(block), block.difficulty as nat),
{
}

/// A transaction that passes validation carries the public key of its
/// sender and a signature that verifies over its 64 signed bytes.
pub proof fn lemma_valid_transaction_is_signed(tx: Transaction, sender: AccountState)
    requires
        tx.check(sender) is Ok,
    ensures
        address_of(tx.public_key@) == tx.sender@,
        rsa_sha3_verifies(
            tx.public_key@,
            tx.signature@,
            signing_bytes(tx.sender, tx.recipient, tx.amount, tx.index),
        ),
        signing_bytes(tx.sender, tx.recipient, tx.amount, tx.index).len() == 64,
{
    vstd::bytes::lemma_auto_spec_u128_to_from_le_bytes();
}

/// An account starts with no transfer counted. A transaction that passes
/// validation has the index after the one its sender had, its sender has
/// that index afterwards, and no other account's index changes. A reward
/// changes no index.
pub proof fn lemma_indices_count_up(accounts: Seq<AccountState>, tx: Transaction, miner: Address, reward: u128)
    requires
        sound(accounts),
        tx.check(account(accounts, tx.sender)) is Ok,
    ensures
        forall|a: Address| #[trigger] account(Seq::<AccountState>::empty(), a).transaction_index == 0,
        tx.index == account(accounts, tx.sender).transaction_index + 1,
        account(apply_transaction(accounts, tx), tx.sender).transaction_index == tx.index,
        forall|a: Address|
            a != tx.sender ==> (#[trigger] account(apply_transaction(accounts, tx), a)).transaction_index == account(
                accounts,
                a,
            ).transaction_index,
        account(accounts, miner).balance + reward <= u128::MAX ==> forall|a: Address|
            (#[trigger] account(apply_reward(accounts, miner, reward), a)).transaction_index == account(
                accounts,
                a,
            ).transaction_index,
{
    lemma_sound_transaction_applies(accounts, tx);
    lemma_apply_transaction(accounts, tx);
    if account(accounts, miner).balance + reward <= u128::MAX {
        lemma_apply_reward(accounts, miner, reward);
    }
}

/// A transaction that passes validation takes no more from its sender
/// than the sender holds: the sender's balance afterwards is what it was
/// less the amount (or what it was, where the sender pays itself), and no
/// account but the sender and the recipient changes its balance.
pub proof fn lemma_balance_covers_amount(accounts: Seq<AccountState>, tx: Transaction)
    requires
        sound(accounts),
        tx.check(account(accounts, tx.sender)) is Ok,
    ensures
        account(accounts, tx.sender).balance - tx.amount >= 0,
        tx.sender != tx.recipient ==> account(apply_transaction(accounts, tx), tx.sender).balance == account(
            accounts,
            tx.sender,
        ).balance - tx.amount,
        tx.sender != tx.recipient ==> account(apply_transaction(accounts, tx), tx.recipient).balance == account(
            accounts,
            tx.recipient,
        ).balance + tx.amount,
        tx.sender == tx.recipient ==> account(apply_transaction(accounts, tx), tx.sender).balance == account(
            accounts,
            tx.sender,
        ).balance,
        forall|a: Address|
            a != tx.sender && a != tx.recipient ==> (#[trigger] account(apply_transaction(accounts, tx), a)).balance
                == account(accounts, a).balance,
        total(apply_transaction(accounts, tx)) == total(accounts),
{
    lemma_sound_transaction_applies(accounts, tx);
    lemma_apply_transaction(accounts, tx);
    assert(account(accounts, tx.sender).admits(tx));
    assert(account(accounts, tx.recipient).admits(tx));
    crate::world::lemma_account_within_total(accounts, tx.sender);
    crate::world::lemma_account_within_total(accounts, tx.recipient);
}

/// Chains with the same blocks fold into the same world.
pub proof fn lemma_same_chain_same_world(a: Seq<Block>, b: Seq<Block>)
    requires
        views(a) == views(b),
    ensures
        world_of(views(a)) == world_of(views(b)),
{
}

} // verus!
