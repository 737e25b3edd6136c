//! Account states, and the world that a chain of blocks folds into.

use vstd::prelude::*;
use crate::types::Address;
use crate::types::same_address;
use crate::transaction::Transaction;
use crate::block::{Block, BlockView};
use crate::block::views;

verus! {

/// What one account holds and how many transfers it has sent.
#[derive(Debug, Clone, Copy, PartialEq)]
pub struct AccountState {
    pub address: Address,
    pub balance: u128,
    pub transaction_index: u128,
}

/// The state of an account that nothing has touched yet.
pub open spec fn fresh_account(address: Address) -> AccountState {
    AccountState { address, balance: 0, transaction_index: 0 }
}

impl AccountState {
    /// This account after `reward` went to `miner`.
    pub open spec fn after_reward(self, miner: Address, reward: u128) -> AccountState {
        if miner == self.address {
            AccountState { balance: (self.balance + reward) as u128, ..self }
        } else {
            self
        }
    }

    /// This account after `tx`: debited and counted if it is the sender,
    /// credited if it is the recipient.
    pub open spec fn after_transaction(self, tx: Transaction) -> AccountState {
        let debited = if tx.sender == self.address {
            AccountState {
                balance: (self.balance - tx.amount) as u128,
                transaction_index: (self.transaction_index + 1) as u128,
                ..self
            }
        } else {
            self
        };
        if tx.recipient == self.address {
            AccountState { balance: (debited.balance + tx.amount) as u128, ..debited }
        } else {
            debited
        }
    }

    /// Whether `tx` can be applied to this account within `u128`.
    pub open spec fn admits(self, tx: Transaction) -> bool {
        &&& tx.sender == self.address ==> self.balance >= tx.amount && self.transaction_index < u128::MAX
        &&& tx.recipient == self.address && tx.sender != self.address ==> self.balance + tx.amount <= u128::MAX
    }

    /// The state of an account that nothing has touched yet.
    pub fn new(address: Address) -> (account: AccountState)
        ensures
            account == fresh_account(address),
    {
        AccountState { address, balance: 0, transaction_index: 0 }
    }

    /// Credits the block's reward if this account mined it.
    pub fn update_on_block(&mut self, block: &Block)
        requires
            block.miner == old(self).address ==> old(self).balance + block.reward <= u128::MAX,
        ensures
            *final(self) == old(self).after_reward(block.miner, block.reward),
    {
        if same_address(&block.miner, &self.address) {
            self.balance = self.balance + block.reward;
        }
    }

    /// Debits and counts the transaction if this account sent it, and
    /// credits it if this account receives it.
    pub fn update_on_transaction(&mut self, transaction: &Transaction)
        requires
            old(self).admits(*transaction),
        ensures
            *final(self) == old(self).after_transaction(*transaction),
    {
        if same_address(&transaction.sender, &self.address) {
            self.balance = self.balance - transaction.amount;
            self.transaction_index = self.transaction_index + 1;
        }
        if same_address(&transaction.recipient, &self.address) {
            self.balance = self.balance + transaction.amount;
        }
    }
}

/// The sum of the balances of `accounts`.
pub open spec fn total(accounts: Seq<AccountState>) -> nat
    decreases accounts.len(),
{
    if accounts.len() == 0 {
        0
    } else {
        total(accounts.drop_last()) + accounts.last().balance as nat
    }
}

/// Some entry of `accounts` is for `address`.
pub open spec fn has_account(accounts: Seq<AccountState>, address: Address) -> bool {
    exists|i: int| 0 <= i < accounts.len() && #[trigger] accounts[i].address == address
}

/// Where the entry for `address` stands, if there is one.
pub open spec fn account_at(accounts: Seq<AccountState>, address: Address) -> int {
    choose|i: int| 0 <= i < accounts.len() && #[trigger] accounts[i].address == address
}

/// No address has two entries.
pub open spec fn distinct(accounts: Seq<AccountState>) -> bool {
    forall|i: int, j: int|
        0 <= i < j < accounts.len() ==> #[trigger] accounts[i].address != #[trigger] accounts[j].address
}

/// The state of `address`: its entry, or a fresh account.
pub open spec fn account(accounts: Seq<AccountState>, address: Address) -> AccountState {
    if has_account(accounts, address) {
        accounts[account_at(accounts, address)]
    } else {
        fresh_account(address)
    }
}

/// `accounts` with the entry for `state.address` replaced by `state`, or
/// with `state` added where there was none.
pub open spec fn with_account(accounts: Seq<AccountState>, state: AccountState) -> Seq<AccountState> {
    if has_account(accounts, state.address) {
        accounts.update(account_at(accounts, state.address), state)
    } else {
        accounts.push(state)
    }
}

/// The accounts after `tx`: the sender debited and counted, the recipient
/// credited.
pub open spec fn apply_transaction(accounts: Seq<AccountState>, tx: Transaction) -> Seq<AccountState> {
    let debited = with_account(accounts, account(accounts, tx.sender).after_transaction(tx));
    if tx.sender == tx.recipient {
        debited
    } else {
        with_account(debited, account(debited, tx.recipient).after_transaction(tx))
    }
}

/// The accounts after `reward` went to `miner`.
pub open spec fn apply_reward(accounts: Seq<AccountState>, miner: Address, reward: u128) -> Seq<AccountState> {
    with_account(accounts, account(accounts, miner).after_reward(miner, reward))
}

/// The accounts after each of `txs`, in order.
pub open spec fn apply_transactions(accounts: Seq<AccountState>, txs: Seq<Transaction>) -> Seq<AccountState>
    decreases txs.len(),
{
    if txs.len() == 0 {
        accounts
    } else {
        apply_transaction(apply_transactions(accounts, txs.drop_last()), txs.last())
    }
}

/// The accounts after a block: its transactions in order, then its reward.
pub open spec fn apply_block(accounts: Seq<AccountState>, block: BlockView) -> Seq<AccountState> {
    apply_reward(apply_transactions(accounts, block.transactions), block.miner, block.reward)
}

/// The accounts that a chain of blocks folds into, starting from nothing.
pub open spec fn world_of(chain: Seq<BlockView>) -> Seq<AccountState>
    decreases chain.len(),
{
    if chain.len() == 0 {
        Seq::empty()
    } else {
        apply_block(world_of(chain.drop_last()), chain.last())
    }
}

/// No address occurs twice and the balances together fit in `u128`.
pub open spec fn sound(accounts: Seq<AccountState>) -> bool {
    distinct(accounts) && total(accounts) <= u128::MAX
}

/// The sender of `tx` holds the amount and can still count one more
/// transfer, and the recipient's balance with the amount fits in `u128`.
pub open spec fn transaction_applies(accounts: Seq<AccountState>, tx: Transaction) -> bool {
    &&& account(accounts, tx.sender).balance >= tx.amount
    &&& account(accounts, tx.sender).transaction_index < u128::MAX
    &&& tx.sender != tx.recipient ==> account(accounts, tx.recipient).balance + tx.amount <= u128::MAX
}

/// Each of `txs` applies to the accounts that those before it leave.
pub open spec fn transactions_apply(accounts: Seq<AccountState>, txs: Seq<Transaction>) -> bool
    decreases txs.len(),
{
    txs.len() == 0 || (transactions_apply(accounts, txs.drop_last()) && transaction_applies(
        apply_transactions(accounts, txs.drop_last()),
        txs.last(),
    ))
}

/// The block's transactions apply, and the miner's balance after them,
/// with the reward, fits in `u128`.
pub open spec fn block_applies(accounts: Seq<AccountState>, block: BlockView) -> bool {
    transactions_apply(accounts, block.transactions) && account(
        apply_transactions(accounts, block.transactions),
        block.miner,
    ).balance + block.reward <= u128::MAX
}

/// Each block of `chain` applies to the world that the blocks before it
/// fold into.
pub open spec fn chain_applies(chain: Seq<BlockView>) -> bool
    decreases chain.len(),
{
    chain.len() == 0 || (chain_applies(chain.drop_last()) && block_applies(
        world_of(chain.drop_last()),
        chain.last(),
    ))
}

/// Replacing one entry moves the sum by the difference of the balances,
/// and no entry holds more than the sum.
pub proof fn lemma_total_update(accounts: Seq<AccountState>, i: int, state: AccountState)
    requires
        0 <= i < accounts.len(),
    ensures
        total(accounts.update(i, state)) == total(accounts) - accounts[i].balance + state.balance,
        accounts[i].balance <= total(accounts),
    decreases accounts.len(),
{
    let updated = accounts.update(i, state);
    if i == accounts.len() - 1 {
        assert(updated.drop_last() =~= accounts.drop_last());
    } else {
        lemma_total_update(accounts.drop_last(), i, state);
        assert(updated.drop_last() =~= accounts.drop_last().update(i, state));
    }
}

/// What replacing or adding one entry does: that address now has the new
/// state, every other address keeps its own, and the sum moves by the
/// difference.
#[verifier::rlimit(50)]
pub proof fn lemma_with_account(accounts: Seq<AccountState>, state: AccountState)
    requires
        distinct(accounts),
    ensures
        distinct(with_account(accounts, state)),
        account(with_account(accounts, state), state.address) == state,
        forall|a: Address| a != state.address ==> account(with_account(accounts, state), a) == account(accounts, a),
        total(with_account(accounts, state)) == total(accounts) - account(accounts, state.address).balance
            + state.balance,
        account(accounts, state.address).address == state.address,
{
    let next = with_account(accounts, state);
    if has_account(accounts, state.address) {
        let k = account_at(accounts, state.address);
        lemma_total_update(accounts, k, state);
        assert(next[k].address == state.address);
        assert(has_account(next, state.address));
        let k2 = account_at(next, state.address);
        assert(k2 == k) by {
            if k2 != k {
                assert(next[k2].address == accounts[k2].address);
            }
        }
        assert forall|a: Address| a != state.address implies account(next, a) == account(accounts, a) by {
            if has_account(accounts, a) {
                let j = account_at(accounts, a);
                assert(next[j].address == a);
                assert(has_account(next, a));
                let j2 = account_at(next, a);
                assert(next[j2].address == a);
                assert(j2 != k);
                assert(accounts[j2].address == a);
                assert(j2 == j);
            } else {
                if has_account(next, a) {
                    let j2 = account_at(next, a);
                    assert(j2 != k);
                    assert(accounts[j2].address == a);
                }
            }
        }
    } else {
        assert(next.drop_last() =~= accounts);
        let n = accounts.len() as int;
        assert(next[n].address == state.address);
        assert(has_account(next, state.address));
        let k2 = account_at(next, state.address);
        assert(k2 == n) by {
            if k2 != n {
                assert(accounts[k2].address == state.address);
            }
        }
        assert forall|a: Address| a != state.address implies account(next, a) == account(accounts, a) by {
            if has_account(accounts, a) {
                let j = account_at(accounts, a);
                assert(next[j].address == a);
                assert(has_account(next, a));
                let j2 = account_at(next, a);
                assert(j2 != n);
                assert(accounts[j2].address == a);
                assert(j2 == j);
            } else {
                if has_account(next, a) {
                    let j2 = account_at(next, a);
                    assert(j2 != n);
                    assert(accounts[j2].address == a);
                }
            }
        }
    }
}

/// The balance of any account is at most the sum of all balances.
pub proof fn lemma_account_within_total(accounts: Seq<AccountState>, address: Address)
    ensures
        account(accounts, address).balance <= total(accounts),
        account(accounts, address).address == address,
{
    if has_account(accounts, address) {
        let k = account_at(accounts, address);
        lemma_total_update(accounts, k, accounts[k]);
    }
}

/// A transaction that applies moves its amount from the sender to the
/// recipient, counts one more transfer for the sender, touches no other
/// account and leaves the sum of the balances as it was.
#[verifier::rlimit(50)]
pub proof fn lemma_apply_transaction(accounts: Seq<AccountState>, tx: Transaction)
    requires
        distinct(accounts),
        transaction_applies(accounts, tx),
    ensures
        distinct(apply_transaction(accounts, tx)),
        total(apply_transaction(accounts, tx)) == total(accounts),
        forall|a: Address| #[trigger]
            account(apply_transaction(accounts, tx), a) == account(accounts, a).after_transaction(tx),
        forall|a: Address| #[trigger] account(accounts, a).admits(tx),
{
    let sender = account(accounts, tx.sender);
    lemma_account_within_total(accounts, tx.sender);
    lemma_with_account(accounts, sender.after_transaction(tx));
    let debited = with_account(accounts, sender.after_transaction(tx));
    assert forall|a: Address| #[trigger] account(accounts, a).admits(tx) by {
        lemma_account_within_total(accounts, a);
    }
    if tx.sender != tx.recipient {
        let recipient = account(debited, tx.recipient);
        lemma_account_within_total(debited, tx.recipient);
        lemma_with_account(debited, recipient.after_transaction(tx));
    }
    assert forall|a: Address| #[trigger]
        account(apply_transaction(accounts, tx), a) == account(accounts, a).after_transaction(tx) by {
        lemma_account_within_total(accounts, a);
    }
}

/// Where the sum of the balances fits in `u128`, a sender that holds the
/// amount and can count one more transfer is all that a transaction needs
/// to apply: the recipient's balance with the amount fits as well.
pub proof fn lemma_sound_transaction_applies(accounts: Seq<AccountState>, tx: Transaction)
    requires
        sound(accounts),
        account(accounts, tx.sender).balance >= tx.amount,
        account(accounts, tx.sender).transaction_index < u128::MAX,
    ensures
        transaction_applies(accounts, tx),
{
    if tx.sender != tx.recipient {
        let sender = account(accounts, tx.sender);
        lemma_account_within_total(accounts, tx.sender);
        lemma_with_account(accounts, sender.after_transaction(tx));
        let debited = with_account(accounts, sender.after_transaction(tx));
        lemma_account_within_total(debited, tx.recipient);
    }
}

/// A reward that fits the miner's balance goes to the miner, touches no
/// other account and raises the sum of the balances by itself.
pub proof fn lemma_apply_reward(accounts: Seq<AccountState>, miner: Address, reward: u128)
    requires
        distinct(accounts),
        account(accounts, miner).balance + reward <= u128::MAX,
    ensures
        distinct(apply_reward(accounts, miner, reward)),
        total(apply_reward(accounts, miner, reward)) == total(accounts) + reward,
        forall|a: Address| #[trigger]
            account(apply_reward(accounts, miner, reward), a) == account(accounts, a).after_reward(miner, reward),
{
    lemma_account_within_total(accounts, miner);
    lemma_with_account(accounts, account(accounts, miner).after_reward(miner, reward));
    assert forall|a: Address| #[trigger]
        account(apply_reward(accounts, miner, reward), a) == account(accounts, a).after_reward(miner, reward) by {
        lemma_account_within_total(accounts, a);
    }
}

/// Transactions that apply leave accounts without a double entry and
/// with the same sum.
pub proof fn lemma_apply_transactions(accounts: Seq<AccountState>, txs: Seq<Transaction>)
    requires
        distinct(accounts),
        transactions_apply(accounts, txs),
    ensures
        distinct(apply_transactions(accounts, txs)),
        total(apply_transactions(accounts, txs)) == total(accounts),
    decreases txs.len(),
{
    if txs.len() > 0 {
        lemma_apply_transactions(accounts, txs.drop_last());
        lemma_apply_transaction(apply_transactions(accounts, txs.drop_last()), txs.last());
    }
}

/// The sum of the rewards of the blocks of `chain`.
pub open spec fn minted(chain: Seq<BlockView>) -> nat
    decreases chain.len(),
{
    if chain.len() == 0 {
        0
    } else {
        minted(chain.drop_last()) + chain.last().reward as nat
    }
}

/// A chain that applies folds into accounts without a double entry that
/// hold, together, the rewards of its blocks.
pub proof fn lemma_world_of(chain: Seq<BlockView>)
    requires
        chain_applies(chain),
    ensures
        distinct(world_of(chain)),
        total(world_of(chain)) == minted(chain),
    decreases chain.len(),
{
    if chain.len() > 0 {
        lemma_world_of(chain.drop_last());
        let before = world_of(chain.drop_last());
        lemma_apply_transactions(before, chain.last().transactions);
        lemma_apply_reward(
            apply_transactions(before, chain.last().transactions),
            chain.last().miner,
            chain.last().reward,
        );
    }
}

/// The account states that a chain of blocks leads to.
#[derive(Debug)]
pub struct World {
    accounts: Vec<AccountState>,
}

impl View for World {
    type V = Seq<AccountState>;

    closed spec fn view(&self) -> Seq<AccountState> {
        self.accounts@
    }
}

impl Clone for World {
    fn clone(&self) -> (copy: World)
        ensures
            copy@ == self@,
    {
        let mut accounts: Vec<AccountState> = Vec::new();
        let mut i: usize = 0;
        while i < self.accounts.len()
            invariant
                i <= self.accounts@.len(),
                accounts@ == self.accounts@.take(i as int),
            decreases self.accounts@.len() - i,
        {
            accounts.push(self.accounts[i]);
            assert(self.accounts@.take(i + 1) =~= self.accounts@.take(i as int).push(self.accounts@[i as int]));
            i += 1;
        }
        assert(self.accounts@.take(i as int) =~= self.accounts@);
        World { accounts }
    }
}

impl Default for World {
    fn default() -> (world: World)
        ensures
            world@ == Seq::<AccountState>::empty(),
            world.wf(),
    {
        World::new()
    }
}

impl World {
    /// No address occurs twice.
    pub open spec fn wf(&self) -> bool {
        distinct(self@)
    }

    /// The state of `address` in this world.
    pub open spec fn account(&self, address: Address) -> AccountState {
        account(self@, address)
    }

    /// The world in which nothing has happened yet.
    pub fn new() -> (world: World)
        ensures
            world@ == Seq::<AccountState>::empty(),
            world.wf(),
    {
        World { accounts: Vec::new() }
    }

    fn position(&self, address: &Address) -> (at: Option<usize>)
        requires
            distinct(self@),
        ensures
            match at {
                Some(i) => has_account(self@, *address) && i == account_at(self@, *address),
                None => !has_account(self@, *address),
            },
    {
        let mut i: usize = 0;
        while i < self.accounts.len()
            invariant
                i <= self.accounts@.len(),
                distinct(self@),
                forall|j: int| 0 <= j < i ==> (#[trigger] self.accounts@[j]).address != *address,
            decreases self.accounts@.len() - i,
        {
            if same_address(&self.accounts[i].address, address) {
                proof {
                    assert(self@[i as int].address == *address);
                    let k = account_at(self@, *address);
                    assert(self@[k].address == *address);
                    if k < i {
                        assert(self@[k].address != self@[i as int].address);
                    } else if i < k {
                        assert(self@[i as int].address != self@[k].address);
                    }
                }
                return Some(i);
            }
            i += 1;
        }
        None
    }

    /// The state of `address`; a fresh account where nothing has touched
    /// it yet.
    pub fn get_account_state(&self, address: &Address) -> (state: AccountState)
        requires
            self.wf(),
        ensures
            state == self.account(*address),
    {
        match self.position(address) {
            Some(i) => self.accounts[i],
            None => AccountState::new(*address),
        }
    }

    fn put(&mut self, state: AccountState)
        requires
            distinct(old(self)@),
        ensures
            final(self)@ == with_account(old(self)@, state),
    {
        match self.position(&state.address) {
            Some(i) => {
                self.accounts[i] = state;
            },
            None => {
                self.accounts.push(state);
            },
        }
    }

    /// Whether the transaction applies: its sender holds the amount and
    /// can count one more transfer, and the recipient's balance with the
    /// amount fits in `u128`.
    pub fn can_apply(&self, transaction: &Transaction) -> (yes: bool)
        requires
            self.wf(),
        ensures
            yes == transaction_applies(self@, *transaction),
    {
        let sender = self.get_account_state(&transaction.sender);
        if sender.balance < transaction.amount || sender.transaction_index == u128::MAX {
            return false;
        }
        if same_address(&transaction.sender, &transaction.recipient) {
            return true;
        }
        let recipient = self.get_account_state(&transaction.recipient);
        recipient.balance <= u128::MAX - transaction.amount
    }

    /// Moves the amount from the sender to the recipient and counts the
    /// transfer for the sender.
    #[verifier::rlimit(50)]
    pub fn update_on_transaction(&mut self, transaction: &Transaction)
        requires
            old(self).wf(),
            transaction_applies(old(self)@, *transaction),
        ensures
            final(self)@ == apply_transaction(old(self)@, *transaction),
            final(self).wf(),
            total(final(self)@) == total(old(self)@),
            forall|a: Address| #[trigger]
                final(self).account(a) == old(self).account(a).after_transaction(*transaction),
    {
        proof {
            lemma_apply_transaction(self@, *transaction);
        }
        let mut sender = self.get_account_state(&transaction.sender);
        proof {
            lemma_account_within_total(self@, transaction.sender);
            lemma_with_account(self@, sender.after_transaction(*transaction));
            assert(account(self@, transaction.sender).admits(*transaction));
        }
        sender.update_on_transaction(transaction);
        self.put(sender);
        if !same_address(&transaction.sender, &transaction.recipient) {
            let mut recipient = self.get_account_state(&transaction.recipient);
            recipient.update_on_transaction(transaction);
            self.put(recipient);
        }
    }

    /// Credits the block's reward to its miner; the block's transactions
    /// are not applied.
    pub fn update_on_block(&mut self, block: &Block)
        requires
            old(self).wf(),
            old(self).account(block.miner).balance + block.reward <= u128::MAX,
        ensures
            final(self)@ == apply_reward(old(self)@, block.miner, block.reward),
            final(self).wf(),
            total(final(self)@) == total(old(self)@) + block.reward,
            forall|a: Address| #[trigger]
                final(self).account(a) == old(self).account(a).after_reward(block.miner, block.reward),
    {
        proof {
            lemma_apply_reward(self@, block.miner, block.reward);
            lemma_account_within_total(self@, block.miner);
        }
        let mut miner = self.get_account_state(&block.miner);
        miner.update_on_block(block);
        self.put(miner);
    }

    /// Applies the transactions in order.
    pub fn update_on_transactions(&mut self, transactions: &Vec<Transaction>)
        requires
            old(self).wf(),
            transactions_apply(old(self)@, transactions@),
        ensures
            final(self)@ == apply_transactions(old(self)@, transactions@),
            final(self).wf(),
            total(final(self)@) == total(old(self)@),
    {
        let ghost start = self@;
        let mut j: usize = 0;
        while j < transactions.len()
            invariant
                j <= transactions@.len(),
                distinct(start),
                transactions_apply(start, transactions@),
                self@ == apply_transactions(start, transactions@.take(j as int)),
                self.wf(),
                total(self@) == total(start),
            decreases transactions@.len() - j,
        {
            proof {
                lemma_transactions_apply_prefix(start, transactions@, j + 1);
                assert(transactions@.take(j + 1).drop_last() =~= transactions@.take(j as int));
            }
            self.update_on_transaction(&transactions[j]);
            j += 1;
        }
        assert(transactions@.take(j as int) =~= transactions@);
    }

    /// Folds a chain, oldest block first, into the world it leads to: for
    /// each block its transactions in order, then its reward.
    pub fn from_chain(chain: &Vec<Block>) -> (world: World)
        requires
            chain_applies(views(chain@)),
        ensures
            world@ == world_of(views(chain@)),
            world.wf(),
    {
        let mut world = World::new();
        let mut i: usize = 0;
        assert(views(chain@).take(0) =~= Seq::<BlockView>::empty());
        while i < chain.len()
            invariant
                i <= chain@.len(),
                chain_applies(views(chain@)),
                world@ == world_of(views(chain@).take(i as int)),
                world.wf(),
            decreases chain@.len() - i,
        {
            proof {
                lemma_chain_applies_prefix(views(chain@), i + 1);
                assert(views(chain@).take(i + 1).drop_last() =~= views(chain@).take(i as int));
                assert(views(chain@).take(i + 1).last() == chain@[i as int]@);
            }
            world.update_on_transactions(&chain[i].transactions);
            world.update_on_block(&chain[i]);
            i += 1;
        }
        assert(views(chain@).take(i as int) =~= views(chain@));
        world
    }
}

/// The first `n` of transactions that apply do so too.
pub proof fn lemma_transactions_apply_prefix(accounts: Seq<AccountState>, txs: Seq<Transaction>, n: int)
    requires
        transactions_apply(accounts, txs),
        0 <= n <= txs.len(),
    ensures
        transactions_apply(accounts, txs.take(n)),
    decreases txs.len(),
{
    if n == txs.len() {
        assert(txs.take(n) =~= txs);
    } else {
        lemma_transactions_apply_prefix(accounts, txs.drop_last(), n);
        assert(txs.drop_last().take(n) =~= txs.take(n));
    }
}

/// The first `n` blocks of a chain that applies do so too.
pub proof fn lemma_chain_applies_prefix(chain: Seq<BlockView>, n: int)
    requires
        chain_applies(chain),
        0 <= n <= chain.len(),
    ensures
        chain_applies(chain.take(n)),
    decreases chain.len(),
{
    if n == chain.len() {
        assert(chain.take(n) =~= chain);
    } else {
        lemma_chain_applies_prefix(chain.drop_last(), n);
        assert(chain.drop_last().take(n) =~= chain.take(n));
    }
}

} // verus!
