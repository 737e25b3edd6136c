//! Blocks: their shape, hash, proof of work and validation.

use vstd::prelude::*;
use vstd::string::*;
use crate::types::{Address, ValidationError};
use crate::types::{has_leading_zeros, is_zero_hash, starts_with_zeros, zeros};
use crate::transaction::Transaction;
use crate::codec::{block_bytes, hashed_bytes};
use crate::crypto::{random_nonce, sha3_256, sha3_256_digest};
use crate::blockchain::{block_of, holds, ledger_ok, lemma_path_length, linked, path, slot_of, well_placed, BlockChain};
use crate::world::{account, apply_transactions, lemma_account_within_total, lemma_apply_transactions, lemma_sound_transaction_applies, lemma_world_of, minted, sound, total, transactions_apply, world_of, AccountState, World};

verus! {

/// The number of leading zero bytes that a block's hash must have.
pub const DIFFICULTY: u32 = 2;

/// What the miner of a block is credited.
pub const BLOCK_REWARD: u128 = 100;

/// A record that links to its parent and holds transactions in order.
#[derive(Debug, PartialEq)]
pub struct Block {
    pub index: u128,
    pub prev_hash: [u8; 32],
    pub nonce: [u8; 32],
    pub miner: Address,
    pub reward: u128,
    pub transactions: Vec<Transaction>,
    pub difficulty: u32,
}

/// A block as a value: its fields, with the transactions as a sequence.
pub ghost struct BlockView {
    pub index: u128,
    pub prev_hash: [u8; 32],
    pub nonce: [u8; 32],
    pub miner: Address,
    pub reward: u128,
    pub transactions: Seq<Transaction>,
    pub difficulty: u32,
}

impl View for Block {
    type V = BlockView;

    open spec fn view(&self) -> BlockView {
        BlockView {
            index: self.index,
            prev_hash: self.prev_hash,
            nonce: self.nonce,
            miner: self.miner,
            reward: self.reward,
            transactions: self.transactions@,
            difficulty: self.difficulty,
        }
    }
}

/// The blocks of `chain` as values.
pub open spec fn views(chain: Seq<Block>) -> Seq<BlockView> {
    Seq::new(chain.len(), |i: int| chain[i]@)
}

/// The hash of a block: the SHA3-256 digest of its bytes.
pub open spec fn block_hash(block: BlockView) -> Seq<u8> {
    sha3_256(block_bytes(block))
}

impl BlockView {
    /// The hash starts with as many zero bytes as the block's difficulty
    /// asks for.
    pub open spec fn has_work(self) -> bool {
        has_leading_zeros(block_hash(self), self.difficulty as nat)
    }

    /// This block with another nonce.
    pub open spec fn with_nonce(self, nonce: [u8; 32]) -> BlockView {
        BlockView { nonce, ..self }
    }
}

/// A copy of the transactions.
pub fn copy_transactions(transactions: &Vec<Transaction>) -> (copy: Vec<Transaction>)
    ensures
        copy@ == transactions@,
{
    let mut copy: Vec<Transaction> = Vec::new();
    let mut i: usize = 0;
    while i < transactions.len()
        invariant
            i <= transactions@.len(),
            copy@ == transactions@.take(i as int),
        decreases transactions@.len() - i,
    {
        copy.push(transactions[i]);
        assert(transactions@.take(i + 1) =~= transactions@.take(i as int).push(transactions@[i as int]));
        i += 1;
    }
    assert(transactions@.take(i as int) =~= transactions@);
    copy
}

impl Clone for Block {
    fn clone(&self) -> (copy: Block)
        ensures
            copy@ == self@,
    {
        Block {
            index: self.index,
            prev_hash: self.prev_hash,
            nonce: self.nonce,
            miner: self.miner,
            reward: self.reward,
            transactions: copy_transactions(&self.transactions),
            difficulty: self.difficulty,
        }
    }
}

impl Block {
    /// A candidate block on top of `parent`, or a first block where there
    /// is none: the fixed difficulty and reward, and a zero nonce.
    pub fn new(parent: Option<&Block>, transactions: &Vec<Transaction>, miner: &Address) -> (block: Block)
        requires
            parent is Some ==> parent.unwrap().index < u128::MAX,
        ensures
            block.index == (match parent {
                Some(p) => p.index + 1,
                None => 1,
            }),
            block.prev_hash@ == (match parent {
                Some(p) => block_hash(p@),
                None => zeros(32),
            }),
            block.nonce@ == zeros(32),
            block.miner == *miner,
            block.reward == BLOCK_REWARD,
            block.transactions@ == transactions@,
            block.difficulty == DIFFICULTY,
    {
        let (index, prev_hash): (u128, [u8; 32]) = match parent {
            Some(p) => (p.index + 1, p.get_hash()),
            None => (1, [0u8; 32]),
        };
        let nonce = [0u8; 32];
        assert(nonce@ =~= zeros(32));
        assert(parent is None ==> prev_hash@ =~= zeros(32));
        Block {
            index,
            prev_hash,
            nonce,
            miner: *miner,
            reward: BLOCK_REWARD,
            transactions: copy_transactions(transactions),
            difficulty: DIFFICULTY,
        }
    }

    /// The SHA3-256 digest of the block's bytes.
    pub fn get_hash(&self) -> (hash: [u8; 32])
        ensures
            hash@ == block_hash(self@),
    {
        let data = hashed_bytes(self);
        sha3_256_digest(data.as_slice())
    }

    /// Whether the block's hash starts with as many zero bytes as its
    /// difficulty asks for.
    pub fn has_work(&self) -> (yes: bool)
        ensures
            yes == self@.has_work(),
    {
        let hash = self.get_hash();
        if self.difficulty > 32 {
            return false;
        }
        starts_with_zeros(hash.as_slice(), self.difficulty as usize)
    }

    /// Sets the nonce and says whether the block then has its work.
    pub fn try_nonce(&mut self, nonce: [u8; 32]) -> (found: bool)
        ensures
            final(self)@ == old(self)@.with_nonce(nonce),
            found == final(self)@.has_work(),
    {
        self.nonce = nonce;
        self.has_work()
    }

    /// Tries up to `attempts` random nonces and stops at the first that
    /// gives the block its work. Only the nonce changes. Where at least
    /// one nonce was tried, the answer says whether the block, with the
    /// nonce that it is left with, has its work: after a failure it holds
    /// the last nonce tried, which gave none.
    pub fn mine(&mut self, attempts: u128) -> (found: bool)
        ensures
            final(self)@ == old(self)@.with_nonce(final(self).nonce),
            found ==> final(self)@.has_work(),
            attempts > 0 ==> found == final(self)@.has_work(),
            attempts == 0 ==> !found && final(self)@ == old(self)@,
    {
        let mut tried: u128 = 0;
        while tried < attempts
            invariant
                tried <= attempts,
                self@ == old(self)@.with_nonce(self.nonce),
                tried == 0 ==> self@ == old(self)@,
                tried > 0 ==> !self@.has_work(),
            decreases attempts - tried,
        {
            let nonce = random_nonce();
            if self.try_nonce(nonce) {
                return true;
            }
            tried += 1;
        }
        false
    }
}

/// What validation says of transactions that are applied in order to
/// `accounts`: the error of the first that fails, each checked against the
/// accounts that those before it leave.
pub open spec fn transactions_check(accounts: Seq<AccountState>, txs: Seq<Transaction>) -> Result<
    (),
    ValidationError,
>
    decreases txs.len(),
{
    if txs.len() == 0 {
        Ok(())
    } else {
        match transactions_check(accounts, txs.drop_last()) {
            Err(e) => Err(e),
            Ok(_) => txs.last().check(
                account(apply_transactions(accounts, txs.drop_last()), txs.last().sender),
            ),
        }
    }
}

impl BlockView {
    /// The index of the parent in `store`; 0 for a block without a parent.
    pub open spec fn parent_index(self, store: Seq<BlockView>) -> int {
        if self.prev_hash@ == zeros(32) {
            0
        } else {
            block_of(store, self.prev_hash@).index as int
        }
    }

    /// What validation says of the block's own fields, its link to the
    /// store and its work.
    pub open spec fn structure_check(self, store: Seq<BlockView>) -> Result<(), ValidationError> {
        if self.difficulty != DIFFICULTY {
            Err(ValidationError::InvalidDifficulty)
        } else if self.reward != BLOCK_REWARD {
            Err(ValidationError::InvalidReward)
        } else if self.prev_hash@ != zeros(32) && !holds(store, self.prev_hash@) {
            Err(ValidationError::UnknownParent)
        } else if self.index != self.parent_index(store) + 1 {
            Err(ValidationError::BadIndex { expected: (self.parent_index(store) + 1) as u128, found: self.index })
        } else if !self.has_work() {
            Err(ValidationError::InsufficientWork)
        } else {
            Ok(())
        }
    }

    /// The text that a peer is told of a block that is not valid: the
    /// error's own text, and for a transaction that fails, the
    /// transaction in words before it.
    pub open spec fn refusal(self, store: Seq<BlockView>) -> Seq<char> {
        match self.structure_check(store) {
            Err(e) => e.text(),
            Ok(_) => {
                let accounts = world_of(path(store, self.prev_hash@));
                match transactions_check(accounts, self.transactions) {
                    Err(e) => "Invalid transaction: "@ + self.transactions[first_failure(
                        accounts,
                        self.transactions,
                    )].description() + ". Error: "@ + e.text(),
                    Ok(_) => Seq::empty(),
                }
            },
        }
    }

    /// What validation says of the block against `store`: its structure
    /// first, then its transactions against the world that the parent's
    /// chain folds into.
    pub open spec fn validity(self, store: Seq<BlockView>) -> Result<(), ValidationError> {
        match self.structure_check(store) {
            Err(e) => Err(e),
            Ok(_) => transactions_check(world_of(path(store, self.prev_hash@)), self.transactions),
        }
    }
}

/// Transactions that pass validation apply, where the sum of the
/// balances fits in `u128`.
pub proof fn lemma_checked_transactions_apply(accounts: Seq<AccountState>, txs: Seq<Transaction>)
    requires
        sound(accounts),
        transactions_check(accounts, txs) is Ok,
    ensures
        transactions_apply(accounts, txs),
    decreases txs.len(),
{
    if txs.len() > 0 {
        lemma_checked_transactions_apply(accounts, txs.drop_last());
        lemma_apply_transactions(accounts, txs.drop_last());
        lemma_sound_transaction_applies(apply_transactions(accounts, txs.drop_last()), txs.last());
    }
}

/// Where the first of `txs` stands that fails validation, where one does.
pub open spec fn first_failure(accounts: Seq<AccountState>, txs: Seq<Transaction>) -> int
    decreases txs.len(),
{
    if txs.len() == 0 {
        0
    } else if transactions_check(accounts, txs.drop_last()) is Err {
        first_failure(accounts, txs.drop_last())
    } else {
        txs.len() - 1
    }
}

/// Once a transaction has failed, the transactions after it change
/// neither the error nor which transaction failed first.
pub proof fn lemma_first_error_stays(accounts: Seq<AccountState>, txs: Seq<Transaction>, n: int)
    requires
        0 <= n <= txs.len(),
        transactions_check(accounts, txs.take(n)) is Err,
    ensures
        transactions_check(accounts, txs) == transactions_check(accounts, txs.take(n)),
        first_failure(accounts, txs) == first_failure(accounts, txs.take(n)),
    decreases txs.len(),
{
    if n == txs.len() {
        assert(txs.take(n) =~= txs);
    } else {
        assert(txs.drop_last().take(n) =~= txs.take(n));
        lemma_first_error_stays(accounts, txs.drop_last(), n);
    }
}

/// Validates the transactions in order, each against the world that those
/// before it leave, and hands back the world after all of them. Stops at
/// the first that fails, with its place and its error.
pub fn validate_transactions(world: World, transactions: &Vec<Transaction>) -> (outcome: Result<
    World,
    (usize, ValidationError),
>)
    requires
        world.wf(),
        total(world@) <= u128::MAX,
    ensures
        match outcome {
            Ok(after) => {
                &&& transactions_check(world@, transactions@) is Ok
                &&& transactions_apply(world@, transactions@)
                &&& after@ == apply_transactions(world@, transactions@)
                &&& after.wf()
                &&& total(after@) == total(world@)
            },
            Err(failed) => {
                &&& transactions_check(world@, transactions@) == Err::<(), ValidationError>(failed.1)
                &&& failed.0 == first_failure(world@, transactions@)
                &&& failed.0 < transactions@.len()
            },
        },
{
    let ghost start = world@;
    let mut current = world;
    let mut j: usize = 0;
    assert(transactions@.take(0) =~= Seq::<Transaction>::empty());
    while j < transactions.len()
        invariant
            j <= transactions@.len(),
            start == world@,
            current.wf(),
            total(start) <= u128::MAX,
            total(current@) == total(start),
            transactions_check(start, transactions@.take(j as int)) is Ok,
            current@ == apply_transactions(start, transactions@.take(j as int)),
        decreases transactions@.len() - j,
    {
        proof {
            assert(transactions@.take(j + 1).drop_last() =~= transactions@.take(j as int));
            assert(transactions@.take(j + 1).last() == transactions@[j as int]);
        }
        match transactions[j].is_valid(&current) {
            Err(e) => {
                proof {
                    lemma_first_error_stays(start, transactions@, j + 1);
                }
                return Err((j, e));
            },
            Ok(_) => {
                proof {
                    lemma_sound_transaction_applies(current@, transactions@[j as int]);
                }
                current.update_on_transaction(&transactions[j]);
            },
        }
        j += 1;
    }
    proof {
        assert(transactions@.take(j as int) =~= transactions@);
        lemma_checked_transactions_apply(start, transactions@);
    }
    Ok(current)
}

/// A chain that can be folded can still be folded with one more block on
/// it that carries the fixed reward and whose transactions apply.
pub proof fn lemma_chain_grows(before: Seq<BlockView>, block: BlockView)
    requires
        ledger_ok(before),
        before.len() <= usize::MAX,
        block.reward == BLOCK_REWARD,
        transactions_apply(world_of(before), block.transactions),
    ensures
        ledger_ok(before.push(block)),
{
    let after = before.push(block);
    assert(after.drop_last() =~= before);
    lemma_world_of(before);
    lemma_apply_transactions(world_of(before), block.transactions);
    lemma_account_within_total(apply_transactions(world_of(before), block.transactions), block.miner);
    assert(minted(after) == minted(before) + block.reward);
    assert(BLOCK_REWARD * after.len() == BLOCK_REWARD * before.len() + BLOCK_REWARD) by (nonlinear_arith)
        requires
            after.len() == before.len() + 1,
    ;
}

impl Block {
    /// Checks the block's own fields, its link to the store and its work.
    pub fn check_structure(&self, blockchain: &BlockChain) -> (outcome: Result<(), ValidationError>)
        requires
            blockchain.wf(),
        ensures
            outcome == self@.structure_check(blockchain@),
            outcome is Ok ==> linked(blockchain@, self@),
    {
        if self.difficulty != DIFFICULTY {
            return Err(ValidationError::InvalidDifficulty);
        }
        if self.reward != BLOCK_REWARD {
            return Err(ValidationError::InvalidReward);
        }
        let mut parent_index: u128 = 0;
        if !is_zero_hash(&self.prev_hash) {
            match blockchain.get(&self.prev_hash) {
                Some(parent) => {
                    proof {
                        let at = slot_of(blockchain@, self.prev_hash@);
                        assert(well_placed(blockchain@, at));
                        lemma_path_length(blockchain@, at);
                    }
                    parent_index = parent.index;
                },
                None => {
                    return Err(ValidationError::UnknownParent);
                },
            }
        }
        if self.index != parent_index + 1 {
            return Err(ValidationError::BadIndex { expected: parent_index + 1, found: self.index });
        }
        if !self.has_work() {
            return Err(ValidationError::InsufficientWork);
        }
        Ok(())
    }

    /// Validates the block against the store: difficulty, reward, parent,
    /// index and work, then each transaction in order against the world
    /// that the parent's chain folds into. A block that passes can be
    /// inserted.
    pub fn is_valid(&self, blockchain: &BlockChain) -> (outcome: Result<(), ValidationError>)
        requires
            blockchain.wf(),
        ensures
            outcome == self@.validity(blockchain@),
            outcome is Ok ==> linked(blockchain@, self@),
            outcome is Ok ==> ledger_ok(path(blockchain@, self.prev_hash@).push(self@)),
    {
        match self.examine(blockchain) {
            Ok(_) => Ok(()),
            Err(refused) => Err(refused.0),
        }
    }

    /// Validates the block as `is_valid` does, and where it fails, also
    /// gives the text that a peer is told: the error's own text, and for
    /// a transaction that fails, the transaction in words before it.
    pub fn examine(&self, blockchain: &BlockChain) -> (outcome: Result<(), (ValidationError, String)>)
        requires
            blockchain.wf(),
        ensures
            match outcome {
                Ok(_) => self@.validity(blockchain@) is Ok,
                Err(refused) => self@.validity(blockchain@) == Err::<(), ValidationError>(refused.0) && refused.1@
                    == self@.refusal(blockchain@),
            },
            outcome is Ok ==> linked(blockchain@, self@),
            outcome is Ok ==> ledger_ok(path(blockchain@, self.prev_hash@).push(self@)),
    {
        match self.check_structure(blockchain) {
            Err(e) => {
                return Err((e, e.message()));
            },
            Ok(_) => {},
        }
        let chain = blockchain.get_chain_from_leaf(self.prev_hash);
        let ghost before = views(chain@);
        let length = chain.len();
        let world = World::from_chain(&chain);
        proof {
            assert(before.len() == length);
            lemma_world_of(before);
        }
        match validate_transactions(world, &self.transactions) {
            Ok(_) => {
                proof {
                    lemma_chain_grows(before, self@);
                }
                Ok(())
            },
            Err(failed) => {
                let text = "Invalid transaction: ".to_owned().concat(
                    self.transactions[failed.0].describe().as_str(),
                );
                let text = text.concat(". Error: ").concat(failed.1.message().as_str());
                Err((failed.1, text))
            },
        }
    }
}

} // verus!
