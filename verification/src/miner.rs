//! The miner's decisions: which transactions wait for the next block, on
//! which parent the candidate block stands, and what follows a successful
//! search for a nonce.

use vstd::prelude::*;
use crate::types::{same_address, zeros, Address};
use crate::transaction::Transaction;
use crate::block::{block_hash, Block, BlockView, BLOCK_REWARD, DIFFICULTY};
use crate::messages::{MinerEventView, MinerMessage};
use crate::world::{account, apply_transaction, apply_transactions, transaction_applies, transactions_apply, AccountState, World};

verus! {

/// `accounts` after each of `txs` in order, those passed over that do not
/// apply.
pub open spec fn advance(accounts: Seq<AccountState>, txs: Seq<Transaction>) -> Seq<AccountState>
    decreases txs.len(),
{
    if txs.len() == 0 {
        accounts
    } else {
        let before = advance(accounts, txs.drop_last());
        if transaction_applies(before, txs.last()) {
            apply_transaction(before, txs.last())
        } else {
            before
        }
    }
}

/// `waiting` is the transaction that `included` is, by sender and index.
pub open spec fn same_transfer(waiting: Transaction, included: Transaction) -> bool {
    waiting.sender == included.sender && waiting.index == included.index
}

/// Where the first of `pending` stands that is the same transfer as
/// `included`; the length of `pending` where none is.
pub open spec fn first_match(pending: Seq<Transaction>, included: Transaction) -> int
    decreases pending.len(),
{
    if pending.len() == 0 {
        0
    } else {
        let k = first_match(pending.drop_last(), included);
        if k < pending.len() - 1 {
            k
        } else if same_transfer(pending.last(), included) {
            pending.len() - 1
        } else {
            pending.len() as int
        }
    }
}

/// `pending` without the first transaction that is the same transfer as
/// `included`.
pub open spec fn without_match(pending: Seq<Transaction>, included: Transaction) -> Seq<Transaction> {
    let k = first_match(pending, included);
    if 0 <= k < pending.len() {
        pending.remove(k)
    } else {
        pending
    }
}

/// `pending` without the transactions that a block included: for each of
/// `included` in order, the first that is the same transfer leaves.
pub open spec fn without_included(pending: Seq<Transaction>, included: Seq<Transaction>) -> Seq<Transaction>
    decreases included.len(),
{
    if included.len() == 0 {
        pending
    } else {
        without_match(without_included(pending, included.drop_last()), included.last())
    }
}

/// `candidate` is the block to mine on `parent` with the transactions
/// `pending` for the miner `address`: the next index, the parent's hash,
/// the fixed reward and difficulty, and a zero nonce.
pub open spec fn is_candidate(
    candidate: BlockView,
    parent: Option<BlockView>,
    pending: Seq<Transaction>,
    address: Address,
) -> bool {
    &&& candidate.index == (match parent {
        Some(p) => p.index + 1,
        None => 1,
    })
    &&& candidate.prev_hash@ == (match parent {
        Some(p) => block_hash(p),
        None => zeros(32),
    })
    &&& candidate.nonce@ == zeros(32)
    &&& candidate.miner == address
    &&& candidate.reward == BLOCK_REWARD
    &&& candidate.transactions == pending
    &&& candidate.difficulty == DIFFICULTY
}

/// Where every pending transaction applies in its turn, moving the world
/// on over them is applying them all.
pub proof fn lemma_advance_applies_all(accounts: Seq<AccountState>, txs: Seq<Transaction>)
    requires
        transactions_apply(accounts, txs),
    ensures
        advance(accounts, txs) == apply_transactions(accounts, txs),
    decreases txs.len(),
{
    if txs.len() > 0 {
        lemma_advance_applies_all(accounts, txs.drop_last());
    }
}

/// `candidate` stands on `parent` for the miner `address`: it has the next
/// index, the parent's hash, the miner's address, and the fixed reward and
/// difficulty. Its nonce and its transactions are left open.
pub open spec fn stands_on(candidate: BlockView, parent: Option<BlockView>, address: Address) -> bool {
    &&& candidate.index == (match parent {
        Some(p) => p.index + 1,
        None => 1,
    })
    &&& candidate.prev_hash@ == (match parent {
        Some(p) => block_hash(p),
        None => zeros(32),
    })
    &&& candidate.miner == address
    &&& candidate.reward == BLOCK_REWARD
    &&& candidate.difficulty == DIFFICULTY
}

/// What is before the first match is no match, and what is found is one.
pub proof fn lemma_first_match(pending: Seq<Transaction>, included: Transaction)
    ensures
        0 <= first_match(pending, included) <= pending.len(),
        first_match(pending, included) < pending.len() ==> same_transfer(
            pending[first_match(pending, included)],
            included,
        ),
        forall|j: int| 0 <= j < first_match(pending, included) ==> !same_transfer(#[trigger] pending[j], included),
    decreases pending.len(),
{
    if pending.len() > 0 {
        lemma_first_match(pending.drop_last(), included);
        assert forall|j: int| 0 <= j < first_match(pending, included) implies !same_transfer(
            #[trigger] pending[j],
            included,
        ) by {
            if j < pending.len() - 1 {
                assert(pending.drop_last()[j] == pending[j]);
            }
        }
    }
}

/// The first match is where `at` says it is, if nothing before `at`
/// matches and `at` does, or `at` is the end.
pub proof fn lemma_first_match_at(pending: Seq<Transaction>, included: Transaction, at: int)
    requires
        0 <= at <= pending.len(),
        forall|j: int| 0 <= j < at ==> !same_transfer(#[trigger] pending[j], included),
        at < pending.len() ==> same_transfer(pending[at], included),
    ensures
        first_match(pending, included) == at,
{
    lemma_first_match(pending, included);
    let k = first_match(pending, included);
    if k < at {
        assert(!same_transfer(pending[k], included));
    }
}

/// The miner's state.
#[derive(Debug)]
pub struct Miner {
    parent: Option<Block>,
    pending: Vec<Transaction>,
    candidate: Block,
    address: Address,
}

impl Miner {
    /// The block that the candidate stands on, if any.
    pub closed spec fn parent_view(&self) -> Option<BlockView> {
        match self.parent {
            Some(p) => Some(p@),
            None => None,
        }
    }

    /// The transactions that wait for the next block.
    pub closed spec fn pending_view(&self) -> Seq<Transaction> {
        self.pending@
    }

    /// The block that is being mined.
    pub closed spec fn candidate_view(&self) -> BlockView {
        self.candidate@
    }

    /// The address that rewards go to.
    pub closed spec fn address_view(&self) -> Address {
        self.address
    }

    /// The parent leaves room for one more index, and the candidate
    /// stands on the parent for this miner.
    pub open spec fn wf(&self) -> bool {
        &&& self.parent_view() is Some ==> self.parent_view().unwrap().index < u128::MAX
        &&& stands_on(self.candidate_view(), self.parent_view(), self.address_view())
    }

    /// A miner for `address` that starts on `parent`, with nothing pending.
    pub fn new(parent: Option<Block>, address: Address) -> (miner: Miner)
        requires
            parent is Some ==> parent.unwrap().index < u128::MAX,
        ensures
            miner.wf(),
            miner.parent_view() == (match parent {
                Some(p) => Some(p@),
                None => None,
            }),
            miner.pending_view() == Seq::<Transaction>::empty(),
            miner.address_view() == address,
            is_candidate(miner.candidate_view(), miner.parent_view(), miner.pending_view(), address),
    {
        let pending: Vec<Transaction> = Vec::new();
        let candidate = Block::new(parent.as_ref(), &pending, &address);
        Miner { parent, pending, candidate, address }
    }

    /// The block that is being mined.
    pub fn candidate(&self) -> (block: &Block)
        ensures
            block@ == self.candidate_view(),
    {
        &self.candidate
    }

    /// How many transactions wait for the next block.
    pub fn pending_len(&self) -> (n: usize)
        ensures
            n == self.pending_view().len(),
    {
        self.pending.len()
    }

    fn rebuild(&mut self)
        requires
            old(self).parent_view() is Some ==> old(self).parent_view().unwrap().index < u128::MAX,
        ensures
            final(self).wf(),
            final(self).parent_view() == old(self).parent_view(),
            final(self).pending_view() == old(self).pending_view(),
            final(self).address_view() == old(self).address_view(),
            is_candidate(
                final(self).candidate_view(),
                final(self).parent_view(),
                final(self).pending_view(),
                final(self).address_view(),
            ),
    {
        self.candidate = Block::new(self.parent.as_ref(), &self.pending, &self.address);
    }

    /// Takes a transaction that was valid in `world`: moves `world` on
    /// over the pending transactions, and where the transaction is valid
    /// there too, lets it wait with them and rebuilds the candidate.
    pub fn on_transaction(&mut self, transaction: Transaction, world: World) -> (taken: bool)
        requires
            old(self).wf(),
            world.wf(),
        ensures
            final(self).wf(),
            taken == (transaction.check(
                account(advance(world@, old(self).pending_view()), transaction.sender),
            ) is Ok),
            final(self).parent_view() == old(self).parent_view(),
            final(self).address_view() == old(self).address_view(),
            taken ==> final(self).pending_view() == old(self).pending_view().push(transaction) && is_candidate(
                final(self).candidate_view(),
                final(self).parent_view(),
                final(self).pending_view(),
                final(self).address_view(),
            ),
            !taken ==> final(self).pending_view() == old(self).pending_view() && final(self).candidate_view()
                == old(self).candidate_view(),
    {
        let mut world = world;
        let ghost start = world@;
        let mut i: usize = 0;
        assert(self.pending@.take(0) =~= Seq::<Transaction>::empty());
        while i < self.pending.len()
            invariant
                i <= self.pending@.len(),
                world.wf(),
                world@ == advance(start, self.pending@.take(i as int)),
            decreases self.pending@.len() - i,
        {
            proof {
                assert(self.pending@.take(i + 1).drop_last() =~= self.pending@.take(i as int));
                assert(self.pending@.take(i + 1).last() == self.pending@[i as int]);
            }
            if world.can_apply(&self.pending[i]) {
                world.update_on_transaction(&self.pending[i]);
            }
            i += 1;
        }
        assert(self.pending@.take(i as int) =~= self.pending@);
        if transaction.is_valid(&world).is_ok() {
            self.pending.push(transaction);
            self.rebuild();
            true
        } else {
            false
        }
    }

    fn drop_included(&mut self, included: &Transaction)
        ensures
            final(self).pending_view() == without_match(old(self).pending_view(), *included),
            final(self).parent_view() == old(self).parent_view(),
            final(self).address_view() == old(self).address_view(),
            final(self).candidate_view() == old(self).candidate_view(),
    {
        let mut i: usize = 0;
        while i < self.pending.len()
            invariant
                i <= self.pending@.len(),
                *self == *old(self),
                forall|j: int| 0 <= j < i ==> !same_transfer(#[trigger] self.pending@[j], *included),
            decreases self.pending@.len() - i,
        {
            if same_address(&self.pending[i].sender, &included.sender) && self.pending[i].index
                == included.index {
                proof {
                    lemma_first_match_at(self.pending@, *included, i as int);
                }
                self.pending.remove(i);
                return ;
            }
            i += 1;
        }
        proof {
            lemma_first_match_at(self.pending@, *included, i as int);
        }
    }

    /// Takes a block that made the canonical chain longer: the pending
    /// transactions that it includes leave, it becomes the parent, and the
    /// candidate is rebuilt.
    pub fn on_block(&mut self, block: Block)
        requires
            block.index < u128::MAX,
        ensures
            final(self).wf(),
            final(self).parent_view() == Some(block@),
            final(self).pending_view() == without_included(old(self).pending_view(), block.transactions@),
            final(self).address_view() == old(self).address_view(),
            is_candidate(
                final(self).candidate_view(),
                final(self).parent_view(),
                final(self).pending_view(),
                final(self).address_view(),
            ),
    {
        let mut i: usize = 0;
        assert(block.transactions@.take(0) =~= Seq::<Transaction>::empty());
        while i < block.transactions.len()
            invariant
                i <= block.transactions@.len(),
                self.pending_view() == without_included(old(self).pending_view(), block.transactions@.take(i as int)),
                self.address_view() == old(self).address_view(),
            decreases block.transactions@.len() - i,
        {
            proof {
                assert(block.transactions@.take(i + 1).drop_last() =~= block.transactions@.take(i as int));
                assert(block.transactions@.take(i + 1).last() == block.transactions@[i as int]);
            }
            self.drop_included(&block.transactions[i]);
            i += 1;
        }
        assert(block.transactions@.take(i as int) =~= block.transactions@);
        self.parent = Some(block);
        self.rebuild();
    }

    /// Takes what the node tells the miner.
    pub fn on_message(&mut self, message: MinerMessage)
        requires
            old(self).wf(),
            match message {
                MinerMessage::NewTransaction(_, world) => world.wf(),
                MinerMessage::NewBlock(block) => block.index < u128::MAX,
            },
        ensures
            final(self).wf(),
            final(self).address_view() == old(self).address_view(),
            match message@ {
                MinerEventView::NewTransaction(tx, world) => {
                    let taken = tx.check(account(advance(world, old(self).pending_view()), tx.sender)) is Ok;
                    &&& final(self).parent_view() == old(self).parent_view()
                    &&& final(self).pending_view() == (if taken {
                        old(self).pending_view().push(tx)
                    } else {
                        old(self).pending_view()
                    })
                    &&& if taken {
                        is_candidate(
                            final(self).candidate_view(),
                            final(self).parent_view(),
                            final(self).pending_view(),
                            final(self).address_view(),
                        )
                    } else {
                        final(self).candidate_view() == old(self).candidate_view()
                    }
                },
                MinerEventView::NewBlock(block) => {
                    &&& final(self).parent_view() == Some(block)
                    &&& final(self).pending_view() == without_included(old(self).pending_view(), block.transactions)
                    &&& is_candidate(
                        final(self).candidate_view(),
                        final(self).parent_view(),
                        final(self).pending_view(),
                        final(self).address_view(),
                    )
                },
            },
    {
        match message {
            MinerMessage::NewTransaction(transaction, world) => {
                let _ = self.on_transaction(transaction, world);
            },
            MinerMessage::NewBlock(block) => {
                self.on_block(block);
            },
        }
    }

    /// What follows a search for a nonce: where one was found, the
    /// candidate is handed out to be broadcast and nothing waits any more.
    pub fn after_search(&mut self, found: bool) -> (mined: Option<Block>)
        ensures
            final(self).wf() == old(self).wf(),
            final(self).parent_view() == old(self).parent_view(),
            final(self).candidate_view() == old(self).candidate_view(),
            final(self).address_view() == old(self).address_view(),
            found ==> mined is Some && mined.unwrap()@ == old(self).candidate_view() && final(self).pending_view()
                == Seq::<Transaction>::empty(),
            !found ==> mined is None && final(self).pending_view() == old(self).pending_view(),
    {
        if found {
            self.pending.clear();
            Some(self.candidate.clone())
        } else {
            None
        }
    }

    /// Tries up to `attempts` random nonces on the candidate. Where one
    /// gives it its work, the candidate is handed out to be broadcast and
    /// nothing waits any more. Only the candidate's nonce changes. Where
    /// at least one nonce was tried, a block is handed out exactly if the
    /// candidate, with the nonce that it is left with, has its work. The
    /// block handed out stands on the miner's parent and carries the
    /// miner's address, the fixed reward and the fixed difficulty.
    pub fn mine(&mut self, attempts: u128) -> (mined: Option<Block>)
        requires
            old(self).wf(),
        ensures
            final(self).wf(),
            mined is Some ==> stands_on(mined.unwrap()@, old(self).parent_view(), old(self).address_view()),
            final(self).parent_view() == old(self).parent_view(),
            final(self).address_view() == old(self).address_view(),
            final(self).candidate_view() == old(self).candidate_view().with_nonce(final(self).candidate_view().nonce),
            match mined {
                Some(block) => block@ == final(self).candidate_view() && block@.has_work()
                    && final(self).pending_view() == Seq::<Transaction>::empty(),
                None => final(self).pending_view() == old(self).pending_view(),
            },
            attempts > 0 ==> (mined is Some) == final(self).candidate_view().has_work(),
            attempts == 0 ==> mined is None && final(self).candidate_view() == old(self).candidate_view(),
    {
        let found = self.candidate.mine(attempts);
        self.after_search(found)
    }
}

} // verus!
