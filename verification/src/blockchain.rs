//! The block tree: every block that was accepted, found by its hash, and
//! the longest chain in it.

use vstd::prelude::*;
use crate::types::{is_zero_hash, same_hash, zeros};
use crate::block::{block_hash, views, Block, BlockView, BLOCK_REWARD};
use crate::world::{account, chain_applies, minted, world_of, World};
use crate::types::ValidationError;
use crate::wire::{all_storable, decode_store, entries_bytes, store_bytes, write_entry};
use vstd::bytes::u32_to_le_bytes;
use crate::codec::{block_bytes, can_encode, encodable};
use crate::wire::all_encodable;
use crate::transaction::Transaction;
use crate::messages::{event_view, ClientNetworkMessage, MinerEventView, MinerMessage, ReplyView, RequestView, ServerNetworkMessage};

verus! {

/// Some block of `store` has the hash `hash`.
pub open spec fn holds(store: Seq<BlockView>, hash: Seq<u8>) -> bool {
    exists|i: int| 0 <= i < store.len() && block_hash(#[trigger] store[i]) == hash
}

/// Where the block with the hash `hash` stands in `store`.
pub open spec fn slot_of(store: Seq<BlockView>, hash: Seq<u8>) -> int {
    choose|i: int| 0 <= i < store.len() && block_hash(#[trigger] store[i]) == hash
}

/// The block of `store` with the hash `hash`.
pub open spec fn block_of(store: Seq<BlockView>, hash: Seq<u8>) -> BlockView {
    store[slot_of(store, hash)]
}

/// No two blocks of `store` have the same hash.
pub open spec fn unique(store: Seq<BlockView>) -> bool {
    forall|i: int, j: int|
        0 <= i < j < store.len() ==> block_hash(#[trigger] store[i]) != block_hash(#[trigger] store[j])
}

/// The blocks from the root down to `block`: its ancestors in `store`,
/// oldest first, then `block` itself.
pub open spec fn path_of(store: Seq<BlockView>, block: BlockView) -> Seq<BlockView>
    decreases block.index,
{
    let parent = block.prev_hash@;
    if parent != zeros(32) && holds(store, parent) && block_of(store, parent).index < block.index {
        path_of(store, block_of(store, parent)).push(block)
    } else {
        seq![block]
    }
}

/// The chain that ends in the block with the hash `leaf`, oldest block
/// first; empty for the zero hash and for a hash that `store` does not hold.
pub open spec fn path(store: Seq<BlockView>, leaf: Seq<u8>) -> Seq<BlockView> {
    if leaf == zeros(32) || !holds(store, leaf) {
        Seq::empty()
    } else {
        path_of(store, block_of(store, leaf))
    }
}

/// `block` is a first block with index 1, or its parent is in `store` and
/// has the index before its own.
pub open spec fn linked(store: Seq<BlockView>, block: BlockView) -> bool {
    if block.prev_hash@ == zeros(32) {
        block.index == 1
    } else {
        holds(store, block.prev_hash@) && block.index == block_of(store, block.prev_hash@).index + 1
    }
}

/// `chain` can be folded into a world, holds no more than the fixed reward
/// for each of its blocks, and is no longer than a machine can hold.
pub open spec fn ledger_ok(chain: Seq<BlockView>) -> bool {
    chain_applies(chain) && minted(chain) <= BLOCK_REWARD * chain.len() && chain.len() <= usize::MAX + 1
}

/// What holds of every store that was built by accepting blocks: hashes
/// are unique, each block is valid, is linked to its parent and stands
/// after it, and each chain in it can be folded into a world.
pub open spec fn store_ok(store: Seq<BlockView>) -> bool {
    &&& unique(store)
    &&& forall|i: int| 0 <= i < store.len() ==> #[trigger] well_placed(store, i)
}

/// The block at `i` is valid and linked to its parent, which stands
/// before it, and the chain that ends in it can be folded into a world.
pub open spec fn well_placed(store: Seq<BlockView>, i: int) -> bool {
    &&& linked(store, store[i])
    &&& ledger_ok(path_of(store, store[i]))
    &&& store[i].prev_hash@ != zeros(32) ==> slot_of(store, store[i].prev_hash@) < i
    &&& store[i].validity(store) is Ok
}

/// The first block of `store` among those with the highest index.
pub open spec fn tip(store: Seq<BlockView>) -> int
    decreases store.len(),
{
    if store.len() <= 1 {
        0
    } else {
        let before = tip(store.drop_last());
        if store.last().index > store[before].index {
            store.len() - 1
        } else {
            before
        }
    }
}

/// The canonical chain: the chain that ends in the tip, oldest block first.
pub open spec fn canonical(store: Seq<BlockView>) -> Seq<BlockView> {
    if store.len() == 0 {
        Seq::empty()
    } else {
        path_of(store, store[tip(store)])
    }
}

/// `store` with `block` added, unless it holds a block with that hash
/// already.
pub open spec fn store_with(store: Seq<BlockView>, block: BlockView) -> Seq<BlockView> {
    if holds(store, block_hash(block)) {
        store
    } else {
        store.push(block)
    }
}

/// In a store with unique hashes, the block found under the hash of one of
/// its blocks is that block.
pub proof fn lemma_block_of(store: Seq<BlockView>, i: int)
    requires
        unique(store),
        0 <= i < store.len(),
    ensures
        holds(store, block_hash(store[i])),
        slot_of(store, block_hash(store[i])) == i,
        block_of(store, block_hash(store[i])) == store[i],
{
    let h = block_hash(store[i]);
    assert(holds(store, h));
    let k = slot_of(store, h);
    if k < i {
        assert(block_hash(store[k]) != block_hash(store[i]));
    } else if i < k {
        assert(block_hash(store[i]) != block_hash(store[k]));
    }
}

/// The tip is in the store, and no block has a higher index.
pub proof fn lemma_tip(store: Seq<BlockView>)
    requires
        store.len() > 0,
    ensures
        0 <= tip(store) < store.len(),
        forall|i: int| 0 <= i < store.len() ==> (#[trigger] store[i]).index <= store[tip(store)].index,
    decreases store.len(),
{
    if store.len() > 1 {
        lemma_tip(store.drop_last());
        let before = tip(store.drop_last());
        assert forall|i: int| 0 <= i < store.len() implies (#[trigger] store[i]).index <= store[tip(
            store,
        )].index by {
            if i < store.len() - 1 {
                assert(store.drop_last()[i] == store[i]);
            }
        }
    }
}

/// In a sound store, a chain is as long as the index of its last block.
pub proof fn lemma_path_length(store: Seq<BlockView>, i: int)
    requires
        store_ok(store),
        0 <= i < store.len(),
    ensures
        path_of(store, store[i]).len() == store[i].index,
        path_of(store, store[i]).last() == store[i],
    decreases store[i].index,
{
    let block = store[i];
    assert(well_placed(store, i));
    if block.prev_hash@ != zeros(32) {
        let k = slot_of(store, block.prev_hash@);
        lemma_path_length(store, k);
    }
}

/// In a sound store, the chain that ends in a block starts with a block
/// without a parent, and each block after that has the one before it as
/// its parent.
pub proof fn lemma_path_is_linked(store: Seq<BlockView>, i: int)
    requires
        store_ok(store),
        0 <= i < store.len(),
    ensures
        path_of(store, store[i]).len() >= 1,
        path_of(store, store[i])[0].prev_hash@ == zeros(32),
        forall|k: int|
            1 <= k < path_of(store, store[i]).len() ==> child_of(
                #[trigger] path_of(store, store[i])[k],
                path_of(store, store[i])[k - 1],
            ),
    decreases store[i].index,
{
    let block = store[i];
    assert(well_placed(store, i));
    if block.prev_hash@ != zeros(32) {
        let k = slot_of(store, block.prev_hash@);
        lemma_path_is_linked(store, k);
        lemma_path_length(store, k);
        let before = path_of(store, store[k]);
        assert(path_of(store, block) == before.push(block));
        assert forall|j: int| 1 <= j < path_of(store, block).len() implies child_of(
            #[trigger] path_of(store, block)[j],
            path_of(store, block)[j - 1],
        ) by {
            if j < before.len() {
                assert(path_of(store, block)[j] == before[j]);
            }
        }
    }
}

/// Adding a block under a new hash changes neither which block an old hash
/// finds nor the chain that ends in an old block.
pub proof fn lemma_push_keeps_paths(store: Seq<BlockView>, block: BlockView, i: int)
    requires
        store_ok(store),
        !holds(store, block_hash(block)),
        0 <= i < store.len(),
    ensures
        path_of(store.push(block), store[i]) == path_of(store, store[i]),
        linked(store.push(block), store[i]),
    decreases store[i].index,
{
    let next = store.push(block);
    let old_block = store[i];
    assert(well_placed(store, i));
    if old_block.prev_hash@ != zeros(32) {
        let k = slot_of(store, old_block.prev_hash@);
        lemma_push_finds_same(store, block, old_block.prev_hash@);
        lemma_push_keeps_paths(store, block, k);
    }
}

/// Adding a block under a new hash does not change what an old hash finds.
pub proof fn lemma_push_finds_same(store: Seq<BlockView>, block: BlockView, hash: Seq<u8>)
    requires
        unique(store),
        !holds(store, block_hash(block)),
        holds(store, hash),
    ensures
        holds(store.push(block), hash),
        slot_of(store.push(block), hash) == slot_of(store, hash),
        block_of(store.push(block), hash) == block_of(store, hash),
        unique(store.push(block)),
{
    let next = store.push(block);
    let k = slot_of(store, hash);
    assert(next[k] == store[k]);
    assert(holds(next, hash));
    let k2 = slot_of(next, hash);
    if k2 == store.len() {
        assert(block_hash(block) == hash);
    } else {
        assert(next[k2] == store[k2]);
        if k2 < k {
            assert(block_hash(store[k2]) != block_hash(store[k]));
        } else if k < k2 {
            assert(block_hash(store[k]) != block_hash(store[k2]));
        }
    }
    lemma_push_unique(store, block);
}

/// Adding a block under a new hash keeps the hashes unique.
pub proof fn lemma_push_unique(store: Seq<BlockView>, block: BlockView)
    requires
        unique(store),
        !holds(store, block_hash(block)),
    ensures
        unique(store.push(block)),
{
    let next = store.push(block);
    assert forall|i: int, j: int| 0 <= i < j < next.len() implies block_hash(#[trigger] next[i])
        != block_hash(#[trigger] next[j]) by {
        if j == store.len() {
            assert(next[i] == store[i]);
            if block_hash(store[i]) == block_hash(block) {
                assert(holds(store, block_hash(block)));
            }
        } else {
            assert(next[i] == store[i] && next[j] == store[j]);
        }
    }
}

/// Adding a block under a new hash does not change what validation says
/// of a block whose parent, if it has one, the store holds already.
pub proof fn lemma_push_keeps_validity(store: Seq<BlockView>, block: BlockView, judged: BlockView)
    requires
        store_ok(store),
        !holds(store, block_hash(block)),
        judged.prev_hash@ == zeros(32) || holds(store, judged.prev_hash@),
    ensures
        judged.validity(store.push(block)) == judged.validity(store),
        path(store.push(block), judged.prev_hash@) == path(store, judged.prev_hash@),
{
    let parent = judged.prev_hash@;
    if parent != zeros(32) {
        lemma_push_finds_same(store, block, parent);
        let k = slot_of(store, parent);
        lemma_push_keeps_paths(store, block, k);
    }
}

/// A sound store stays sound when a valid, linked block is added whose
/// chain can be folded.
pub proof fn lemma_store_with(store: Seq<BlockView>, block: BlockView)
    requires
        store_ok(store),
        block.validity(store) is Ok,
        linked(store, block),
        ledger_ok(path(store, block.prev_hash@).push(block)),
    ensures
        store_ok(store_with(store, block)),
{
    if !holds(store, block_hash(block)) {
        let next = store.push(block);
        lemma_push_unique(store, block);
        let parent = block.prev_hash@;
        if parent != zeros(32) {
            lemma_push_finds_same(store, block, parent);
            let k = slot_of(store, parent);
            lemma_push_keeps_paths(store, block, k);
            assert(path_of(next, block) == path_of(store, store[k]).push(block));
        } else {
            assert(path_of(next, block) =~= Seq::<BlockView>::empty().push(block));
        }
        assert(path_of(next, block) == path(store, parent).push(block));
        lemma_push_keeps_validity(store, block, block);
        assert forall|i: int| 0 <= i < next.len() implies #[trigger] well_placed(next, i) by {
            if i < store.len() {
                assert(well_placed(store, i));
                assert(next[i] == store[i]);
                lemma_push_keeps_paths(store, block, i);
                lemma_push_keeps_validity(store, block, store[i]);
                if store[i].prev_hash@ != zeros(32) {
                    lemma_push_finds_same(store, block, store[i].prev_hash@);
                }
            } else {
                assert(next[i] == block);
            }
        }
    }
}

/// In the first `n` blocks of a sound store, the hash of each of them
/// finds it where it stands.
pub proof fn lemma_prefix_finds(store: Seq<BlockView>, n: int, k: int)
    requires
        unique(store),
        0 <= k < n <= store.len(),
    ensures
        unique(store.take(n)),
        holds(store.take(n), block_hash(store[k])),
        slot_of(store.take(n), block_hash(store[k])) == k,
        block_of(store.take(n), block_hash(store[k])) == store[k],
        slot_of(store, block_hash(store[k])) == k,
{
    let first = store.take(n);
    assert forall|i: int, j: int| 0 <= i < j < first.len() implies block_hash(#[trigger] first[i]) != block_hash(
        #[trigger] first[j],
    ) by {
        assert(first[i] == store[i] && first[j] == store[j]);
    }
    assert(first[k] == store[k]);
    lemma_block_of(first, k);
    lemma_block_of(store, k);
}

/// The chain that ends in one of the first `n` blocks of a sound store is
/// the same in those blocks alone.
pub proof fn lemma_prefix_keeps_paths(store: Seq<BlockView>, n: int, k: int)
    requires
        store_ok(store),
        0 <= k < n <= store.len(),
    ensures
        path_of(store.take(n), store[k]) == path_of(store, store[k]),
    decreases store[k].index,
{
    assert(well_placed(store, k));
    let parent = store[k].prev_hash@;
    if parent != zeros(32) {
        let j = slot_of(store, parent);
        lemma_prefix_finds(store, n, j);
        lemma_prefix_keeps_paths(store, n, j);
    }
}

/// Offering the block at `n` of a sound store to the blocks before it
/// adds it.
pub proof fn lemma_prefix_offer(store: Seq<BlockView>, n: int)
    requires
        store_ok(store),
        0 <= n < store.len(),
    ensures
        store_after_offer(store.take(n), store[n]) == store.take(n + 1),
{
    let first = store.take(n);
    let block = store[n];
    assert(well_placed(store, n));
    let parent = block.prev_hash@;
    if parent != zeros(32) {
        let j = slot_of(store, parent);
        lemma_prefix_finds(store, n, j);
        lemma_prefix_keeps_paths(store, n, j);
    }
    assert(block.validity(first) == block.validity(store));
    if holds(first, block_hash(block)) {
        let m = slot_of(first, block_hash(block));
        assert(first[m] == store[m]);
        assert(block_hash(store[m]) != block_hash(store[n]));
    }
    assert(first.push(block) =~= store.take(n + 1));
}

/// Offering the first `n` blocks of a sound store to an empty store, in
/// their order, gives those blocks back.
pub proof fn lemma_offers_rebuild(store: Seq<BlockView>, n: int)
    requires
        store_ok(store),
        0 <= n <= store.len(),
    ensures
        store_after_offers(Seq::<BlockView>::empty(), store.take(n)) == store.take(n),
    decreases n,
{
    if n == 0 {
        assert(store.take(0) =~= Seq::<BlockView>::empty());
    } else {
        lemma_offers_rebuild(store, n - 1);
        lemma_prefix_offer(store, n - 1);
        assert(store.take(n).drop_last() =~= store.take(n - 1));
        assert(store.take(n).last() == store[n - 1]);
    }
}

/// Accepting the same block a second time changes nothing.
pub proof fn lemma_insert_twice(store: Seq<BlockView>, block: BlockView)
    ensures
        store_with(store_with(store, block), block) == store_with(store, block),
        canonical(store_with(store_with(store, block), block)) == canonical(store_with(store, block)),
{
    if !holds(store, block_hash(block)) {
        let next = store.push(block);
        assert(block_hash(next[store.len() as int]) == block_hash(block));
        assert(holds(next, block_hash(block)));
    }
}

/// `block` has `parent` as its parent.
pub open spec fn child_of(block: BlockView, parent: BlockView) -> bool {
    block.prev_hash@ != zeros(32) && block.prev_hash@ == block_hash(parent)
}

/// In a sound store that is not empty, the canonical chain ends in a block
/// that no block has as its parent, and no chain in the store is longer.
pub proof fn lemma_canonical_is_longest(store: Seq<BlockView>)
    requires
        store_ok(store),
        store.len() > 0,
    ensures
        0 <= tip(store) < store.len(),
        canonical(store) == path_of(store, store[tip(store)]),
        canonical(store).last() == store[tip(store)],
        forall|i: int| 0 <= i < store.len() ==> !child_of(#[trigger] store[i], store[tip(store)]),
        forall|i: int| 0 <= i < store.len() ==> path_of(store, #[trigger] store[i]).len() <= canonical(store).len(),
        forall|leaf: Seq<u8>| #[trigger] path(store, leaf).len() <= canonical(store).len(),
{
    lemma_tip(store);
    let t = tip(store);
    lemma_path_length(store, t);
    assert forall|i: int| 0 <= i < store.len() implies path_of(store, #[trigger] store[i]).len()
        <= canonical(store).len() by {
        lemma_path_length(store, i);
    }
    assert forall|i: int| 0 <= i < store.len() implies !child_of(#[trigger] store[i], store[t]) by {
        if child_of(store[i], store[t]) {
            assert(well_placed(store, i));
            lemma_block_of(store, t);
        }
    }
    assert forall|leaf: Seq<u8>| #[trigger] path(store, leaf).len() <= canonical(store).len() by {
        if leaf != zeros(32) && holds(store, leaf) {
            let k = slot_of(store, leaf);
            assert(path(store, leaf) == path_of(store, store[k]));
        }
    }
}

/// The chain of a block with a parent below it is the parent's chain and
/// then the block.
pub proof fn lemma_path_step(store: Seq<BlockView>, at: int, parent: int, rest: Seq<BlockView>)
    requires
        0 <= at < store.len(),
        0 <= parent < store.len(),
        store[at].prev_hash@ != zeros(32),
        holds(store, store[at].prev_hash@),
        parent == slot_of(store, store[at].prev_hash@),
        store[parent].index < store[at].index,
    ensures
        path_of(store, store[at]) + rest == path_of(store, store[parent]) + (seq![store[at]] + rest),
{
    assert(path_of(store, store[at]) == path_of(store, store[parent]).push(store[at]));
    assert(path_of(store, store[parent]).push(store[at]) + rest =~= path_of(store, store[parent]) + (
        seq![store[at]] + rest));
}

/// The chain of a block without a parent below it is the block alone.
pub proof fn lemma_path_stop(store: Seq<BlockView>, at: int, rest: Seq<BlockView>)
    requires
        0 <= at < store.len(),
        store[at].prev_hash@ == zeros(32) || !holds(store, store[at].prev_hash@) || block_of(
            store,
            store[at].prev_hash@,
        ).index >= store[at].index,
    ensures
        path_of(store, store[at]) + rest == seq![store[at]] + rest,
{
}

/// The block tree.
#[derive(Debug)]
pub struct BlockChain {
    blocks: Vec<Block>,
    hashes: Vec<[u8; 32]>,
}

impl View for BlockChain {
    type V = Seq<BlockView>;

    closed spec fn view(&self) -> Seq<BlockView> {
        views(self.blocks@)
    }
}

impl BlockChain {
    /// The hash kept beside each block is that block's hash.
    pub closed spec fn indexed(&self) -> bool {
        &&& self.hashes@.len() == self.blocks@.len()
        &&& forall|i: int| 0 <= i < self.blocks@.len() ==> (#[trigger] self.hashes@[i])@ == block_hash(self.blocks@[i]@)
    }

    /// The store is sound and indexed by its blocks' hashes.
    pub open spec fn wf(&self) -> bool {
        self.indexed() && store_ok(self@)
    }

    /// An empty store.
    pub fn new() -> (store: BlockChain)
        ensures
            store@ == Seq::<BlockView>::empty(),
            store.wf(),
    {
        let store = BlockChain { blocks: Vec::new(), hashes: Vec::new() };
        assert(store@ =~= Seq::<BlockView>::empty());
        store
    }

    /// The number of blocks held.
    pub fn len(&self) -> (n: usize)
        ensures
            n == self@.len(),
    {
        self.blocks.len()
    }

    #[verifier::rlimit(50)]
    fn position(&self, hash: &[u8; 32]) -> (at: Option<usize>)
        requires
            self.wf(),
        ensures
            match at {
                Some(i) => holds(self@, hash@) && i == slot_of(self@, hash@) && i < self@.len(),
                None => !holds(self@, hash@),
            },
    {
        let mut i: usize = 0;
        while i < self.hashes.len()
            invariant
                self.wf(),
                i <= self.hashes@.len(),
                forall|j: int| 0 <= j < i ==> block_hash(#[trigger] self@[j]) != hash@,
            decreases self.hashes@.len() - i,
        {
            if same_hash(&self.hashes[i], hash) {
                proof {
                    assert(block_hash(self@[i as int]) == hash@);
                    lemma_block_of(self@, i as int);
                }
                return Some(i);
            }
            i += 1;
        }
        None
    }

    /// Whether the store holds a block with this hash.
    pub fn contains(&self, hash: &[u8; 32]) -> (yes: bool)
        requires
            self.wf(),
        ensures
            yes == holds(self@, hash@),
    {
        self.position(hash).is_some()
    }

    /// The block with this hash, if the store holds one.
    pub fn get(&self, hash: &[u8; 32]) -> (found: Option<&Block>)
        requires
            self.wf(),
        ensures
            match found {
                Some(block) => holds(self@, hash@) && block@ == block_of(self@, hash@),
                None => !holds(self@, hash@),
            },
    {
        match self.position(hash) {
            Some(i) => Some(&self.blocks[i]),
            None => None,
        }
    }

    #[verifier::rlimit(50)]
    fn chain_ending_at(&self, at: usize) -> (chain: Vec<Block>)
        requires
            self.wf(),
            at < self@.len(),
        ensures
            views(chain@) == path_of(self@, self@[at as int]),
    {
        // Walk up to the root and note where each block stands.
        let mut places: Vec<usize> = Vec::new();
        let mut at: usize = at;
        let mut more = true;
        let ghost goal = path_of(self@, self@[at as int]);
        let ghost mut tail: Seq<BlockView> = Seq::empty();
        assert(goal =~= goal + tail);
        while more
            invariant
                self.wf(),
                at < self@.len(),
                more ==> goal == path_of(self@, self@[at as int]) + tail,
                !more ==> goal == tail,
                places@.len() == tail.len(),
                forall|k: int|
                    0 <= k < places@.len() ==> (#[trigger] places@[k]) < self@.len() && self@[places@[k] as int]
                        == tail[tail.len() - 1 - k],
            decreases (if more { self@[at as int].index + 1 } else { 0 }),
        {
            let ghost rest = tail;
            let ghost here = at as int;
            let parent = self.blocks[at].prev_hash;
            let index = self.blocks[at].index;
            places.push(at);
            proof {
                tail = seq![self@[here]] + rest;
                assert forall|k: int| 0 <= k < places@.len() implies (#[trigger] places@[k]) < self@.len()
                    && self@[places@[k] as int] == tail[tail.len() - 1 - k] by {
                    if k < rest.len() {
                        assert(tail[tail.len() - 1 - k] == rest[rest.len() - 1 - k]);
                    }
                }
            }
            more = false;
            let mut stop = true;
            if !is_zero_hash(&parent) {
                match self.position(&parent) {
                    Some(p) => {
                        if self.blocks[p].index < index {
                            proof {
                                lemma_path_step(self@, here, p as int, rest);
                            }
                            at = p;
                            more = true;
                            stop = false;
                        }
                    },
                    None => {},
                }
            }
            proof {
                if stop {
                    lemma_path_stop(self@, here, rest);
                }
            }
        }
        // Copy the blocks, the root first.
        let mut chain: Vec<Block> = Vec::new();
        let count = places.len();
        let mut left: usize = count;
        assert(views(chain@) =~= tail.take(0));
        while left > 0
            invariant
                left <= count,
                count == places@.len(),
                count == tail.len(),
                views(chain@) == tail.take(count - left),
                forall|k: int|
                    0 <= k < places@.len() ==> (#[trigger] places@[k]) < self@.len() && self@[places@[k] as int]
                        == tail[tail.len() - 1 - k],
            decreases left,
        {
            let place = places[left - 1];
            let ghost before = views(chain@);
            chain.push(self.blocks[place].clone());
            proof {
                assert(self@[place as int] == tail[count - left]);
                assert(views(chain@) =~= before.push(tail[count - left]));
                assert(tail.take(count - left + 1) =~= tail.take(count - left).push(tail[count - left]));
            }
            left -= 1;
        }
        assert(tail.take(count as int) =~= tail);
        chain
    }

    fn tip_position(&self) -> (best: usize)
        requires
            self.wf(),
            self@.len() > 0,
        ensures
            best == tip(self@),
            best < self@.len(),
    {
        let mut best: usize = 0;
        let mut i: usize = 1;
        assert(self@.take(1).len() == 1);
        while i < self.blocks.len()
            invariant
                1 <= i <= self@.len(),
                best == tip(self@.take(i as int)),
                best < i,
            decreases self@.len() - i,
        {
            proof {
                let next = self@.take(i + 1);
                assert(next.drop_last() =~= self@.take(i as int));
                assert(next.last() == self@[i as int]);
                assert(next[best as int] == self@[best as int]);
                assert(self@.take(i as int)[best as int] == self@[best as int]);
            }
            if self.blocks[i].index > self.blocks[best].index {
                best = i;
            }
            i += 1;
        }
        assert(self@.take(i as int) =~= self@);
        best
    }

    /// The length of the canonical chain.
    pub fn height(&self) -> (blocks: u128)
        requires
            self.wf(),
        ensures
            blocks == canonical(self@).len(),
    {
        if self.blocks.len() == 0 {
            return 0;
        }
        let best = self.tip_position();
        proof {
            lemma_path_length(self@, best as int);
        }
        self.blocks[best].index
    }

    /// The chain that ends in the block with the hash `leaf`, oldest block
    /// first. It is empty for the zero hash and for a hash that the store
    /// does not hold.
    pub fn get_chain_from_leaf(&self, leaf: [u8; 32]) -> (chain: Vec<Block>)
        requires
            self.wf(),
        ensures
            views(chain@) == path(self@, leaf@),
            ledger_ok(views(chain@)),
    {
        if is_zero_hash(&leaf) {
            let chain: Vec<Block> = Vec::new();
            assert(views(chain@) =~= Seq::<BlockView>::empty());
            return chain;
        }
        match self.position(&leaf) {
            Some(at) => {
                assert(well_placed(self@, at as int));
                self.chain_ending_at(at)
            },
            None => {
                let chain: Vec<Block> = Vec::new();
                assert(views(chain@) =~= Seq::<BlockView>::empty());
                chain
            },
        }
    }

    /// The canonical chain, oldest block first: the chain that ends in the
    /// first block, in the order of arrival, among those with the highest
    /// index. No chain in the store is longer.
    #[verifier::rlimit(50)]
    pub fn get_chain(&self) -> (chain: Vec<Block>)
        requires
            self.wf(),
        ensures
            views(chain@) == canonical(self@),
            ledger_ok(views(chain@)),
            forall|leaf: Seq<u8>| #[trigger] path(self@, leaf).len() <= chain@.len(),
    {
        if self.blocks.len() == 0 {
            let chain: Vec<Block> = Vec::new();
            assert(views(chain@) =~= Seq::<BlockView>::empty());
            return chain;
        }
        let best = self.tip_position();
        proof {
            lemma_canonical_is_longest(self@);
            assert(well_placed(self@, best as int));
        }
        self.chain_ending_at(best)
    }

    /// Adds a block that was validated against this store, as `is_valid`
    /// does. A block whose hash the store holds already is not added
    /// again.
    #[verifier::rlimit(50)]
    pub fn insert(&mut self, block: Block)
        requires
            old(self).wf(),
            block@.validity(old(self)@) is Ok,
            linked(old(self)@, block@),
            ledger_ok(path(old(self)@, block.prev_hash@).push(block@)),
        ensures
            final(self).wf(),
            final(self)@ == store_with(old(self)@, block@),
    {
        let hash = block.get_hash();
        proof {
            lemma_store_with(self@, block@);
        }
        if self.position(&hash).is_none() {
            let ghost before = self@;
            self.blocks.push(block);
            self.hashes.push(hash);
            assert(self@ =~= before.push(block@));
        }
    }
}

/// `store` after `block` was offered to it: added if it is valid.
pub open spec fn store_after_offer(store: Seq<BlockView>, block: BlockView) -> Seq<BlockView> {
    if block.validity(store) is Ok {
        store_with(store, block)
    } else {
        store
    }
}

/// `store` after each of `blocks` was offered to it, in order.
pub open spec fn store_after_offers(store: Seq<BlockView>, blocks: Seq<BlockView>) -> Seq<BlockView>
    decreases blocks.len(),
{
    if blocks.len() == 0 {
        store
    } else {
        store_after_offer(store_after_offers(store, blocks.drop_last()), blocks.last())
    }
}

/// What a node with `store` answers to `request`.
pub open spec fn reply_to(store: Seq<BlockView>, request: RequestView) -> ReplyView {
    match request {
        RequestView::AccountState(address) => ReplyView::AccountState(
            account(world_of(canonical(store)), address),
        ),
        RequestView::SubmitTransaction(tx) => match tx.check(
            account(world_of(canonical(store)), tx.sender),
        ) {
            Ok(_) => ReplyView::Ack,
            Err(e) => ReplyView::Error(e.text()),
        },
        RequestView::GetChain => ReplyView::Chain(canonical(store)),
        RequestView::BroadcastBlock(block) => match block.validity(store) {
            Ok(_) => ReplyView::Ack,
            Err(_) => ReplyView::Error(block.refusal(store)),
        },
    }
}

/// The store of a node that had `store` and handled `request`.
pub open spec fn store_after(store: Seq<BlockView>, request: RequestView) -> Seq<BlockView> {
    match request {
        RequestView::BroadcastBlock(block) => store_after_offer(store, block),
        _ => store,
    }
}

/// What a node with `store` tells its miner when it handles `request`: a
/// valid transaction with the world it was valid in, or a valid block
/// that made the canonical chain longer.
pub open spec fn event_for(store: Seq<BlockView>, request: RequestView) -> Option<MinerEventView> {
    match request {
        RequestView::SubmitTransaction(tx) => if tx.check(account(world_of(canonical(store)), tx.sender)) is Ok {
            Some(MinerEventView::NewTransaction(tx, world_of(canonical(store))))
        } else {
            None
        },
        RequestView::BroadcastBlock(block) => if block.validity(store) is Ok && canonical(
            store_with(store, block),
        ).len() > canonical(store).len() {
            Some(MinerEventView::NewBlock(block))
        } else {
            None
        },
        _ => None,
    }
}

/// Whether the store is to be written out after `request`: after every
/// block that was accepted.
pub open spec fn persists(store: Seq<BlockView>, request: RequestView) -> bool {
    match request {
        RequestView::BroadcastBlock(block) => block.validity(store) is Ok,
        _ => false,
    }
}

/// What handling a request comes to: the answer, what to tell the miner,
/// and whether to write the store out.
#[derive(Debug)]
pub struct Handled {
    pub reply: ClientNetworkMessage,
    pub event: Option<MinerMessage>,
    pub persist: bool,
}

/// The longer of two chains; the first where they are equally long.
pub fn keep_longer(current: Vec<Block>, candidate: Vec<Block>) -> (kept: Vec<Block>)
    ensures
        kept == (if candidate@.len() > current@.len() {
            candidate
        } else {
            current
        }),
{
    if candidate.len() > current.len() {
        candidate
    } else {
        current
    }
}

impl BlockChain {
    /// The world that the canonical chain folds into.
    pub fn world(&self) -> (world: World)
        requires
            self.wf(),
        ensures
            world@ == world_of(canonical(self@)),
            world.wf(),
    {
        let chain = self.get_chain();
        World::from_chain(&chain)
    }

    /// Validates the block and inserts it if it is valid.
    pub fn accept_block(&mut self, block: Block) -> (outcome: Result<(), ValidationError>)
        requires
            old(self).wf(),
        ensures
            final(self).wf(),
            outcome == block@.validity(old(self)@),
            final(self)@ == store_after_offer(old(self)@, block@),
    {
        let outcome = block.is_valid(self);
        if outcome.is_ok() {
            self.insert(block);
        }
        outcome
    }

    /// Offers each block of `chain` to the store, oldest first; those that
    /// are not valid are passed over.
    #[verifier::rlimit(50)]
    pub fn import_chain(&mut self, chain: Vec<Block>)
        requires
            old(self).wf(),
        ensures
            final(self).wf(),
            final(self)@ == store_after_offers(old(self)@, views(chain@)),
    {
        let mut i: usize = 0;
        assert(views(chain@).take(0) =~= Seq::<BlockView>::empty());
        while i < chain.len()
            invariant
                i <= chain@.len(),
                self.wf(),
                self@ == store_after_offers(old(self)@, views(chain@).take(i as int)),
            decreases chain@.len() - i,
        {
            proof {
                assert(views(chain@).take(i + 1).drop_last() =~= views(chain@).take(i as int));
                assert(views(chain@).take(i + 1).last() == chain@[i as int]@);
            }
            let block = chain[i].clone();
            let _ = self.accept_block(block);
            i += 1;
        }
        assert(views(chain@).take(i as int) =~= views(chain@));
    }

    /// Validates a transaction against the world of the canonical chain,
    /// and hands that world back where it is valid.
    pub fn submit_transaction(&self, transaction: &Transaction) -> (outcome: Result<World, ValidationError>)
        requires
            self.wf(),
        ensures
            match outcome {
                Ok(world) => transaction.check(account(world_of(canonical(self@)), transaction.sender)) is Ok
                    && world@ == world_of(canonical(self@)) && world.wf(),
                Err(e) => transaction.check(account(world_of(canonical(self@)), transaction.sender)) == Err::<
                    (),
                    ValidationError,
                >(e),
            },
    {
        let world = self.world();
        match transaction.is_valid(&world) {
            Ok(_) => Ok(world),
            Err(e) => Err(e),
        }
    }

    fn handle_account_state(&self, address: [u8; 16]) -> (handled: Handled)
        requires
            self.wf(),
        ensures
            handled.reply@ == reply_to(self@, RequestView::AccountState(address)),
            handled.event is None,
            !handled.persist,
    {
        let world = self.world();
        let state = world.get_account_state(&address);
        Handled { reply: ClientNetworkMessage::AccountState(state), event: None, persist: false }
    }

    fn handle_transaction(&self, transaction: Transaction) -> (handled: Handled)
        requires
            self.wf(),
        ensures
            handled.reply@ == reply_to(self@, RequestView::SubmitTransaction(transaction)),
            event_view(handled.event) == event_for(self@, RequestView::SubmitTransaction(transaction)),
            !handled.persist,
    {
        match self.submit_transaction(&transaction) {
            Ok(world) => Handled {
                reply: ClientNetworkMessage::Ack,
                event: Some(MinerMessage::NewTransaction(transaction, world)),
                persist: false,
            },
            Err(e) => Handled { reply: ClientNetworkMessage::Error(e.message()), event: None, persist: false },
        }
    }

    #[verifier::rlimit(50)]
    fn handle_block(&mut self, block: Block) -> (handled: Handled)
        requires
            old(self).wf(),
        ensures
            final(self).wf(),
            final(self)@ == store_after_offer(old(self)@, block@),
            handled.reply@ == reply_to(old(self)@, RequestView::BroadcastBlock(block@)),
            event_view(handled.event) == event_for(old(self)@, RequestView::BroadcastBlock(block@)),
            handled.persist == (block@.validity(old(self)@) is Ok),
    {
        let before = self.height();
        let copy = block.clone();
        match block.examine(self) {
            Ok(_) => {
                self.insert(copy);
                let after = self.height();
                let event = if after > before {
                    Some(MinerMessage::NewBlock(block))
                } else {
                    None
                };
                Handled { reply: ClientNetworkMessage::Ack, event, persist: true }
            },
            Err(refused) => Handled { reply: ClientNetworkMessage::Error(refused.1), event: None, persist: false },
        }
    }

    /// Handles one request: answers it, changes the store where a valid
    /// block came in, and says what the miner is to be told and whether
    /// the store is to be written out.
    #[verifier::rlimit(50)]
    pub fn handle_message(&mut self, message: ServerNetworkMessage) -> (handled: Handled)
        requires
            old(self).wf(),
        ensures
            final(self).wf(),
            handled.reply@ == reply_to(old(self)@, message@),
            final(self)@ == store_after(old(self)@, message@),
            event_view(handled.event) == event_for(old(self)@, message@),
            handled.persist == persists(old(self)@, message@),
    {
        match message {
            ServerNetworkMessage::AccountState(address) => self.handle_account_state(address),
            ServerNetworkMessage::SubmitTransaction(transaction) => self.handle_transaction(transaction),
            ServerNetworkMessage::GetChain => {
                Handled { reply: ClientNetworkMessage::Chain(self.get_chain()), event: None, persist: false }
            },
            ServerNetworkMessage::BroadcastBlock(block) => self.handle_block(block),
        }
    }
}

impl BlockChain {
    /// The bytes of the store, from which `load` builds it again: the
    /// count of its blocks, then each block under its hash, in the order
    /// of arrival. There are none where the blocks, or the transactions
    /// of one of them, cannot be counted in four bytes.
    #[verifier::rlimit(50)]
    pub fn save(&self) -> (bytes: Option<Vec<u8>>)
        requires
            self.wf(),
        ensures
            bytes is Some == (self@.len() <= u32::MAX && all_encodable(self@)),
            bytes is Some ==> bytes.unwrap()@ == store_bytes(self@) && all_storable(self@),
    {
        if self.blocks.len() > u32::MAX as usize {
            return None;
        }
        let mut out = u32_to_le_bytes(self.blocks.len() as u32);
        let ghost start = out@;
        let mut i: usize = 0;
        assert(self@.take(0) =~= Seq::<BlockView>::empty());
        assert(out@ =~= start + entries_bytes(self@.take(0)));
        while i < self.blocks.len()
            invariant
                self.indexed(),
                i <= self@.len(),
                out@ == start + entries_bytes(self@.take(i as int)),
                forall|k: int| 0 <= k < i ==> encodable(#[trigger] self@[k]),
            decreases self@.len() - i,
        {
            if !can_encode(&self.blocks[i]) {
                assert(!encodable(self@[i as int]));
                return None;
            }
            let ghost before = out@;
            write_entry(&mut out, &self.hashes[i], &self.blocks[i]);
            proof {
                let next = self@.take(i + 1);
                assert(next.drop_last() =~= self@.take(i as int));
                assert(next.last() == self.blocks@[i as int]@);
                assert(self.hashes@[i as int]@ == block_hash(self.blocks@[i as int]@));
                assert(entries_bytes(next) == entries_bytes(self@.take(i as int)) + (block_hash(next.last())
                    + block_bytes(next.last())));
                assert(out@ =~= start + entries_bytes(next));
            }
            i += 1;
        }
        proof {
            assert(self@.take(i as int) =~= self@);
            assert forall|k: int| 0 <= k < self@.len() implies encodable(#[trigger] self@[k]) && block_hash(
                self@[k],
            ).len() == 32 by {
                assert(self.hashes@[k]@ == block_hash(self.blocks@[k]@));
            }
        }
        Some(out)
    }

    /// Builds a store from the bytes of one: reads the blocks and offers
    /// each to an empty store, in order. The bytes that `save` wrote for
    /// a store give that store back, block for block. Bytes that are not
    /// those of a store give nothing.
    pub fn load(bytes: &[u8]) -> (store: Option<BlockChain>)
        ensures
            store is Some ==> store.unwrap().wf(),
            forall|c: Seq<BlockView>|
                c.len() <= u32::MAX && all_storable(c) && #[trigger] store_bytes(c) == bytes@ ==> store is Some
                    && store.unwrap()@ == store_after_offers(Seq::<BlockView>::empty(), c),
            forall|c: Seq<BlockView>|
                store_ok(c) && c.len() <= u32::MAX && all_storable(c) && #[trigger] store_bytes(c) == bytes@
                    ==> store is Some && store.unwrap()@ == c,
    {
        proof {
            assert forall|c: Seq<BlockView>| store_ok(c) implies #[trigger] store_after_offers(
                Seq::<BlockView>::empty(),
                c,
            ) == c by {
                lemma_offers_rebuild(c, c.len() as int);
                assert(c.take(c.len() as int) =~= c);
            }
        }
        match decode_store(bytes) {
            Some(blocks) => {
                let mut store = BlockChain::new();
                store.import_chain(blocks);
                Some(store)
            },
            None => None,
        }
    }
}

} // verus!
