use openssl::hash::MessageDigest;
use openssl::pkey::{PKey, Private};
use openssl::rsa::Rsa;
use openssl::sign::Signer;
use zenchain::block::{validate_transactions, Block};
use zenchain::blockchain::BlockChain;
use zenchain::crypto::derive_address;
use zenchain::messages::MinerMessage;
use zenchain::miner::Miner;
use zenchain::transaction::Transaction;
use zenchain::types::ValidationError;
use zenchain::world::{AccountState, World};

fn key() -> (PKey<Private>, [u8; 294], [u8; 16]) {
    let key = PKey::from_rsa(Rsa::generate(2048).unwrap()).unwrap();
    let der = key.public_key_to_der().unwrap();
    let mut public_key = [0u8; 294];
    public_key.copy_from_slice(&der);
    let address = derive_address(&public_key);
    (key, public_key, address)
}

fn signed(from: &(PKey<Private>, [u8; 294], [u8; 16]), to: [u8; 16], amount: u128, index: u128) -> Transaction {
    let data = Transaction::transaction_data_bytes(&from.2, &to, amount, index);
    let mut signer = Signer::new(MessageDigest::sha3_256(), &from.0).unwrap();
    signer.update(&data).unwrap();
    let mut signature = [0u8; 256];
    signature.copy_from_slice(&signer.sign_to_vec().unwrap());
    Transaction { amount, index, sender: from.2, recipient: to, signature, public_key: from.1 }
}

fn plain(sender: [u8; 16], recipient: [u8; 16], amount: u128, index: u128) -> Transaction {
    Transaction { amount, index, sender, recipient, signature: [0u8; 256], public_key: [0u8; 294] }
}

fn rewarded(miner: [u8; 16], reward: u128) -> Block {
    Block {
        index: 1,
        prev_hash: [0u8; 32],
        nonce: [0u8; 32],
        miner,
        reward,
        transactions: Vec::new(),
        difficulty: 2,
    }
}

fn with_work(mut block: Block) -> Block {
    while !block.mine(1000) {}
    block
}

fn without_work(mut block: Block) -> Block {
    let mut nonce = [0u8; 32];
    while block.try_nonce(nonce) {
        nonce[0] += 1;
    }
    block
}

#[test]
fn account_updates() {
    let a = [1u8; 16];
    let b = [2u8; 16];
    let mut state = AccountState::new(a);
    assert_eq!(state, AccountState { address: a, balance: 0, transaction_index: 0 });
    state.update_on_block(&rewarded(a, 100));
    assert_eq!(state.balance, 100);
    state.update_on_block(&rewarded(b, 100));
    assert_eq!(state.balance, 100);
    state.update_on_transaction(&plain(a, b, 30, 1));
    assert_eq!(state, AccountState { address: a, balance: 70, transaction_index: 1 });
    state.update_on_transaction(&plain(b, a, 5, 1));
    assert_eq!(state, AccountState { address: a, balance: 75, transaction_index: 1 });
    state.update_on_transaction(&plain(a, a, 75, 2));
    assert_eq!(state, AccountState { address: a, balance: 75, transaction_index: 2 });
    state.update_on_transaction(&plain(b, b, 1, 1));
    assert_eq!(state, AccountState { address: a, balance: 75, transaction_index: 2 });
}

#[test]
fn world_updates() {
    let a = [1u8; 16];
    let b = [2u8; 16];
    let c = [3u8; 16];
    let mut world = World::new();
    assert_eq!(world.get_account_state(&a), AccountState { address: a, balance: 0, transaction_index: 0 });
    world.update_on_block(&rewarded(a, 100));
    world.update_on_transaction(&plain(a, b, 30, 1));
    world.update_on_transaction(&plain(a, a, 70, 2));
    world.update_on_transaction(&plain(b, c, 30, 1));
    assert_eq!(world.get_account_state(&a), AccountState { address: a, balance: 70, transaction_index: 2 });
    assert_eq!(world.get_account_state(&b), AccountState { address: b, balance: 0, transaction_index: 1 });
    assert_eq!(world.get_account_state(&c), AccountState { address: c, balance: 30, transaction_index: 0 });
    let copy = world.clone();
    world.update_on_transactions(&vec![plain(c, a, 10, 1), plain(c, b, 20, 2)]);
    assert_eq!(world.get_account_state(&c), AccountState { address: c, balance: 0, transaction_index: 2 });
    assert_eq!(world.get_account_state(&a).balance, 80);
    assert_eq!(copy.get_account_state(&c).balance, 30);

    let mut block = rewarded(b, 100);
    block.transactions = vec![plain(a, b, 100, 1)];
    let folded = World::from_chain(&vec![rewarded(a, 100), block]);
    assert_eq!(folded.get_account_state(&a), AccountState { address: a, balance: 0, transaction_index: 1 });
    assert_eq!(folded.get_account_state(&b), AccountState { address: b, balance: 200, transaction_index: 0 });
    assert_eq!(World::from_chain(&Vec::new()).get_account_state(&a).balance, 0);
}

#[test]
fn transaction_rules() {
    let alice = key();
    let bob = [5u8; 16];
    let mut world = World::new();
    world.update_on_block(&rewarded(alice.2, 100));
    let good = signed(&alice, bob, 100, 1);
    assert!(good.is_signature_valid());
    assert_eq!(good.is_valid(&world), Ok(()));
    assert_eq!(signed(&alice, bob, 0, 1).is_valid(&world), Ok(()));
    assert_eq!(signed(&alice, bob, 101, 1).is_valid(&world), Err(ValidationError::InsufficientBalance));
    assert_eq!(signed(&alice, bob, 100, 2).is_valid(&world), Err(ValidationError::BadNonce));
    assert_eq!(signed(&alice, bob, 100, 0).is_valid(&world), Err(ValidationError::BadNonce));
    assert_eq!(signed(&alice, bob, 101, 2).is_valid(&world), Err(ValidationError::InsufficientBalance));

    let mut tampered = good;
    tampered.amount = 1;
    assert!(!tampered.is_signature_valid());
    assert_eq!(tampered.is_valid(&world), Err(ValidationError::InvalidSignature));
    let mut stolen = good;
    stolen.sender = bob;
    assert!(!stolen.is_signature_valid());
    let mut broken = good;
    broken.signature[10] ^= 1;
    assert!(!broken.is_signature_valid());
    assert!(!plain(alice.2, bob, 1, 1).is_signature_valid());

    let state = world.get_account_state(&alice.2);
    assert_eq!(good.check_account(true, &state), Ok(()));
    assert_eq!(good.check_account(false, &state), Err(ValidationError::InvalidSignature));
    let full = AccountState { address: alice.2, balance: 100, transaction_index: u128::MAX };
    assert_eq!(plain(alice.2, bob, 1, 0).check_account(true, &full), Err(ValidationError::BadNonce));

    let second = signed(&alice, bob, 1, 2);
    let replayed = validate_transactions(world.clone(), &vec![signed(&alice, bob, 99, 1), second]).unwrap();
    assert_eq!(replayed.get_account_state(&alice.2).balance, 0);
    assert_eq!(replayed.get_account_state(&alice.2).transaction_index, 2);
    assert_eq!(replayed.get_account_state(&bob).balance, 100);
    assert_eq!(
        validate_transactions(world.clone(), &vec![good, second]).err(),
        Some((1, ValidationError::InsufficientBalance))
    );
    assert_eq!(
        validate_transactions(world.clone(), &vec![second, good]).err(),
        Some((0, ValidationError::BadNonce))
    );
    let same = validate_transactions(world.clone(), &Vec::new()).unwrap();
    assert_eq!(same.get_account_state(&alice.2), world.get_account_state(&alice.2));
}

#[test]
fn block_rules() {
    let miner = [6u8; 16];
    let mut store = BlockChain::new();
    let first = with_work(Block::new(None, &Vec::new(), &miner));
    assert_eq!(first.check_structure(&store), Ok(()));
    assert!(first.has_work());
    assert_eq!(store.accept_block(first.clone()), Ok(()));
    assert!(store.contains(&first.get_hash()));
    assert!(!store.contains(&[1u8; 32]));
    assert_eq!(store.get(&first.get_hash()), Some(&first));
    assert_eq!(store.get(&[1u8; 32]), None);

    let mut easy = Block::new(Some(&first), &Vec::new(), &miner);
    easy.difficulty = 1;
    assert_eq!(easy.is_valid(&store), Err(ValidationError::InvalidDifficulty));
    let mut hard = Block::new(Some(&first), &Vec::new(), &miner);
    hard.difficulty = 3;
    hard.reward = 1;
    assert_eq!(hard.is_valid(&store), Err(ValidationError::InvalidDifficulty));
    let mut greedy = Block::new(Some(&first), &Vec::new(), &miner);
    greedy.reward = 101;
    assert_eq!(greedy.is_valid(&store), Err(ValidationError::InvalidReward));
    let mut orphan = Block::new(Some(&first), &Vec::new(), &miner);
    orphan.prev_hash = [4u8; 32];
    assert_eq!(orphan.is_valid(&store), Err(ValidationError::UnknownParent));
    let mut skipped = Block::new(Some(&first), &Vec::new(), &miner);
    skipped.index = 3;
    assert_eq!(skipped.is_valid(&store), Err(ValidationError::BadIndex { expected: 2, found: 3 }));
    let mut late = Block::new(None, &Vec::new(), &miner);
    late.index = 2;
    assert_eq!(late.is_valid(&store), Err(ValidationError::BadIndex { expected: 1, found: 2 }));
    let idle = without_work(Block::new(Some(&first), &Vec::new(), &miner));
    assert!(!idle.has_work());
    assert_eq!(idle.is_valid(&store), Err(ValidationError::InsufficientWork));
    assert_eq!(store.accept_block(idle), Err(ValidationError::InsufficientWork));
    assert_eq!(store.len(), 1);

    let forged = with_work(Block::new(Some(&first), &vec![plain(miner, [7u8; 16], 1, 1)], &miner));
    assert_eq!(forged.is_valid(&store), Err(ValidationError::InvalidSignature));
    assert_eq!(
        forged.examine(&store),
        Err((
            ValidationError::InvalidSignature,
            "Invalid transaction: Transaction: 1 $ZEN  0x06060606060606060606060606060606 ==> \
             0x07070707070707070707070707070707. Error: Invalid signature"
                .to_string()
        ))
    );
    assert_eq!(skipped.examine(&store), Err((
        ValidationError::BadIndex { expected: 2, found: 3 },
        "Invalid index. Should be 2, but is 3".to_string()
    )));
    assert_eq!(first.examine(&store), Ok(()));
    let told = store.handle_message(zenchain::messages::ServerNetworkMessage::BroadcastBlock(forged.clone()));
    assert_eq!(
        told.reply,
        zenchain::messages::ClientNetworkMessage::Error(
            "Invalid transaction: Transaction: 1 $ZEN  0x06060606060606060606060606060606 ==> \
             0x07070707070707070707070707070707. Error: Invalid signature"
                .to_string()
        )
    );
    assert!(!told.persist);
    assert_eq!(store.accept_block(forged), Err(ValidationError::InvalidSignature));
    assert_eq!(store.len(), 1);

    let mut untouched = Block::new(None, &Vec::new(), &miner);
    let nonce = untouched.nonce;
    assert!(!untouched.mine(0));
    assert_eq!(untouched.nonce, nonce);
    assert_eq!(untouched.nonce, [0u8; 32]);
}

#[test]
fn miner_keeps_what_is_still_to_mine() {
    let alice = key();
    let bob = [5u8; 16];
    let mut world = World::new();
    world.update_on_block(&rewarded(alice.2, 100));
    let parent = rewarded(alice.2, 100);
    let mut miner = Miner::new(Some(parent.clone()), [8u8; 16]);
    assert_eq!(miner.candidate().index, 2);
    assert_eq!(miner.candidate().miner, [8u8; 16]);
    assert_eq!(miner.candidate().nonce, [0u8; 32]);
    let first = signed(&alice, bob, 60, 1);
    let second = signed(&alice, bob, 40, 2);
    let third = signed(&alice, bob, 1, 3);
    assert!(miner.on_transaction(first, world.clone()));
    assert!(!miner.on_transaction(signed(&alice, bob, 41, 2), world.clone()));
    assert!(!miner.on_transaction(first, world.clone()));
    assert!(miner.on_transaction(second, world.clone()));
    assert!(!miner.on_transaction(third, world.clone()));
    assert_eq!(miner.pending_len(), 2);
    assert_eq!(miner.candidate().transactions, vec![first, second]);

    let mut arrived = rewarded([9u8; 16], 100);
    arrived.index = 2;
    arrived.transactions = vec![first];
    miner.on_message(MinerMessage::NewBlock(arrived.clone()));
    assert_eq!(miner.pending_len(), 1);
    assert_eq!(miner.candidate().transactions, vec![second]);
    assert_eq!(miner.candidate().index, 3);
    assert_eq!(miner.candidate().prev_hash, arrived.get_hash());

    assert!(miner.mine(0).is_none());
    assert_eq!(miner.pending_len(), 1);
    assert!(miner.after_search(false).is_none());
    let handed = miner.after_search(true).unwrap();
    assert_eq!(&handed, miner.candidate());
    assert_eq!(miner.pending_len(), 0);
}

#[test]
fn signing_with_a_key() {
    let rsa = Rsa::generate(2048).unwrap();
    let pem = rsa.private_key_to_pem().unwrap();
    let der = PKey::from_rsa(rsa).unwrap().public_key_to_der().unwrap();
    let address = zenchain::keys::keypair_to_address(&pem).unwrap();
    assert_eq!(address, derive_address(&der));
    let tx = Transaction::sign(&pem, [5u8; 16], 30, 1).unwrap();
    assert_eq!(tx.amount, 30);
    assert_eq!(tx.index, 1);
    assert_eq!(tx.sender, address);
    assert_eq!(tx.recipient, [5u8; 16]);
    assert_eq!(&tx.public_key[..], &der[..]);
    assert!(tx.is_signature_valid());
    assert_eq!(Transaction::sign(&pem, [5u8; 16], 30, 1), Some(tx));
    assert_ne!(Transaction::sign(&pem, [5u8; 16], 31, 1).unwrap().signature, tx.signature);
    assert_eq!(Transaction::sign(b"no key", [5u8; 16], 30, 1), None);
    let small = Rsa::generate(1024).unwrap().private_key_to_pem().unwrap();
    assert_eq!(Transaction::sign(&small, [5u8; 16], 30, 1), None);

    assert_eq!(Transaction::from_parts(1, 2, [3u8; 16], [4u8; 16], &[5u8; 255], &[6u8; 294]), None);
    assert_eq!(Transaction::from_parts(1, 2, [3u8; 16], [4u8; 16], &[5u8; 256], &[6u8; 293]), None);
    let built = Transaction::from_parts(1, 2, [3u8; 16], [4u8; 16], &[5u8; 256], &[6u8; 294]).unwrap();
    assert_eq!(built, plain_with(1, 2, [3u8; 16], [4u8; 16], [5u8; 256], [6u8; 294]));
    assert_eq!(
        built.describe(),
        "Transaction: 1 $ZEN  0x03030303030303030303030303030303 ==> 0x04040404040404040404040404040404"
    );
    assert_eq!(zenchain::keys::decimal(0), "0");
    assert_eq!(zenchain::keys::decimal(1234567890), "1234567890");
    assert_eq!(zenchain::keys::decimal(u128::MAX), "340282366920938463463374607431768211455");
}

fn plain_with(
    amount: u128,
    index: u128,
    sender: [u8; 16],
    recipient: [u8; 16],
    signature: [u8; 256],
    public_key: [u8; 294],
) -> Transaction {
    Transaction { amount, index, sender, recipient, signature, public_key }
}

#[test]
fn store_snapshots() {
    let miner = [6u8; 16];
    let mut store = BlockChain::new();
    assert_eq!(store.save(), Some(vec![0u8, 0, 0, 0]));
    let first = with_work(Block::new(None, &Vec::new(), &miner));
    let second = with_work(Block::new(Some(&first), &Vec::new(), &miner));
    assert_eq!(store.accept_block(first.clone()), Ok(()));
    assert_eq!(store.accept_block(second.clone()), Ok(()));
    let bytes = store.save().unwrap();
    assert_eq!(bytes.len(), 4 + 2 * 152);
    assert_eq!(&bytes[..4], &[2u8, 0, 0, 0]);
    assert_eq!(&bytes[4..36], &first.get_hash());
    assert_eq!(&bytes[36..156], &zenchain::codec::encode_block(&first).unwrap()[..]);
    assert_eq!(&bytes[156..188], &second.get_hash());
    assert_eq!(zenchain::wire::decode_store(&bytes), Some(vec![first.clone(), second.clone()]));
    let restored = BlockChain::load(&bytes).unwrap();
    assert_eq!(restored.len(), 2);
    assert_eq!(restored.get_chain(), vec![first, second]);
    assert_eq!(restored.save(), Some(bytes.clone()));
    let mut damaged = bytes.clone();
    damaged[4] ^= 1;
    assert!(BlockChain::load(&damaged).is_none());
    assert!(BlockChain::load(&bytes[..bytes.len() - 1]).is_none());
    assert!(BlockChain::load(&[]).is_none());
    assert_eq!(BlockChain::load(&[0, 0, 0, 0]).unwrap().len(), 0);
}

#[test]
fn first_arrival_wins_a_tie() {
    let mut store = BlockChain::new();
    let root = with_work(Block::new(None, &Vec::new(), &[1u8; 16]));
    let left = with_work(Block::new(Some(&root), &Vec::new(), &[2u8; 16]));
    let right = with_work(Block::new(Some(&root), &Vec::new(), &[3u8; 16]));
    assert_eq!(store.accept_block(root.clone()), Ok(()));
    assert_eq!(store.accept_block(right.clone()), Ok(()));
    assert_eq!(store.accept_block(left.clone()), Ok(()));
    assert_eq!(store.get_chain(), vec![root.clone(), right.clone()]);
    assert_eq!(store.height(), 2);
    assert_eq!(BlockChain::new().height(), 0);
    assert_eq!(store.get_chain_from_leaf(left.get_hash()), vec![root.clone(), left.clone()]);
    assert_eq!(store.get_chain_from_leaf(root.get_hash()), vec![root.clone()]);
    let top = with_work(Block::new(Some(&left), &Vec::new(), &[2u8; 16]));
    assert_eq!(store.accept_block(top.clone()), Ok(()));
    assert_eq!(store.get_chain(), vec![root, left, top]);
    assert_eq!(store.world().get_account_state(&[2u8; 16]).balance, 200);
    assert_eq!(store.world().get_account_state(&[3u8; 16]).balance, 0);
}

#[test]
fn signatures_are_checked_by_the_key() {
    let alice = key();
    let tx = signed(&alice, [5u8; 16], 1, 1);
    let data = Transaction::transaction_data_bytes(&tx.sender, &tx.recipient, tx.amount, tx.index);
    assert!(zenchain::crypto::verify(&tx.public_key, &tx.signature, &data));
    assert!(!zenchain::crypto::verify(&tx.public_key, &tx.signature, &data[..63]));
    assert!(!zenchain::crypto::verify(&tx.public_key, &tx.signature[..255], &data));
    assert!(!zenchain::crypto::verify(&[1, 2, 3], &tx.signature, &data));
    assert!(!zenchain::crypto::verify(&key().1, &tx.signature, &data));
}

#[test]
fn mining_answers_for_the_block_it_leaves() {
    let mut block = Block::new(None, &Vec::new(), &[4u8; 16]);
    loop {
        let found = block.mine(7);
        assert_eq!(found, block.has_work());
        if found {
            break;
        }
    }
    let kept = block.clone();
    assert!(!block.mine(0));
    assert_eq!(block, kept);
    let again = block.mine(1);
    assert_eq!(again, block.has_work());
    assert_eq!(block.index, kept.index);
    assert_eq!(block.prev_hash, kept.prev_hash);
    assert_eq!(block.transactions, kept.transactions);

    let mut miner = Miner::new(None, [4u8; 16]);
    loop {
        let mined = miner.mine(5);
        assert_eq!(mined.is_some(), miner.candidate().has_work());
        if let Some(block) = mined {
            assert_eq!(&block, miner.candidate());
            assert!(block.has_work());
            break;
        }
    }
}

#[test]
fn a_reward_needs_only_the_miner_to_have_room() {
    let rich = [1u8; 16];
    let miner = [2u8; 16];
    let mut world = World::new();
    world.update_on_block(&rewarded(rich, u128::MAX));
    world.update_on_block(&rewarded(miner, 100));
    world.update_on_block(&rewarded(miner, 5));
    assert_eq!(world.get_account_state(&miner), AccountState { address: miner, balance: 105, transaction_index: 0 });
    assert_eq!(world.get_account_state(&rich), AccountState { address: rich, balance: u128::MAX, transaction_index: 0 });
    let mut block = rewarded(miner, 1);
    block.transactions = vec![plain(miner, rich, 1, 1)];
    world.update_on_block(&block);
    assert_eq!(world.get_account_state(&miner).balance, 106);
    assert_eq!(world.get_account_state(&miner).transaction_index, 0);

    assert!(world.can_apply(&plain(miner, [3u8; 16], 106, 1)));
    assert!(!world.can_apply(&plain(miner, [3u8; 16], 107, 1)));
    assert!(!world.can_apply(&plain(miner, rich, 1, 1)));
    assert!(world.can_apply(&plain(miner, rich, 0, 1)));
    assert!(world.can_apply(&plain(rich, rich, u128::MAX, 1)));
    assert!(world.can_apply(&plain(rich, miner, u128::MAX - 106, 9)));
    assert!(!world.can_apply(&plain(rich, miner, u128::MAX - 105, 1)));
    world.update_on_transaction(&plain(rich, miner, u128::MAX - 106, 1));
    assert_eq!(world.get_account_state(&miner).balance, u128::MAX);
    assert_eq!(world.get_account_state(&rich), AccountState { address: rich, balance: 106, transaction_index: 1 });
}

#[test]
fn a_mined_block_is_the_miners() {
    let parent = with_work(Block::new(None, &Vec::new(), &[1u8; 16]));
    let mut miner = Miner::new(Some(parent.clone()), [8u8; 16]);
    let block = loop {
        if let Some(block) = miner.mine(1000) {
            break block;
        }
    };
    assert_eq!(block.miner, [8u8; 16]);
    assert_eq!(block.reward, 100);
    assert_eq!(block.difficulty, 2);
    assert_eq!(block.index, 2);
    assert_eq!(block.prev_hash, parent.get_hash());
    assert_eq!(&block.get_hash()[..2], &[0u8, 0]);
    let mut store = BlockChain::new();
    assert_eq!(store.accept_block(parent), Ok(()));
    assert_eq!(store.accept_block(block), Ok(()));
}

#[test]
fn a_saved_store_loads_as_itself() {
    let alice = key();
    let mut store = BlockChain::new();
    let root = with_work(Block::new(None, &Vec::new(), &alice.2));
    let paid = with_work(Block::new(Some(&root), &vec![signed(&alice, [5u8; 16], 30, 1)], &[2u8; 16]));
    let side = with_work(Block::new(Some(&root), &Vec::new(), &[3u8; 16]));
    let top = with_work(Block::new(Some(&side), &Vec::new(), &[3u8; 16]));
    for block in [&root, &paid, &side, &top] {
        assert_eq!(store.accept_block(block.clone()), Ok(()));
    }
    let loaded = BlockChain::load(&store.save().unwrap()).unwrap();
    assert_eq!(loaded.len(), 4);
    for block in [&root, &paid, &side, &top] {
        assert_eq!(loaded.get(&block.get_hash()), Some(block));
    }
    assert_eq!(loaded.get_chain(), store.get_chain());
    assert_eq!(loaded.get_chain(), vec![root.clone(), side.clone(), top.clone()]);
    assert_eq!(loaded.get_chain_from_leaf(paid.get_hash()), vec![root, paid]);
    assert_eq!(loaded.save(), store.save());
    assert_eq!(loaded.world().get_account_state(&[3u8; 16]).balance, 200);
}
