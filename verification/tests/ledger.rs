use openssl::hash::MessageDigest;
use openssl::pkey::{PKey, Private};
use openssl::rsa::Rsa;
use openssl::sign::Signer;
use zenchain::block::{Block, BLOCK_REWARD, DIFFICULTY};
use zenchain::blockchain::{keep_longer, BlockChain};
use zenchain::crypto::{derive_address, hash_bytes};
use zenchain::messages::{ClientNetworkMessage, MinerMessage, ServerNetworkMessage};
use zenchain::miner::Miner;
use zenchain::transaction::Transaction;
use zenchain::types::ValidationError;
use zenchain::world::{AccountState, World};

struct Wallet {
    key: PKey<Private>,
    public_key: [u8; 294],
    address: [u8; 16],
}

fn wallet() -> Wallet {
    let rsa = Rsa::generate(2048).unwrap();
    let key = PKey::from_rsa(rsa).unwrap();
    let der = key.public_key_to_der().unwrap();
    assert_eq!(der.len(), 294);
    let mut public_key = [0u8; 294];
    public_key.copy_from_slice(&der);
    let address = derive_address(&public_key);
    Wallet { key, public_key, address }
}

fn transfer(from: &Wallet, to: [u8; 16], amount: u128, index: u128) -> Transaction {
    let data = Transaction::transaction_data_bytes(&from.address, &to, amount, index);
    let mut signer = Signer::new(MessageDigest::sha3_256(), &from.key).unwrap();
    signer.update(&data).unwrap();
    let signed = signer.sign_to_vec().unwrap();
    assert_eq!(signed.len(), 256);
    let mut signature = [0u8; 256];
    signature.copy_from_slice(&signed);
    Transaction { amount, index, sender: from.address, recipient: to, signature, public_key: from.public_key }
}

fn mined(parent: Option<&Block>, transactions: &Vec<Transaction>, miner: &[u8; 16]) -> Block {
    let mut block = Block::new(parent, transactions, miner);
    while !block.mine(1000) {}
    block
}

fn unmined(parent: Option<&Block>, transactions: &Vec<Transaction>, miner: &[u8; 16]) -> Block {
    let mut block = Block::new(parent, transactions, miner);
    let mut nonce = [0u8; 32];
    while block.try_nonce(nonce) {
        nonce[0] += 1;
    }
    block
}

#[test]
fn genesis_mine_credits_the_miner() {
    let a = [7u8; 16];
    let mut miner = Miner::new(None, a);
    let block = loop {
        if let Some(block) = miner.mine(1000) {
            break block;
        }
    };
    assert_eq!(block.index, 1);
    assert_eq!(block.prev_hash, [0u8; 32]);
    assert_eq!(block.difficulty, DIFFICULTY);
    assert_eq!(block.reward, BLOCK_REWARD);
    assert_eq!(&block.get_hash()[..2], &[0u8, 0u8]);
    let mut store = BlockChain::new();
    assert_eq!(store.accept_block(block.clone()), Ok(()));
    assert_eq!(store.len(), 1);
    let chain = store.get_chain();
    assert_eq!(chain, vec![block]);
    let world = World::from_chain(&chain);
    let state = world.get_account_state(&a);
    assert_eq!(state.balance, 100);
    assert_eq!(state.transaction_index, 0);
}

#[test]
fn transfer_replay_and_overdraft() {
    let a = wallet();
    let b = wallet();
    let c = [3u8; 16];
    let mut store = BlockChain::new();
    let first = mined(None, &Vec::new(), &a.address);
    assert_eq!(store.accept_block(first.clone()), Ok(()));

    let tx = transfer(&a, b.address, 30, 1);
    assert!(tx.is_signature_valid());
    let handled = store.handle_message(ServerNetworkMessage::SubmitTransaction(tx));
    assert_eq!(handled.reply, ClientNetworkMessage::Ack);
    assert!(!handled.persist);
    let mut miner = Miner::new(Some(first.clone()), a.address);
    match handled.event {
        Some(message) => miner.on_message(message),
        None => panic!("a valid transaction goes to the miner"),
    }
    assert_eq!(miner.pending_len(), 1);
    assert_eq!(miner.candidate().transactions, vec![tx]);
    assert_eq!(miner.candidate().index, 2);
    assert_eq!(miner.candidate().prev_hash, first.get_hash());
    let second = loop {
        if let Some(block) = miner.mine(1000) {
            break block;
        }
    };
    assert_eq!(miner.pending_len(), 0);
    let handled = store.handle_message(ServerNetworkMessage::BroadcastBlock(second.clone()));
    assert_eq!(handled.reply, ClientNetworkMessage::Ack);
    assert!(handled.persist);
    assert!(matches!(handled.event, Some(MinerMessage::NewBlock(_))));
    assert_eq!(store.len(), 2);

    let world = store.world();
    assert_eq!(world.get_account_state(&a.address).balance, 170);
    assert_eq!(world.get_account_state(&a.address).transaction_index, 1);
    assert_eq!(world.get_account_state(&b.address).balance, 30);
    assert_eq!(world.get_account_state(&b.address).transaction_index, 0);

    let replay = store.handle_message(ServerNetworkMessage::SubmitTransaction(tx));
    assert_eq!(replay.reply, ClientNetworkMessage::Error("Invalid transaction index".to_string()));
    assert!(replay.event.is_none());
    assert_eq!(store.len(), 2);

    let overdraft = transfer(&b, c, 31, 1);
    let refused = store.handle_message(ServerNetworkMessage::SubmitTransaction(overdraft));
    assert_eq!(refused.reply, ClientNetworkMessage::Error("Insufficient balance".to_string()));
    assert_eq!(overdraft.is_valid(&world), Err(ValidationError::InsufficientBalance));
    let exact = transfer(&b, c, 30, 1);
    assert_eq!(exact.is_valid(&world), Ok(()));

    let asked = store.handle_message(ServerNetworkMessage::AccountState(b.address));
    assert_eq!(
        asked.reply,
        ClientNetworkMessage::AccountState(AccountState { address: b.address, balance: 30, transaction_index: 0 })
    );
}

#[test]
fn block_without_work_is_refused() {
    let mut store = BlockChain::new();
    let block = unmined(None, &Vec::new(), &[1u8; 16]);
    let handled = store.handle_message(ServerNetworkMessage::BroadcastBlock(block.clone()));
    assert_eq!(handled.reply, ClientNetworkMessage::Error("Invalid hash".to_string()));
    assert!(!handled.persist);
    assert!(handled.event.is_none());
    assert_eq!(store.len(), 0);
    assert_eq!(block.is_valid(&store), Err(ValidationError::InsufficientWork));
}

#[test]
fn longest_of_two_forks_is_canonical() {
    let miner = [9u8; 16];
    let other = [8u8; 16];
    let mut short: Vec<Block> = Vec::new();
    let mut long: Vec<Block> = Vec::new();
    let root = mined(None, &Vec::new(), &miner);
    short.push(root.clone());
    long.push(root);
    for _ in 0..4 {
        let next = mined(short.last(), &Vec::new(), &miner);
        short.push(next);
    }
    for _ in 0..5 {
        let next = mined(long.last(), &Vec::new(), &other);
        long.push(next);
    }
    assert_eq!(short.len(), 5);
    assert_eq!(long.len(), 6);
    let best = keep_longer(keep_longer(Vec::new(), short.clone()), long.clone());
    assert_eq!(best, long);
    let kept = keep_longer(short.clone(), short.clone());
    assert_eq!(kept, short);

    let mut store = BlockChain::new();
    store.import_chain(short.clone());
    assert_eq!(store.get_chain(), short);
    store.import_chain(long.clone());
    assert_eq!(store.len(), 10);
    assert_eq!(store.get_chain().len(), 6);
    assert_eq!(store.get_chain(), long);
    assert_eq!(store.get_chain_from_leaf(short[4].get_hash()), short);
    assert_eq!(store.get_chain_from_leaf([0u8; 32]), Vec::new());
    assert_eq!(store.get_chain_from_leaf([5u8; 32]), Vec::new());
    let world = store.world();
    assert_eq!(world.get_account_state(&other).balance, 500);
    assert_eq!(world.get_account_state(&miner).balance, 100);
}

#[test]
fn inserting_twice_changes_nothing() {
    let mut store = BlockChain::new();
    let first = mined(None, &Vec::new(), &[2u8; 16]);
    assert_eq!(store.accept_block(first.clone()), Ok(()));
    let before = store.get_chain();
    assert_eq!(store.accept_block(first.clone()), Ok(()));
    assert_eq!(store.len(), 1);
    assert_eq!(store.get_chain(), before);
    let handled = store.handle_message(ServerNetworkMessage::BroadcastBlock(first));
    assert_eq!(handled.reply, ClientNetworkMessage::Ack);
    assert!(handled.event.is_none());
    assert!(handled.persist);
}

#[test]
fn digest_of_nothing() {
    let digest = hash_bytes(&[]);
    let expected: [u8; 32] = [
        0xa7, 0xff, 0xc6, 0xf8, 0xbf, 0x1e, 0xd7, 0x66, 0x51, 0xc1, 0x47, 0x56, 0xa0, 0x61, 0xd6, 0x62, 0xf5, 0x80,
        0xff, 0x4d, 0xe4, 0x3b, 0x49, 0xfa, 0x82, 0xd8, 0x0a, 0x4b, 0x80, 0xf8, 0x43, 0x4a,
    ];
    assert_eq!(digest, expected);
    assert_eq!(&derive_address(&[])[..], &expected[..16]);
}
