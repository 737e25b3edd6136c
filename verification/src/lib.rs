//! A small proof-of-work ledger: blocks, transactions, the account state they
//! fold into, the block tree with longest-chain selection, the miner's
//! decisions and the byte format that blocks are hashed and sent in.

pub mod types;
pub mod crypto;
pub mod codec;
pub mod transaction;
pub mod block;
pub mod world;
pub mod messages;
pub mod blockchain;
pub mod miner;
pub mod keys;
pub mod nodes;
pub mod laws;
pub mod wire;
