//! What peers ask of a node, what it answers, and what it tells its miner.

use vstd::prelude::*;
use crate::types::Address;
use crate::transaction::Transaction;
use crate::block::{views, Block, BlockView};
use crate::world::{AccountState, World};

verus! {

/// A request to a node.
#[derive(Debug, PartialEq)]
pub enum ServerNetworkMessage {
    AccountState(Address),
    SubmitTransaction(Transaction),
    GetChain,
    BroadcastBlock(Block),
}

/// A node's answer.
#[derive(Debug, PartialEq)]
pub enum ClientNetworkMessage {
    AccountState(AccountState),
    Ack,
    Error(String),
    Chain(Vec<Block>),
}

/// What the node tells its miner.
#[derive(Debug)]
pub enum MinerMessage {
    /// A transaction that was valid in the given world.
    NewTransaction(Transaction, World),
    /// A block that made the canonical chain longer.
    NewBlock(Block),
}

/// A request as a value.
pub ghost enum RequestView {
    AccountState(Address),
    SubmitTransaction(Transaction),
    GetChain,
    BroadcastBlock(BlockView),
}

/// An answer as a value.
pub ghost enum ReplyView {
    AccountState(AccountState),
    Ack,
    Error(Seq<char>),
    Chain(Seq<BlockView>),
}

/// A message to the miner as a value.
pub ghost enum MinerEventView {
    NewTransaction(Transaction, Seq<AccountState>),
    NewBlock(BlockView),
}

impl View for ServerNetworkMessage {
    type V = RequestView;

    open spec fn view(&self) -> RequestView {
        match self {
            ServerNetworkMessage::AccountState(address) => RequestView::AccountState(*address),
            ServerNetworkMessage::SubmitTransaction(tx) => RequestView::SubmitTransaction(*tx),
            ServerNetworkMessage::GetChain => RequestView::GetChain,
            ServerNetworkMessage::BroadcastBlock(block) => RequestView::BroadcastBlock(block@),
        }
    }
}

impl View for ClientNetworkMessage {
    type V = ReplyView;

    open spec fn view(&self) -> ReplyView {
        match self {
            ClientNetworkMessage::AccountState(state) => ReplyView::AccountState(*state),
            ClientNetworkMessage::Ack => ReplyView::Ack,
            ClientNetworkMessage::Error(text) => ReplyView::Error(text@),
            ClientNetworkMessage::Chain(chain) => ReplyView::Chain(views(chain@)),
        }
    }
}

impl View for MinerMessage {
    type V = MinerEventView;

    open spec fn view(&self) -> MinerEventView {
        match self {
            MinerMessage::NewTransaction(tx, world) => MinerEventView::NewTransaction(*tx, world@),
            MinerMessage::NewBlock(block) => MinerEventView::NewBlock(block@),
        }
    }
}

/// The view of a message to the miner that may be absent.
pub open spec fn event_view(event: Option<MinerMessage>) -> Option<MinerEventView> {
    match event {
        Some(message) => Some(message@),
        None => None,
    }
}

} // verus!
