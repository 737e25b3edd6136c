//! The bytes of requests and answers, and the frames they travel in: a
//! four-byte tag for the kind of message, then its contents; a frame is a
//! four-byte length and then that many bytes.

use vstd::prelude::*;
use vstd::bytes::*;
use vstd::slice::slice_subrange;
use vstd::string::*;
use vstd::utf8::*;
use crate::codec::{append_bytes, block_bytes, can_encode, count_bytes, decode_block, decode_transaction, encodable, lemma_block_bytes, take_array, transaction_bytes, write_block, write_transaction};
use crate::block::{block_hash, views, Block, BlockView};
use crate::types::bytes_eq;
use crate::messages::{ClientNetworkMessage, ReplyView, RequestView, ServerNetworkMessage};
use crate::world::AccountState;

verus! {

/// The bytes of blocks, one after the other.
pub open spec fn blocks_bytes(chain: Seq<BlockView>) -> Seq<u8>
    decreases chain.len(),
{
    if chain.len() == 0 {
        Seq::empty()
    } else {
        blocks_bytes(chain.drop_last()) + block_bytes(chain.last())
    }
}

/// Each block of `chain` can be written.
pub open spec fn all_encodable(chain: Seq<BlockView>) -> bool {
    forall|i: int| 0 <= i < chain.len() ==> encodable(#[trigger] chain[i])
}

/// The bytes of a text: the length of its UTF-8 form, then that form.
pub open spec fn text_bytes(text: Seq<char>) -> Seq<u8> {
    count_bytes(encode_utf8(text).len()) + encode_utf8(text)
}

/// The bytes of an account state: address, balance, index; 48 in all.
pub open spec fn account_bytes(state: AccountState) -> Seq<u8> {
    state.address@ + spec_u128_to_le_bytes(state.balance) + spec_u128_to_le_bytes(state.transaction_index)
}

/// The tag of a request, by the order of the kinds.
pub open spec fn request_tag(request: RequestView) -> u32 {
    match request {
        RequestView::AccountState(_) => 0,
        RequestView::SubmitTransaction(_) => 1,
        RequestView::GetChain => 2,
        RequestView::BroadcastBlock(_) => 3,
    }
}

/// What follows the tag of a request.
pub open spec fn request_payload(request: RequestView) -> Seq<u8> {
    match request {
        RequestView::AccountState(address) => address@,
        RequestView::SubmitTransaction(tx) => transaction_bytes(tx),
        RequestView::GetChain => Seq::empty(),
        RequestView::BroadcastBlock(block) => block_bytes(block),
    }
}

/// The bytes of a request.
pub open spec fn request_bytes(request: RequestView) -> Seq<u8> {
    spec_u32_to_le_bytes(request_tag(request)) + request_payload(request)
}

/// A request that can be written: its block, if any, can.
pub open spec fn request_encodable(request: RequestView) -> bool {
    match request {
        RequestView::BroadcastBlock(block) => encodable(block),
        _ => true,
    }
}

/// The tag of an answer, by the order of the kinds.
pub open spec fn reply_tag(reply: ReplyView) -> u32 {
    match reply {
        ReplyView::AccountState(_) => 0,
        ReplyView::Ack => 1,
        ReplyView::Error(_) => 2,
        ReplyView::Chain(_) => 3,
    }
}

/// What follows the tag of an answer.
pub open spec fn reply_payload(reply: ReplyView) -> Seq<u8> {
    match reply {
        ReplyView::AccountState(state) => account_bytes(state),
        ReplyView::Ack => Seq::empty(),
        ReplyView::Error(text) => text_bytes(text),
        ReplyView::Chain(chain) => count_bytes(chain.len()) + blocks_bytes(chain),
    }
}

/// The bytes of an answer.
pub open spec fn reply_bytes(reply: ReplyView) -> Seq<u8> {
    spec_u32_to_le_bytes(reply_tag(reply)) + reply_payload(reply)
}

/// An answer that can be written: the lengths in it fit in four bytes.
pub open spec fn reply_encodable(reply: ReplyView) -> bool {
    match reply {
        ReplyView::Error(text) => encode_utf8(text).len() <= u32::MAX,
        ReplyView::Chain(chain) => chain.len() <= u32::MAX && all_encodable(chain),
        _ => true,
    }
}

/// A payload in its frame: its length in four bytes, then the payload.
pub open spec fn frame_bytes(payload: Seq<u8>) -> Seq<u8> {
    count_bytes(payload.len()) + payload
}

/// Calls `String::from_utf8`. Trusted: it gives a string exactly for
/// bytes that are valid UTF-8, and the string then holds the characters
/// that the bytes encode.
#[verifier::external_body]
fn string_from_utf8(bytes: Vec<u8>) -> (text: Option<String>)
    ensures
        text is Some == valid_utf8(bytes@),
        text is Some ==> text.unwrap()@ == decode_utf8(bytes@),
{
    String::from_utf8(bytes).ok()
}

/// Appends the bytes of the blocks of `chain` to `out`.
pub(crate) fn write_blocks(out: &mut Vec<u8>, chain: &Vec<Block>)
    ensures
        final(out)@ == old(out)@ + blocks_bytes(views(chain@)),
{
    let ghost start = out@;
    let mut i: usize = 0;
    assert(views(chain@).take(0) =~= Seq::<BlockView>::empty());
    assert(out@ =~= start + blocks_bytes(views(chain@).take(0)));
    while i < chain.len()
        invariant
            i <= chain@.len(),
            out@ == start + blocks_bytes(views(chain@).take(i as int)),
        decreases chain@.len() - i,
    {
        write_block(out, &chain[i]);
        proof {
            let next = views(chain@).take(i + 1);
            assert(next.drop_last() =~= views(chain@).take(i as int));
            assert(next.last() == chain@[i as int]@);
            assert(out@ =~= start + blocks_bytes(next));
        }
        i += 1;
    }
    assert(views(chain@).take(i as int) =~= views(chain@));
}

/// Whether each block of `chain` can be written.
pub fn can_encode_all(chain: &Vec<Block>) -> (yes: bool)
    ensures
        yes == all_encodable(views(chain@)),
{
    let mut i: usize = 0;
    while i < chain.len()
        invariant
            i <= chain@.len(),
            forall|k: int| 0 <= k < i ==> encodable(#[trigger] views(chain@)[k]),
        decreases chain@.len() - i,
    {
        if !can_encode(&chain[i]) {
            assert(!encodable(views(chain@)[i as int]));
            return false;
        }
        i += 1;
    }
    true
}

/// The bytes of a request; nothing where it holds a block that cannot be
/// written.
pub fn encode_server_message(message: &ServerNetworkMessage) -> (bytes: Option<Vec<u8>>)
    ensures
        bytes is Some == request_encodable(message@),
        bytes is Some ==> bytes.unwrap()@ == request_bytes(message@),
{
    let mut out: Vec<u8> = Vec::new();
    match message {
        ServerNetworkMessage::AccountState(address) => {
            append_bytes(&mut out, u32_to_le_bytes(0).as_slice());
            append_bytes(&mut out, address.as_slice());
        },
        ServerNetworkMessage::SubmitTransaction(tx) => {
            append_bytes(&mut out, u32_to_le_bytes(1).as_slice());
            write_transaction(&mut out, tx);
        },
        ServerNetworkMessage::GetChain => {
            append_bytes(&mut out, u32_to_le_bytes(2).as_slice());
        },
        ServerNetworkMessage::BroadcastBlock(block) => {
            if !can_encode(block) {
                return None;
            }
            append_bytes(&mut out, u32_to_le_bytes(3).as_slice());
            write_block(&mut out, block);
        },
    }
    assert(out@ =~= request_bytes(message@));
    Some(out)
}

/// The bytes of an answer; nothing where a length in it does not fit in
/// four bytes.
pub fn encode_client_message(message: &ClientNetworkMessage) -> (bytes: Option<Vec<u8>>)
    ensures
        bytes is Some == reply_encodable(message@),
        bytes is Some ==> bytes.unwrap()@ == reply_bytes(message@),
{
    let mut out: Vec<u8> = Vec::new();
    match message {
        ClientNetworkMessage::AccountState(state) => {
            append_bytes(&mut out, u32_to_le_bytes(0).as_slice());
            append_bytes(&mut out, state.address.as_slice());
            append_bytes(&mut out, u128_to_le_bytes(state.balance).as_slice());
            append_bytes(&mut out, u128_to_le_bytes(state.transaction_index).as_slice());
        },
        ClientNetworkMessage::Ack => {
            append_bytes(&mut out, u32_to_le_bytes(1).as_slice());
        },
        ClientNetworkMessage::Error(text) => {
            let utf8 = text.as_str().as_bytes();
            if utf8.len() > u32::MAX as usize {
                return None;
            }
            append_bytes(&mut out, u32_to_le_bytes(2).as_slice());
            append_bytes(&mut out, u32_to_le_bytes(utf8.len() as u32).as_slice());
            append_bytes(&mut out, utf8);
        },
        ClientNetworkMessage::Chain(chain) => {
            if chain.len() > u32::MAX as usize || !can_encode_all(chain) {
                return None;
            }
            append_bytes(&mut out, u32_to_le_bytes(3).as_slice());
            append_bytes(&mut out, u32_to_le_bytes(chain.len() as u32).as_slice());
            write_blocks(&mut out, chain);
        },
    }
    assert(out@ =~= reply_bytes(message@));
    Some(out)
}

/// Puts a payload in its frame; nothing where its length does not fit in
/// four bytes.
pub fn frame(payload: &[u8]) -> (framed: Option<Vec<u8>>)
    ensures
        framed is Some == (payload@.len() <= u32::MAX),
        framed is Some ==> framed.unwrap()@ == frame_bytes(payload@),
{
    if payload.len() > u32::MAX as usize {
        return None;
    }
    let mut out = u32_to_le_bytes(payload.len() as u32);
    append_bytes(&mut out, payload);
    Some(out)
}

/// The length of the payload that a frame's first four bytes announce.
pub fn frame_length(header: &[u8; 4]) -> (length: u32)
    ensures
        length == spec_u32_from_le_bytes(header@),
        forall|payload: Seq<u8>|
            payload.len() <= u32::MAX && frame_bytes(payload).subrange(0, 4) == header@ ==> length
                == payload.len(),
{
    proof {
        lemma_auto_spec_u32_to_from_le_bytes();
        assert forall|payload: Seq<u8>|
            payload.len() <= u32::MAX && frame_bytes(payload).subrange(0, 4) == header@ implies spec_u32_from_le_bytes(
            header@,
        ) == payload.len() by {
            assert(frame_bytes(payload).subrange(0, 4) =~= count_bytes(payload.len()));
        }
    }
    u32_from_le_bytes(header.as_slice())
}

/// The bytes of the first `k` blocks of a chain are the start of the
/// bytes of the chain.
pub proof fn lemma_blocks_prefix(chain: Seq<BlockView>, k: int)
    requires
        0 <= k <= chain.len(),
    ensures
        blocks_bytes(chain.take(k)).len() <= blocks_bytes(chain).len(),
        blocks_bytes(chain.take(k)) == blocks_bytes(chain).subrange(0, blocks_bytes(chain.take(k)).len() as int),
    decreases chain.len(),
{
    if k == chain.len() {
        assert(chain.take(k) =~= chain);
        assert(blocks_bytes(chain) =~= blocks_bytes(chain).subrange(0, blocks_bytes(chain).len() as int));
    } else {
        lemma_blocks_prefix(chain.drop_last(), k);
        assert(chain.drop_last().take(k) =~= chain.take(k));
        let short = blocks_bytes(chain.take(k));
        assert(short =~= blocks_bytes(chain).subrange(0, short.len() as int));
    }
}

/// Where the block at `i` stands in the bytes of a chain, given where the
/// blocks before it end.
#[verifier::rlimit(50)]
pub proof fn lemma_next_block(bytes: Seq<u8>, chain: Seq<BlockView>, i: int, at: int)
    requires
        blocks_bytes(chain) == bytes,
        0 <= i < chain.len(),
        all_encodable(chain),
        blocks_bytes(chain.take(i)).len() == at,
    ensures
        at + 120 + 614 * chain[i].transactions.len() <= bytes.len(),
        spec_u32_from_le_bytes(bytes.subrange(at + 112, at + 116)) == chain[i].transactions.len(),
        bytes.subrange(at, at + 120 + 614 * (chain[i].transactions.len() as int)) == block_bytes(chain[i]),
        blocks_bytes(chain.take(i + 1)).len() == at + 120 + 614 * chain[i].transactions.len(),
{
    lemma_auto_spec_u32_to_from_le_bytes();
    let n = chain[i].transactions.len() as int;
    let upto = chain.take(i + 1);
    assert(upto.drop_last() =~= chain.take(i));
    assert(upto.last() == chain[i]);
    lemma_block_bytes(chain[i]);
    lemma_blocks_prefix(chain, i + 1);
    let whole = blocks_bytes(upto);
    assert(whole == blocks_bytes(chain.take(i)) + block_bytes(chain[i]));
    assert(whole.len() == at + 120 + 614 * n);
    assert(bytes.subrange(at, at + 120 + 614 * n) =~= block_bytes(chain[i])) by {
        assert(whole == bytes.subrange(0, whole.len() as int));
        assert forall|j: int| 0 <= j < 120 + 614 * n implies bytes[at + j] == block_bytes(chain[i])[j] by {
            assert(whole[at + j] == block_bytes(chain[i])[j]);
            assert(bytes.subrange(0, whole.len() as int)[at + j] == bytes[at + j]);
        }
    }
    assert(bytes.subrange(at + 112, at + 116) =~= block_bytes(chain[i]).subrange(112, 116));
    assert(encodable(chain[i]));
}

/// Reads `count` blocks from exactly their bytes. The bytes of every
/// chain of `count` blocks that can be written give that chain back;
/// other bytes give nothing.
#[verifier::rlimit(50)]
pub fn decode_blocks(bytes: &[u8], count: usize) -> (chain: Option<Vec<Block>>)
    ensures
        chain is Some ==> blocks_bytes(views(chain.unwrap()@)) == bytes@ && chain.unwrap()@.len() == count
            && all_encodable(views(chain.unwrap()@)),
        forall|c: Seq<BlockView>|
            c.len() == count && all_encodable(c) && blocks_bytes(c) == bytes@ ==> chain is Some && views(
                chain.unwrap()@,
            ) == c,
{
    let mut out: Vec<Block> = Vec::new();
    let total = bytes.len();
    let mut at: usize = 0;
    let mut i: usize = 0;
    proof {
        assert(views(out@) =~= Seq::<BlockView>::empty());
        assert(bytes@.subrange(0, 0) =~= Seq::<u8>::empty());
        assert forall|c: Seq<BlockView>| c.len() == count implies c.take(0) == views(out@) by {
            assert(c.take(0) =~= views(out@));
        }
    }
    while i < count
        invariant
            i <= count,
            total == bytes@.len(),
            at <= total,
            out@.len() == i,
            all_encodable(views(out@)),
            blocks_bytes(views(out@)) == bytes@.subrange(0, at as int),
            forall|c: Seq<BlockView>|
                c.len() == count && all_encodable(c) && #[trigger] blocks_bytes(c) == bytes@ ==> c.take(i as int)
                    == views(out@),
        decreases count - i,
    {
        proof {
            assert forall|c: Seq<BlockView>|
                c.len() == count && all_encodable(c) && #[trigger] blocks_bytes(c) == bytes@ implies at + 120 + 614
                * c[i as int].transactions.len() <= total && spec_u32_from_le_bytes(
                bytes@.subrange(at + 112, at + 116),
            ) == c[i as int].transactions.len() && bytes@.subrange(
                at as int,
                at + 120 + 614 * (c[i as int].transactions.len() as int),
            ) == block_bytes(c[i as int]) by {
                assert(c.take(i as int) == views(out@));
                lemma_next_block(bytes@, c, i as int, at as int);
            }
        }
        if total - at < 120 {
            return None;
        }
        let n = u32_from_le_bytes(slice_subrange(bytes, at + 112, at + 116));
        let length: u64 = 120u64 + 614u64 * (n as u64);
        if length > (total - at) as u64 {
            return None;
        }
        let end: usize = at + length as usize;
        let block = match decode_block(slice_subrange(bytes, at, end)) {
            Some(block) => block,
            None => {
                return None;
            },
        };
        let ghost before = views(out@);
        let ghost added = block@;
        out.push(block);
        proof {
            assert(views(out@) =~= before.push(added));
            assert(views(out@).drop_last() =~= before);
            assert(bytes@.subrange(0, at as int) + bytes@.subrange(at as int, end as int) =~= bytes@.subrange(
                0,
                end as int,
            ));
            assert forall|c: Seq<BlockView>|
                c.len() == count && all_encodable(c) && #[trigger] blocks_bytes(c) == bytes@ implies c.take(i + 1)
                == views(out@) by {
                assert(c.take(i as int) == before);
                assert(c[i as int] == added);
                assert(c.take(i + 1) =~= c.take(i as int).push(c[i as int]));
            }
        }
        at = end;
        i += 1;
    }
    proof {
        assert forall|c: Seq<BlockView>|
            c.len() == count && all_encodable(c) && #[trigger] blocks_bytes(c) == bytes@ implies at == total
            && views(out@) == c by {
            assert(c.take(count as int) =~= c);
        }
    }
    if at != total {
        return None;
    }
    assert(bytes@.subrange(0, at as int) =~= bytes@);
    Some(out)
}

/// Reads a request from exactly its bytes. The bytes of every request
/// that can be written give that request back; other bytes give nothing.
#[verifier::rlimit(50)]
pub fn decode_server_message(bytes: &[u8]) -> (message: Option<ServerNetworkMessage>)
    ensures
        message is Some ==> request_bytes(message.unwrap()@) == bytes@ && request_encodable(message.unwrap()@),
        forall|r: RequestView|
            request_encodable(r) && #[trigger] request_bytes(r) == bytes@ ==> message is Some && message.unwrap()@
                == r,
{
    proof {
        lemma_auto_spec_u32_to_from_le_bytes();
        assert forall|r: RequestView| #[trigger] request_bytes(r) == bytes@ implies bytes@.len() >= 4
            && spec_u32_from_le_bytes(bytes@.subrange(0, 4)) == request_tag(r) && bytes@.subrange(
            4,
            bytes@.len() as int,
        ) == request_payload(r) by {
            assert(bytes@.subrange(0, 4) =~= spec_u32_to_le_bytes(request_tag(r)));
            assert(bytes@.subrange(4, bytes@.len() as int) =~= request_payload(r));
        }
    }
    if bytes.len() < 4 {
        return None;
    }
    let tag = u32_from_le_bytes(slice_subrange(bytes, 0, 4));
    let payload = slice_subrange(bytes, 4, bytes.len());
    assert(bytes@ =~= spec_u32_to_le_bytes(tag) + payload@);
    if tag == 0 {
        if payload.len() != 16 {
            return None;
        }
        let address = take_array::<16>(payload, 0);
        assert(address@ =~= payload@);
        proof {
            assert forall|r: RequestView| #[trigger] request_bytes(r) == bytes@ implies r
                == RequestView::AccountState(address) by {
                assert(r->AccountState_0 =~= address);
            }
        }
        Some(ServerNetworkMessage::AccountState(address))
    } else if tag == 1 {
        match decode_transaction(payload) {
            Some(tx) => Some(ServerNetworkMessage::SubmitTransaction(tx)),
            None => None,
        }
    } else if tag == 2 {
        if payload.len() != 0 {
            return None;
        }
        assert(payload@ =~= Seq::<u8>::empty());
        Some(ServerNetworkMessage::GetChain)
    } else if tag == 3 {
        match decode_block(payload) {
            Some(block) => Some(ServerNetworkMessage::BroadcastBlock(block)),
            None => None,
        }
    } else {
        None
    }
}

/// Reads an account state from exactly its 48 bytes.
pub fn decode_account(bytes: &[u8]) -> (state: AccountState)
    requires
        bytes@.len() == 48,
    ensures
        account_bytes(state) == bytes@,
        forall|s: AccountState| account_bytes(s) == bytes@ ==> s == state,
{
    let state = AccountState {
        address: take_array::<16>(bytes, 0),
        balance: u128_from_le_bytes(slice_subrange(bytes, 16, 32)),
        transaction_index: u128_from_le_bytes(slice_subrange(bytes, 32, 48)),
    };
    proof {
        lemma_auto_spec_u128_to_from_le_bytes();
        assert(account_bytes(state) =~= bytes@);
        assert forall|s: AccountState| account_bytes(s) == bytes@ implies s == state by {
            assert(s.address@ =~= bytes@.subrange(0, 16));
            assert(spec_u128_to_le_bytes(s.balance) =~= bytes@.subrange(16, 32));
            assert(spec_u128_to_le_bytes(s.transaction_index) =~= bytes@.subrange(32, 48));
            assert(s.balance == spec_u128_from_le_bytes(spec_u128_to_le_bytes(s.balance)));
            assert(s.transaction_index == spec_u128_from_le_bytes(spec_u128_to_le_bytes(s.transaction_index)));
            assert(s.address =~= state.address);
        }
    }
    state
}

/// Reads a text from exactly its bytes: a length, then that many bytes of
/// UTF-8.
#[verifier::rlimit(50)]
pub fn decode_text(bytes: &[u8]) -> (text: Option<String>)
    ensures
        text is Some ==> text_bytes(text.unwrap()@) == bytes@ && encode_utf8(text.unwrap()@).len() <= u32::MAX,
        forall|t: Seq<char>|
            encode_utf8(t).len() <= u32::MAX && #[trigger] text_bytes(t) == bytes@ ==> text is Some
                && text.unwrap()@ == t,
{
    proof {
        lemma_auto_spec_u32_to_from_le_bytes();
        assert forall|t: Seq<char>|
            encode_utf8(t).len() <= u32::MAX && #[trigger] text_bytes(t) == bytes@ implies bytes@.len() >= 4
            && spec_u32_from_le_bytes(bytes@.subrange(0, 4)) == bytes@.len() - 4 && bytes@.subrange(
            4,
            bytes@.len() as int,
        ) == encode_utf8(t) by {
            assert(bytes@.subrange(0, 4) =~= count_bytes(encode_utf8(t).len()));
            assert(bytes@.subrange(4, bytes@.len() as int) =~= encode_utf8(t));
        }
    }
    if bytes.len() < 4 {
        return None;
    }
    let length = u32_from_le_bytes(slice_subrange(bytes, 0, 4));
    if (bytes.len() - 4) as u64 != length as u64 {
        return None;
    }
    let utf8 = vstd::slice::slice_to_vec(slice_subrange(bytes, 4, bytes.len()));
    proof {
        assert forall|t: Seq<char>|
            encode_utf8(t).len() <= u32::MAX && #[trigger] text_bytes(t) == bytes@ implies valid_utf8(utf8@)
            && decode_utf8(utf8@) == t by {
            encode_utf8_valid_utf8(t);
            encode_utf8_decode_utf8(t);
        }
        if valid_utf8(utf8@) {
            decode_utf8_encode_utf8(utf8@);
        }
    }
    match string_from_utf8(utf8) {
        Some(text) => {
            assert(text_bytes(text@) =~= bytes@);
            Some(text)
        },
        None => None,
    }
}

/// Reads an answer from exactly its bytes. The bytes of every answer
/// that can be written give that answer back; other bytes give nothing.
#[verifier::rlimit(50)]
pub fn decode_client_message(bytes: &[u8]) -> (message: Option<ClientNetworkMessage>)
    ensures
        message is Some ==> reply_bytes(message.unwrap()@) == bytes@ && reply_encodable(message.unwrap()@),
        forall|r: ReplyView|
            reply_encodable(r) && #[trigger] reply_bytes(r) == bytes@ ==> message is Some && message.unwrap()@ == r,
{
    proof {
        lemma_auto_spec_u32_to_from_le_bytes();
        lemma_auto_spec_u128_to_from_le_bytes();
        assert forall|r: ReplyView| #[trigger] reply_bytes(r) == bytes@ implies bytes@.len() >= 4
            && spec_u32_from_le_bytes(bytes@.subrange(0, 4)) == reply_tag(r) && bytes@.subrange(
            4,
            bytes@.len() as int,
        ) == reply_payload(r) by {
            assert(bytes@.subrange(0, 4) =~= spec_u32_to_le_bytes(reply_tag(r)));
            assert(bytes@.subrange(4, bytes@.len() as int) =~= reply_payload(r));
        }
    }
    if bytes.len() < 4 {
        return None;
    }
    let tag = u32_from_le_bytes(slice_subrange(bytes, 0, 4));
    let payload = slice_subrange(bytes, 4, bytes.len());
    assert(bytes@ =~= spec_u32_to_le_bytes(tag) + payload@);
    if tag == 0 {
        if payload.len() != 48 {
            return None;
        }
        Some(ClientNetworkMessage::AccountState(decode_account(payload)))
    } else if tag == 1 {
        if payload.len() != 0 {
            return None;
        }
        assert(payload@ =~= Seq::<u8>::empty());
        Some(ClientNetworkMessage::Ack)
    } else if tag == 2 {
        match decode_text(payload) {
            Some(text) => Some(ClientNetworkMessage::Error(text)),
            None => None,
        }
    } else if tag == 3 {
        proof {
            assert forall|c: Seq<BlockView>|
                c.len() <= u32::MAX && payload@ == count_bytes(c.len()) + #[trigger] blocks_bytes(c) implies payload@.len()
                >= 4 && spec_u32_from_le_bytes(payload@.subrange(0, 4)) == c.len() && payload@.subrange(
                4,
                payload@.len() as int,
            ) == blocks_bytes(c) by {
                assert(payload@.subrange(0, 4) =~= count_bytes(c.len()));
                assert(payload@.subrange(4, payload@.len() as int) =~= blocks_bytes(c));
            }
        }
        if payload.len() < 4 {
            return None;
        }
        let count = u32_from_le_bytes(slice_subrange(payload, 0, 4));
        match decode_blocks(slice_subrange(payload, 4, payload.len()), count as usize) {
            Some(chain) => {
                assert(payload@ =~= count_bytes(chain@.len()) + blocks_bytes(views(chain@)));
                Some(ClientNetworkMessage::Chain(chain))
            },
            None => None,
        }
    } else {
        None
    }
}

/// Takes a payload out of exactly its frame. Every payload that can be
/// framed comes back from its frame; other bytes give nothing.
pub fn unframe(bytes: &[u8]) -> (payload: Option<Vec<u8>>)
    ensures
        payload is Some ==> frame_bytes(payload.unwrap()@) == bytes@ && payload.unwrap()@.len() <= u32::MAX,
        forall|p: Seq<u8>|
            p.len() <= u32::MAX && #[trigger] frame_bytes(p) == bytes@ ==> payload is Some && payload.unwrap()@ == p,
{
    proof {
        lemma_auto_spec_u32_to_from_le_bytes();
        assert forall|p: Seq<u8>| p.len() <= u32::MAX && #[trigger] frame_bytes(p) == bytes@ implies bytes@.len()
            >= 4 && spec_u32_from_le_bytes(bytes@.subrange(0, 4)) == bytes@.len() - 4 && bytes@.subrange(
            4,
            bytes@.len() as int,
        ) == p by {
            assert(bytes@.subrange(0, 4) =~= count_bytes(p.len()));
            assert(bytes@.subrange(4, bytes@.len() as int) =~= p);
        }
    }
    if bytes.len() < 4 {
        return None;
    }
    let length = u32_from_le_bytes(slice_subrange(bytes, 0, 4));
    if (bytes.len() - 4) as u64 != length as u64 {
        return None;
    }
    let payload = vstd::slice::slice_to_vec(slice_subrange(bytes, 4, bytes.len()));
    assert(frame_bytes(payload@) =~= bytes@);
    Some(payload)
}

/// The bytes of the entries of a store, one after the other: for each
/// block its hash, then the block.
pub open spec fn entries_bytes(store: Seq<BlockView>) -> Seq<u8>
    decreases store.len(),
{
    if store.len() == 0 {
        Seq::empty()
    } else {
        entries_bytes(store.drop_last()) + (block_hash(store.last()) + block_bytes(store.last()))
    }
}

/// The bytes of a store: the count of its blocks, then its entries in the
/// order of arrival.
pub open spec fn store_bytes(store: Seq<BlockView>) -> Seq<u8> {
    count_bytes(store.len()) + entries_bytes(store)
}

/// Each block of `store` can be written, and its hash is 32 bytes long.
pub open spec fn all_storable(store: Seq<BlockView>) -> bool {
    forall|i: int| 0 <= i < store.len() ==> encodable(#[trigger] store[i]) && block_hash(store[i]).len() == 32
}

/// The bytes of the first `k` entries of a store are the start of the
/// bytes of its entries.
pub proof fn lemma_entries_prefix(store: Seq<BlockView>, k: int)
    requires
        0 <= k <= store.len(),
    ensures
        entries_bytes(store.take(k)).len() <= entries_bytes(store).len(),
        entries_bytes(store.take(k)) == entries_bytes(store).subrange(0, entries_bytes(store.take(k)).len() as int),
    decreases store.len(),
{
    if k == store.len() {
        assert(store.take(k) =~= store);
        assert(entries_bytes(store) =~= entries_bytes(store).subrange(0, entries_bytes(store).len() as int));
    } else {
        lemma_entries_prefix(store.drop_last(), k);
        assert(store.drop_last().take(k) =~= store.take(k));
        let short = entries_bytes(store.take(k));
        assert(short =~= entries_bytes(store).subrange(0, short.len() as int));
    }
}

/// Where the entry at `i` stands in the bytes of the entries of a store,
/// given where the entries before it end.
#[verifier::rlimit(50)]
pub proof fn lemma_next_entry(bytes: Seq<u8>, store: Seq<BlockView>, i: int, at: int)
    requires
        entries_bytes(store) == bytes,
        0 <= i < store.len(),
        all_storable(store),
        entries_bytes(store.take(i)).len() == at,
    ensures
        at + 152 + 614 * store[i].transactions.len() <= bytes.len(),
        spec_u32_from_le_bytes(bytes.subrange(at + 144, at + 148)) == store[i].transactions.len(),
        bytes.subrange(at, at + 32) == block_hash(store[i]),
        bytes.subrange(at + 32, at + 152 + 614 * (store[i].transactions.len() as int)) == block_bytes(store[i]),
        entries_bytes(store.take(i + 1)).len() == at + 152 + 614 * store[i].transactions.len(),
{
    lemma_auto_spec_u32_to_from_le_bytes();
    let n = store[i].transactions.len() as int;
    let upto = store.take(i + 1);
    assert(upto.drop_last() =~= store.take(i));
    assert(upto.last() == store[i]);
    assert(encodable(store[i]) && block_hash(store[i]).len() == 32);
    lemma_block_bytes(store[i]);
    lemma_entries_prefix(store, i + 1);
    let whole = entries_bytes(upto);
    let entry = block_hash(store[i]) + block_bytes(store[i]);
    assert(whole == entries_bytes(store.take(i)) + entry);
    assert(whole.len() == at + 152 + 614 * n);
    assert(whole == bytes.subrange(0, whole.len() as int));
    assert forall|j: int| 0 <= j < 152 + 614 * n implies bytes[at + j] == entry[j] by {
        assert(whole[at + j] == entry[j]);
        assert(bytes.subrange(0, whole.len() as int)[at + j] == bytes[at + j]);
    }
    assert(bytes.subrange(at, at + 32) =~= block_hash(store[i])) by {
        assert forall|j: int| 0 <= j < 32 implies bytes[at + j] == block_hash(store[i])[j] by {
            assert(entry[j] == block_hash(store[i])[j]);
        }
    }
    assert(bytes.subrange(at + 32, at + 152 + 614 * n) =~= block_bytes(store[i])) by {
        assert forall|j: int| 0 <= j < 120 + 614 * n implies bytes[at + 32 + j] == block_bytes(store[i])[j] by {
            assert(entry[32 + j] == block_bytes(store[i])[j]);
        }
    }
    assert(bytes.subrange(at + 144, at + 148) =~= block_bytes(store[i]).subrange(112, 116));
}

/// Appends the entry of `block` under `hash` to `out`.
pub(crate) fn write_entry(out: &mut Vec<u8>, hash: &[u8; 32], block: &Block)
    ensures
        final(out)@ == old(out)@ + (hash@ + block_bytes(block@)),
{
    let ghost start = out@;
    append_bytes(out, hash.as_slice());
    write_block(out, block);
    assert(out@ =~= start + (hash@ + block_bytes(block@)));
}

/// Reads `count` entries of a store from exactly their bytes. The bytes
/// of the entries of every store of `count` blocks that can be written
/// give its blocks back, in order; other bytes give nothing.
#[verifier::rlimit(50)]
pub fn decode_entries(bytes: &[u8], count: usize) -> (blocks: Option<Vec<Block>>)
    ensures
        blocks is Some ==> entries_bytes(views(blocks.unwrap()@)) == bytes@ && blocks.unwrap()@.len() == count
            && all_storable(views(blocks.unwrap()@)),
        forall|c: Seq<BlockView>|
            c.len() == count && all_storable(c) && entries_bytes(c) == bytes@ ==> blocks is Some && views(
                blocks.unwrap()@,
            ) == c,
{
    let mut out: Vec<Block> = Vec::new();
    let total = bytes.len();
    let mut at: usize = 0;
    let mut i: usize = 0;
    proof {
        assert(views(out@) =~= Seq::<BlockView>::empty());
        assert(bytes@.subrange(0, 0) =~= Seq::<u8>::empty());
        assert forall|c: Seq<BlockView>| c.len() == count implies c.take(0) == views(out@) by {
            assert(c.take(0) =~= views(out@));
        }
    }
    while i < count
        invariant
            i <= count,
            total == bytes@.len(),
            at <= total,
            out@.len() == i,
            all_storable(views(out@)),
            entries_bytes(views(out@)) == bytes@.subrange(0, at as int),
            forall|c: Seq<BlockView>|
                c.len() == count && all_storable(c) && #[trigger] entries_bytes(c) == bytes@ ==> c.take(i as int)
                    == views(out@),
        decreases count - i,
    {
        proof {
            assert forall|c: Seq<BlockView>|
                c.len() == count && all_storable(c) && #[trigger] entries_bytes(c) == bytes@ implies at + 152 + 614
                * c[i as int].transactions.len() <= total && spec_u32_from_le_bytes(
                bytes@.subrange(at + 144, at + 148),
            ) == c[i as int].transactions.len() && bytes@.subrange(at as int, at + 32) == block_hash(c[i as int])
                && bytes@.subrange(at + 32, at + 152 + 614 * (c[i as int].transactions.len() as int))
                == block_bytes(c[i as int]) by {
                assert(c.take(i as int) == views(out@));
                lemma_next_entry(bytes@, c, i as int, at as int);
            }
        }
        if total - at < 152 {
            return None;
        }
        let n = u32_from_le_bytes(slice_subrange(bytes, at + 144, at + 148));
        let length: u64 = 152u64 + 614u64 * (n as u64);
        if length > (total - at) as u64 {
            return None;
        }
        let end: usize = at + length as usize;
        let block = match decode_block(slice_subrange(bytes, at + 32, end)) {
            Some(block) => block,
            None => {
                return None;
            },
        };
        let hash = block.get_hash();
        if !bytes_eq(hash.as_slice(), slice_subrange(bytes, at, at + 32)) {
            return None;
        }
        let ghost before = views(out@);
        let ghost added = block@;
        out.push(block);
        proof {
            assert(views(out@) =~= before.push(added));
            assert(views(out@).drop_last() =~= before);
            assert(bytes@.subrange(0, at as int) + (bytes@.subrange(at as int, at + 32) + bytes@.subrange(
                at + 32,
                end as int,
            )) =~= bytes@.subrange(0, end as int));
            assert forall|c: Seq<BlockView>|
                c.len() == count && all_storable(c) && #[trigger] entries_bytes(c) == bytes@ implies c.take(i + 1)
                == views(out@) by {
                assert(c.take(i as int) == before);
                assert(c[i as int] == added);
                assert(c.take(i + 1) =~= c.take(i as int).push(c[i as int]));
            }
        }
        at = end;
        i += 1;
    }
    proof {
        assert forall|c: Seq<BlockView>|
            c.len() == count && all_storable(c) && #[trigger] entries_bytes(c) == bytes@ implies at == total
            && views(out@) == c by {
            assert(c.take(count as int) =~= c);
        }
    }
    if at != total {
        return None;
    }
    assert(bytes@.subrange(0, at as int) =~= bytes@);
    Some(out)
}

/// Reads the blocks of a store from exactly its bytes, in the order of
/// arrival. The bytes of every store of at most `u32::MAX` blocks that
/// can be written give its blocks back; other bytes give nothing.
pub fn decode_store(bytes: &[u8]) -> (blocks: Option<Vec<Block>>)
    ensures
        blocks is Some ==> store_bytes(views(blocks.unwrap()@)) == bytes@ && all_storable(views(blocks.unwrap()@))
            && blocks.unwrap()@.len() <= u32::MAX,
        forall|c: Seq<BlockView>|
            c.len() <= u32::MAX && all_storable(c) && #[trigger] store_bytes(c) == bytes@ ==> blocks is Some && views(
                blocks.unwrap()@,
            ) == c,
{
    proof {
        lemma_auto_spec_u32_to_from_le_bytes();
        assert forall|c: Seq<BlockView>| c.len() <= u32::MAX && #[trigger] store_bytes(c) == bytes@ implies bytes@.len()
            >= 4 && spec_u32_from_le_bytes(bytes@.subrange(0, 4)) == c.len() && bytes@.subrange(
            4,
            bytes@.len() as int,
        ) == entries_bytes(c) by {
            assert(bytes@.subrange(0, 4) =~= count_bytes(c.len()));
            assert(bytes@.subrange(4, bytes@.len() as int) =~= entries_bytes(c));
        }
    }
    if bytes.len() < 4 {
        return None;
    }
    let count = u32_from_le_bytes(slice_subrange(bytes, 0, 4));
    match decode_entries(slice_subrange(bytes, 4, bytes.len()), count as usize) {
        Some(blocks) => {
            assert(bytes@ =~= count_bytes(blocks@.len()) + entries_bytes(views(blocks@)));
            Some(blocks)
        },
        None => None,
    }
}

/// Chains of the same length whose blocks can be written and whose bytes
/// are the same agree on their first `k` blocks.
pub proof fn lemma_blocks_agree(a: Seq<BlockView>, b: Seq<BlockView>, k: int)
    requires
        a.len() == b.len(),
        all_encodable(a),
        all_encodable(b),
        blocks_bytes(a) == blocks_bytes(b),
        0 <= k <= a.len(),
    ensures
        a.take(k) == b.take(k),
    decreases k,
{
    if k == 0 {
        assert(a.take(0) =~= b.take(0));
    } else {
        lemma_blocks_agree(a, b, k - 1);
        let bytes = blocks_bytes(a);
        let at = blocks_bytes(a.take(k - 1)).len() as int;
        lemma_next_block(bytes, a, k - 1, at);
        lemma_next_block(bytes, b, k - 1, at);
        crate::codec::lemma_block_bytes_injective(a[k - 1], b[k - 1]);
        assert(a.take(k) =~= a.take(k - 1).push(a[k - 1]));
        assert(b.take(k) =~= b.take(k - 1).push(b[k - 1]));
    }
}

/// No two requests that can be written have the same bytes: what was
/// written can be read back in one way only.
pub proof fn lemma_request_bytes_injective(a: RequestView, b: RequestView)
    requires
        request_encodable(a),
        request_encodable(b),
        request_bytes(a) == request_bytes(b),
    ensures
        a == b,
{
    lemma_auto_spec_u32_to_from_le_bytes();
    let bytes = request_bytes(a);
    assert(bytes.subrange(0, 4) =~= spec_u32_to_le_bytes(request_tag(a)));
    assert(bytes.subrange(0, 4) =~= spec_u32_to_le_bytes(request_tag(b)));
    assert(request_tag(a) == spec_u32_from_le_bytes(spec_u32_to_le_bytes(request_tag(a))));
    assert(request_tag(b) == spec_u32_from_le_bytes(spec_u32_to_le_bytes(request_tag(b))));
    assert(bytes.subrange(4, bytes.len() as int) =~= request_payload(a));
    assert(bytes.subrange(4, bytes.len() as int) =~= request_payload(b));
    match a {
        RequestView::AccountState(address) => {
            assert(address =~= b->AccountState_0);
        },
        RequestView::SubmitTransaction(tx) => {
            crate::codec::lemma_transaction_bytes_injective(tx, b->SubmitTransaction_0);
        },
        RequestView::GetChain => {},
        RequestView::BroadcastBlock(block) => {
            crate::codec::lemma_block_bytes_injective(block, b->BroadcastBlock_0);
        },
    }
}

/// No two answers that can be written have the same bytes: what was
/// written can be read back in one way only.
pub proof fn lemma_reply_bytes_injective(a: ReplyView, b: ReplyView)
    requires
        reply_encodable(a),
        reply_encodable(b),
        reply_bytes(a) == reply_bytes(b),
    ensures
        a == b,
{
    lemma_auto_spec_u32_to_from_le_bytes();
    lemma_auto_spec_u128_to_from_le_bytes();
    let bytes = reply_bytes(a);
    assert(bytes.subrange(0, 4) =~= spec_u32_to_le_bytes(reply_tag(a)));
    assert(bytes.subrange(0, 4) =~= spec_u32_to_le_bytes(reply_tag(b)));
    assert(reply_tag(a) == spec_u32_from_le_bytes(spec_u32_to_le_bytes(reply_tag(a))));
    assert(reply_tag(b) == spec_u32_from_le_bytes(spec_u32_to_le_bytes(reply_tag(b))));
    let payload = bytes.subrange(4, bytes.len() as int);
    assert(payload =~= reply_payload(a));
    assert(payload =~= reply_payload(b));
    match a {
        ReplyView::AccountState(s) => {
            let t = b->AccountState_0;
            assert(s.address@ =~= payload.subrange(0, 16));
            assert(t.address@ =~= payload.subrange(0, 16));
            assert(spec_u128_to_le_bytes(s.balance) =~= payload.subrange(16, 32));
            assert(spec_u128_to_le_bytes(t.balance) =~= payload.subrange(16, 32));
            assert(spec_u128_to_le_bytes(s.transaction_index) =~= payload.subrange(32, 48));
            assert(spec_u128_to_le_bytes(t.transaction_index) =~= payload.subrange(32, 48));
            assert(s.balance == spec_u128_from_le_bytes(spec_u128_to_le_bytes(s.balance)));
            assert(t.balance == spec_u128_from_le_bytes(spec_u128_to_le_bytes(t.balance)));
            assert(s.transaction_index == spec_u128_from_le_bytes(spec_u128_to_le_bytes(s.transaction_index)));
            assert(t.transaction_index == spec_u128_from_le_bytes(spec_u128_to_le_bytes(t.transaction_index)));
            assert(s.address =~= t.address);
        },
        ReplyView::Ack => {},
        ReplyView::Error(text) => {
            let other = b->Error_0;
            assert(payload.subrange(4, payload.len() as int) =~= encode_utf8(text));
            assert(payload.subrange(4, payload.len() as int) =~= encode_utf8(other));
            encode_utf8_decode_utf8(text);
            encode_utf8_decode_utf8(other);
        },
        ReplyView::Chain(chain) => {
            let other = b->Chain_0;
            assert(payload.subrange(0, 4) =~= count_bytes(chain.len()));
            assert(payload.subrange(0, 4) =~= count_bytes(other.len()));
            assert(chain.len() as u32 == spec_u32_from_le_bytes(spec_u32_to_le_bytes(chain.len() as u32)));
            assert(other.len() as u32 == spec_u32_from_le_bytes(spec_u32_to_le_bytes(other.len() as u32)));
            assert(payload.subrange(4, payload.len() as int) =~= blocks_bytes(chain));
            assert(payload.subrange(4, payload.len() as int) =~= blocks_bytes(other));
            lemma_blocks_agree(chain, other, chain.len() as int);
            assert(chain.take(chain.len() as int) =~= chain);
            assert(other.take(other.len() as int) =~= other);
        },
    }
}

} // verus!
