use zenchain::block::Block;
use zenchain::codec::{decode_block, decode_transaction, encode_block, encode_transaction};
use zenchain::keys::{format_address, key_name, keypair_to_address, parse_address, parse_address_bytes};
use zenchain::messages::{ClientNetworkMessage, ServerNetworkMessage};
use zenchain::transaction::Transaction;
use zenchain::types::{bytes_eq, is_zero_hash, same_address, same_hash, starts_with_zeros, ValidationError};
use zenchain::wire::{
    decode_blocks, decode_client_message, decode_server_message, encode_client_message, encode_server_message, frame,
    frame_length, unframe,
};
use zenchain::world::AccountState;

fn sample_transaction(amount: u128, index: u128) -> Transaction {
    Transaction {
        amount,
        index,
        sender: [0xaa; 16],
        recipient: [0xbb; 16],
        signature: [0xcc; 256],
        public_key: [0xdd; 294],
    }
}

fn sample_block(transactions: Vec<Transaction>) -> Block {
    Block {
        index: 0x0102,
        prev_hash: [0x11; 32],
        nonce: [0x22; 32],
        miner: [0x33; 16],
        reward: 100,
        transactions,
        difficulty: 2,
    }
}

#[test]
fn transaction_bytes_are_laid_out_in_field_order() {
    let tx = sample_transaction(1, 0x0203);
    let bytes = encode_transaction(&tx);
    assert_eq!(bytes.len(), 614);
    assert_eq!(bytes[0], 1);
    assert!(bytes[1..16].iter().all(|b| *b == 0));
    assert_eq!(&bytes[16..19], &[3u8, 2, 0]);
    assert_eq!(&bytes[32..48], &[0xaa; 16]);
    assert_eq!(&bytes[48..64], &[0xbb; 16]);
    assert_eq!(&bytes[64..320], &[0xcc; 256][..]);
    assert_eq!(&bytes[320..614], &[0xdd; 294][..]);
    assert_eq!(decode_transaction(&bytes), Some(tx));
    assert_eq!(decode_transaction(&bytes[..613]), None);
    assert_eq!(encode_transaction(&tx), bytes);
}

#[test]
fn signed_bytes_are_sender_recipient_amount_index() {
    let data = Transaction::transaction_data_bytes(&[1u8; 16], &[2u8; 16], 30, 1);
    assert_eq!(&data[0..16], &[1u8; 16]);
    assert_eq!(&data[16..32], &[2u8; 16]);
    assert_eq!(&data[32..48], &30u128.to_le_bytes());
    assert_eq!(&data[48..64], &1u128.to_le_bytes());
}

#[test]
fn block_bytes_count_their_transactions() {
    let empty = sample_block(Vec::new());
    let bytes = encode_block(&empty).unwrap();
    assert_eq!(bytes.len(), 120);
    assert_eq!(&bytes[0..3], &[2u8, 1, 0]);
    assert_eq!(&bytes[16..48], &[0x11; 32]);
    assert_eq!(&bytes[48..80], &[0x22; 32]);
    assert_eq!(&bytes[80..96], &[0x33; 16]);
    assert_eq!(bytes[96], 100);
    assert_eq!(&bytes[112..116], &[0u8, 0, 0, 0]);
    assert_eq!(&bytes[116..120], &[2u8, 0, 0, 0]);
    assert_eq!(decode_block(&bytes), Some(empty));

    let full = sample_block(vec![sample_transaction(5, 1), sample_transaction(6, 2)]);
    let bytes = encode_block(&full).unwrap();
    assert_eq!(bytes.len(), 120 + 2 * 614);
    assert_eq!(&bytes[112..116], &[2u8, 0, 0, 0]);
    assert_eq!(&bytes[116..116 + 614], &encode_transaction(&sample_transaction(5, 1))[..]);
    assert_eq!(decode_block(&bytes), Some(full.clone()));
    assert_eq!(decode_block(&bytes[..bytes.len() - 1]), None);
    assert_eq!(decode_block(&bytes[..100]), None);
    let mut longer = bytes.clone();
    longer.push(0);
    assert_eq!(decode_block(&longer), None);
    assert_eq!(full.clone(), full);
}

#[test]
fn hash_follows_the_bytes() {
    let a = sample_block(vec![sample_transaction(5, 1)]);
    let mut b = a.clone();
    assert_eq!(a.get_hash(), b.get_hash());
    assert_eq!(a.get_hash(), zenchain::crypto::hash_bytes(&encode_block(&a).unwrap()));
    b.nonce[31] = 0;
    assert_ne!(a.get_hash(), b.get_hash());
}

#[test]
fn requests_round_trip() {
    assert_eq!(encode_server_message(&ServerNetworkMessage::GetChain).unwrap(), vec![2u8, 0, 0, 0]);
    let mut expected = vec![0u8, 0, 0, 0];
    expected.extend_from_slice(&[9u8; 16]);
    assert_eq!(encode_server_message(&ServerNetworkMessage::AccountState([9u8; 16])).unwrap(), expected);
    let tx = sample_transaction(7, 3);
    let block = sample_block(vec![tx]);
    let submit = encode_server_message(&ServerNetworkMessage::SubmitTransaction(tx)).unwrap();
    assert_eq!(&submit[..4], &[1u8, 0, 0, 0]);
    assert_eq!(&submit[4..], &encode_transaction(&tx)[..]);
    let broadcast = encode_server_message(&ServerNetworkMessage::BroadcastBlock(block.clone())).unwrap();
    assert_eq!(&broadcast[..4], &[3u8, 0, 0, 0]);
    assert_eq!(&broadcast[4..], &encode_block(&block).unwrap()[..]);

    assert_eq!(decode_server_message(&[2, 0, 0, 0]), Some(ServerNetworkMessage::GetChain));
    assert_eq!(decode_server_message(&expected), Some(ServerNetworkMessage::AccountState([9u8; 16])));
    assert_eq!(decode_server_message(&submit), Some(ServerNetworkMessage::SubmitTransaction(tx)));
    assert_eq!(decode_server_message(&broadcast), Some(ServerNetworkMessage::BroadcastBlock(block)));
    assert_eq!(decode_server_message(&[4, 0, 0, 0]), None);
    assert_eq!(decode_server_message(&[2, 0, 0, 0, 0]), None);
    assert_eq!(decode_server_message(&[2, 0, 0]), None);
    assert_eq!(decode_server_message(&expected[..19]), None);
}

#[test]
fn answers_round_trip() {
    assert_eq!(encode_client_message(&ClientNetworkMessage::Ack).unwrap(), vec![1u8, 0, 0, 0]);
    let error = ClientNetworkMessage::Error("hi".to_string());
    assert_eq!(encode_client_message(&error).unwrap(), vec![2u8, 0, 0, 0, 2, 0, 0, 0, b'h', b'i']);
    let state = AccountState { address: [4u8; 16], balance: 170, transaction_index: 1 };
    let bytes = encode_client_message(&ClientNetworkMessage::AccountState(state)).unwrap();
    assert_eq!(bytes.len(), 52);
    assert_eq!(&bytes[..4], &[0u8, 0, 0, 0]);
    assert_eq!(&bytes[4..20], &[4u8; 16]);
    assert_eq!(&bytes[20..36], &170u128.to_le_bytes());
    assert_eq!(&bytes[36..52], &1u128.to_le_bytes());
    assert_eq!(decode_client_message(&bytes), Some(ClientNetworkMessage::AccountState(state)));
    assert_eq!(decode_client_message(&[1, 0, 0, 0]), Some(ClientNetworkMessage::Ack));
    assert_eq!(decode_client_message(&[2, 0, 0, 0, 2, 0, 0, 0, b'h', b'i']), Some(error));
    assert_eq!(decode_client_message(&[2, 0, 0, 0, 1, 0, 0, 0, 0xff]), None);
    assert_eq!(decode_client_message(&[2, 0, 0, 0, 3, 0, 0, 0, b'h', b'i']), None);
    assert_eq!(decode_client_message(&[7, 0, 0, 0]), None);
    let text = ClientNetworkMessage::Error("Invalid hash \u{2713}".to_string());
    assert_eq!(decode_client_message(&encode_client_message(&text).unwrap()), Some(text));

    let chain = vec![sample_block(Vec::new()), sample_block(vec![sample_transaction(1, 1)]), sample_block(Vec::new())];
    let bytes = encode_client_message(&ClientNetworkMessage::Chain(chain.clone())).unwrap();
    assert_eq!(bytes.len(), 8 + 120 + 734 + 120);
    assert_eq!(&bytes[..8], &[3u8, 0, 0, 0, 3, 0, 0, 0]);
    assert_eq!(decode_client_message(&bytes), Some(ClientNetworkMessage::Chain(chain.clone())));
    assert_eq!(decode_client_message(&bytes[..bytes.len() - 1]), None);
    assert_eq!(decode_blocks(&bytes[8..], 3), Some(chain));
    assert_eq!(decode_blocks(&bytes[8..], 2), None);
    assert_eq!(decode_blocks(&bytes[8..], 4), None);
    let none: Vec<Block> = Vec::new();
    assert_eq!(decode_client_message(&[3, 0, 0, 0, 0, 0, 0, 0]), Some(ClientNetworkMessage::Chain(none)));
}

#[test]
fn frames_carry_their_length() {
    let framed = frame(&[5u8, 6, 7]).unwrap();
    assert_eq!(framed, vec![3u8, 0, 0, 0, 5, 6, 7]);
    assert_eq!(frame_length(&[3, 0, 0, 0]), 3);
    assert_eq!(frame_length(&[0, 1, 0, 0]), 256);
    assert_eq!(unframe(&framed), Some(vec![5u8, 6, 7]));
    assert_eq!(unframe(&framed[..6]), None);
    assert_eq!(unframe(&[0, 0, 0]), None);
    assert_eq!(frame(&[]), Some(vec![0u8, 0, 0, 0]));
    assert_eq!(unframe(&[0, 0, 0, 0]), Some(Vec::new()));
}

#[test]
fn addresses_as_text() {
    let mut address = [0u8; 16];
    for i in 0..16 {
        address[i] = (i as u8) * 17;
    }
    let text = format_address(&address);
    assert_eq!(text, "0x00112233445566778899aabbccddeeff");
    assert_eq!(parse_address(&text), address);
    assert_eq!(parse_address("0x00112233445566778899AABBCCDDEEFF"), address);
    assert_eq!(parse_address("zz00112233445566778899aabbccddeeff"), address);
    assert_eq!(parse_address_bytes(text.as_bytes()), Some(address));
    assert_eq!(parse_address_bytes(b"0x00"), None);
    assert_eq!(parse_address_bytes(b"0x00112233445566778899aabbccddeef"), None);
    assert_eq!(parse_address_bytes(b"0x00112233445566778899aabbccddeeff0"), None);
    assert_eq!(parse_address_bytes(b"0x00112233445566778899aabbccddeefg"), None);
    assert_eq!(parse_address_bytes(b"0x+0112233445566778899aabbccddeeff"), None);
    assert_eq!(parse_address_bytes(b"zz0f000000000000000000000000000010"), {
        let mut a = [0u8; 16];
        a[0] = 15;
        a[15] = 16;
        Some(a)
    });
    assert_eq!(format_address(&[0xf0; 16]), "0xf0f0f0f0f0f0f0f0f0f0f0f0f0f0f0f0");
    assert_eq!(keypair_to_address(b"abc"), None);
}

#[test]
fn byte_helpers() {
    assert!(bytes_eq(&[1, 2], &[1, 2]));
    assert!(!bytes_eq(&[1, 2], &[1, 3]));
    assert!(!bytes_eq(&[1, 2], &[1]));
    assert!(same_address(&[1u8; 16], &[1u8; 16]));
    assert!(!same_address(&[1u8; 16], &[2u8; 16]));
    assert!(same_hash(&[1u8; 32], &[1u8; 32]));
    assert!(is_zero_hash(&[0u8; 32]));
    let mut almost = [0u8; 32];
    almost[31] = 1;
    assert!(!is_zero_hash(&almost));
    assert!(!same_hash(&almost, &[0u8; 32]));
    assert!(starts_with_zeros(&almost, 31));
    assert!(!starts_with_zeros(&almost, 32));
    assert!(!starts_with_zeros(&almost, 33));
    assert!(starts_with_zeros(&[1, 2], 0));
}

#[test]
fn errors_have_their_texts() {
    assert_eq!(ValidationError::InvalidDifficulty.message(), "Invalid difficulty");
    assert_eq!(ValidationError::InvalidReward.message(), "Invalid reward");
    assert_eq!(ValidationError::UnknownParent.message(), "Invalid prev_hash. Parent not found");
    assert_eq!(
        ValidationError::BadIndex { expected: 2, found: 30 }.message(),
        "Invalid index. Should be 2, but is 30"
    );
    assert_eq!(ValidationError::InsufficientWork.message(), "Invalid hash");
    assert_eq!(ValidationError::InvalidSignature.message(), "Invalid signature");
    assert_eq!(ValidationError::InsufficientBalance.message(), "Insufficient balance");
    assert_eq!(ValidationError::BadNonce.message(), "Invalid transaction index");
}

#[test]
fn peers_are_the_lines_that_are_not_empty() {
    let peers = zenchain::nodes::parse_nodes(b"localhost:8888\n\n10.0.0.2:9000\nlast");
    assert_eq!(peers, vec![b"localhost:8888".to_vec(), b"10.0.0.2:9000".to_vec(), b"last".to_vec()]);
    assert_eq!(zenchain::nodes::parse_nodes(b"a:1\n"), vec![b"a:1".to_vec()]);
    assert_eq!(zenchain::nodes::parse_nodes(b"\n\n"), Vec::<Vec<u8>>::new());
    assert_eq!(zenchain::nodes::parse_nodes(b""), Vec::<Vec<u8>>::new());
    assert_eq!(zenchain::nodes::parse_nodes(b" a :1 "), vec![b" a :1 ".to_vec()]);
}

#[test]
fn key_files_are_named_by_their_key() {
    assert_eq!(key_name(b"alice.sk"), Some(b"alice".to_vec()));
    assert_eq!(key_name(b"alice.pk"), None);
    assert_eq!(key_name(b"a.b.sk"), Some(b"a".to_vec()));
    assert_eq!(key_name(b"sk"), Some(b"sk".to_vec()));
    assert_eq!(key_name(b".sk"), Some(Vec::new()));
    assert_eq!(key_name(b"default"), None);
    assert_eq!(key_name(b"alice.sk."), None);
    assert_eq!(key_name(b"alice.skk"), None);
    assert_eq!(key_name(b"alice.s"), None);
    assert_eq!(key_name(b""), None);
}
