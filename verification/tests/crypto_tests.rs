use ledgerchain::block::Block;
use ledgerchain::hexcode::{hex_encode, hex_decode};
use ledgerchain::crypto::sha256;
use ledgerchain::transaction::Transaction;
use ledgerchain::wallet::{Wallet, decode_public_key, bytes_eq};
use ledgerchain::wire::{push_num, push_blob};
use ledgerchain::block::push_txs;
use sha2::Digest;

#[test]
fn hex_encoding_matches_the_hex_crate() {
    let data = vec![0x00u8, 0xde, 0xad, 0xbe, 0xef, 0x10];
    let ours = hex_encode(&data);
    assert_eq!(ours, b"00deadbeef10".to_vec());
    assert_eq!(ours, hex::encode(&data).into_bytes());
}

#[test]
fn hex_decoding_inverts_encoding() {
    assert_eq!(hex_decode(b"00ff10"), Some(vec![0x00, 0xff, 0x10]));
    assert_eq!(hex_decode(b"DEAD"), Some(vec![0xde, 0xad]));
    assert_eq!(hex_decode(b""), Some(Vec::new()));
    assert!(hex_decode(b"abc").is_none());
    assert!(hex_decode(b"zz").is_none());
    let data = vec![1u8, 2, 3, 4, 255];
    assert_eq!(hex_decode(&hex_encode(&data)), Some(data));
}

#[test]
fn sha256_matches_the_sha2_crate() {
    let digest = sha256(b"abc");
    assert_eq!(digest, sha2::Sha256::digest(b"abc").to_vec());
    assert_eq!(
        hex::encode(&digest),
        "ba7816bf8f01cfea414140de5dae2223b00361a396177a9cb410ff61f20015ad"
    );
}

#[test]
fn block_hash_agrees_with_the_outside_crates() {
    let block = Block::new(3, Vec::new(), vec![b'0'], 0);
    // rebuild the preimage with the library's own writers, then hash
    // it with the real crates
    let mut preimage: Vec<u8> = Vec::new();
    push_num(&mut preimage, block.index);
    push_blob(&mut preimage, &block.timestamp);
    push_txs(&mut preimage, &block.transactions);
    push_blob(&mut preimage, &block.previous_hash);
    push_num(&mut preimage, block.nonce);
    let expected = hex::encode(sha2::Sha256::digest(&preimage)).into_bytes();
    assert_eq!(block.calculate_hash(), expected);
    assert_eq!(block.hash, expected);
}

#[test]
fn created_transactions_verify_and_tampering_breaks_them() {
    let alice = Wallet::generate();
    let bob = Wallet::generate();
    let tx = Transaction::new(&alice.keypair, bob.keypair.public.clone(), 42);
    assert!(tx.is_valid());

    let mut wrong_amount = tx.clone();
    wrong_amount.amount = 43;
    assert!(!wrong_amount.is_valid());

    let mut wrong_receiver = tx.clone();
    wrong_receiver.to = alice.keypair.public.clone();
    assert!(!wrong_receiver.is_valid());

    let mut wrong_signature = tx.clone();
    wrong_signature.signature[0] ^= 0x01;
    assert!(!wrong_signature.is_valid());
}

#[test]
fn wallet_data_round_trip() {
    let w = Wallet::generate();
    let data = w.to_data();
    let back = Wallet::from_data(&data).expect("a saved wallet must load");
    assert_eq!(back.keypair.secret, w.keypair.secret);
    assert_eq!(back.keypair.public, w.keypair.public);

    let mut mismatched = w.to_data();
    mismatched.public[0] ^= 0x01;
    assert!(Wallet::from_data(&mismatched).is_none());

    let mut short = w.to_data();
    short.secret.pop();
    assert!(Wallet::from_data(&short).is_none());
}

#[test]
fn public_key_decoding() {
    let w = Wallet::generate();
    let ok = decode_public_key(w.keypair.public.clone());
    assert_eq!(ok, Some(w.keypair.public.clone()));
    assert!(decode_public_key(vec![0u8; 31]).is_none());
}

#[test]
fn public_hex_prints_the_key() {
    let w = Wallet::generate();
    assert_eq!(w.public_hex(), hex::encode(&w.keypair.public));
}

#[test]
fn byte_comparison() {
    assert!(bytes_eq(&vec![1, 2, 3], &vec![1, 2, 3]));
    assert!(!bytes_eq(&vec![1, 2, 3], &vec![1, 2, 4]));
    assert!(!bytes_eq(&vec![1, 2], &vec![1, 2, 3]));
}
