use ledgerchain::blockchain::Blockchain;
use ledgerchain::codec::{save_chain, load_chain};
use ledgerchain::transaction::Transaction;
use ledgerchain::wallet::Wallet;

fn sample_chain() -> Blockchain {
    let alice = Wallet::generate();
    let bob = Wallet::generate();
    let mut bc = Blockchain::new(1);
    let t1 = Transaction::new(&alice.keypair, bob.keypair.public.clone(), 100);
    let t2 = Transaction::new(&bob.keypair, alice.keypair.public.clone(), 0);
    bc.add_block(vec![t1, t2]);
    let t3 = Transaction::new(&alice.keypair, bob.keypair.public.clone(), u64::MAX);
    bc.add_block(vec![t3]);
    bc
}

#[test]
fn save_then_load_returns_the_same_chain() {
    let bc = sample_chain();
    let bytes = save_chain(&bc.chain);
    let loaded = load_chain(&bytes).expect("a saved chain must load");
    assert_eq!(loaded, bc.chain);
}

#[test]
fn round_trip_keeps_every_field() {
    let bc = sample_chain();
    let loaded = load_chain(&save_chain(&bc.chain)).unwrap();
    for (a, b) in bc.chain.iter().zip(loaded.iter()) {
        assert_eq!(a.index, b.index);
        assert_eq!(a.timestamp, b.timestamp);
        assert_eq!(a.previous_hash, b.previous_hash);
        assert_eq!(a.hash, b.hash);
        assert_eq!(a.nonce, b.nonce);
        assert_eq!(a.transactions, b.transactions);
    }
}

#[test]
fn loaded_chain_still_validates() {
    let bc = sample_chain();
    let loaded = load_chain(&save_chain(&bc.chain)).unwrap();
    let restored = Blockchain::from_blocks(loaded, bc.difficulty);
    assert!(restored.is_valid());
}

#[test]
fn garbage_input_loads_as_absent() {
    assert!(load_chain(&b"hello world".to_vec()).is_none());
    assert!(load_chain(&Vec::new()).is_none());
    assert!(load_chain(&vec![0xff, 0x00, 0x0a]).is_none());
}

#[test]
fn truncated_input_loads_as_absent() {
    let bc = sample_chain();
    let mut bytes = save_chain(&bc.chain);
    bytes.truncate(bytes.len() - 3);
    assert!(load_chain(&bytes).is_none());
}

#[test]
fn trailing_bytes_load_as_absent() {
    let bc = sample_chain();
    let mut bytes = save_chain(&bc.chain);
    bytes.push(b'x');
    assert!(load_chain(&bytes).is_none());
}

#[test]
fn corrupted_key_text_is_a_hard_failure() {
    let alice = Wallet::generate();
    let bob = Wallet::generate();
    let mut bc = Blockchain::new(1);
    let t = Transaction::new(&alice.keypair, bob.keypair.public.clone(), 7);
    bc.add_block(vec![t]);

    let mut bytes = save_chain(&bc.chain);
    let needle = hex::encode(&alice.keypair.public).into_bytes();
    let at = bytes
        .windows(needle.len())
        .position(|w| w == needle.as_slice())
        .expect("the sender key appears in the persisted text");
    // a non-hex byte inside the key text makes the record unreadable
    bytes[at] = b'g';
    assert!(load_chain(&bytes).is_none());
}

#[test]
fn round_trip_law_function() {
    let bc = sample_chain();
    let loaded = ledgerchain::codec::saved_chain_loads_back(&bc.chain).unwrap();
    assert_eq!(loaded, bc.chain);
}
