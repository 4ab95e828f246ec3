use ledgerchain::block::Block;
use ledgerchain::blockchain::Blockchain;
use ledgerchain::transaction::Transaction;
use ledgerchain::wallet::Wallet;

fn leading_zeros(hash: &[u8]) -> usize {
    hash.iter().take_while(|&&b| b == b'0').count()
}

#[test]
fn mine_seals_and_recomputes() {
    let block = Block::new(0, Vec::new(), vec![b'0'], 2);
    assert!(leading_zeros(&block.hash) >= 2);
    assert_eq!(block.calculate_hash(), block.hash);
}

#[test]
fn mine_difficulty_zero_is_consistent() {
    let block = Block::new(7, Vec::new(), vec![b'0'], 0);
    assert_eq!(block.calculate_hash(), block.hash);
    assert_eq!(block.index, 7);
}

#[test]
fn genesis_chain_is_valid_and_empty() {
    let bc = Blockchain::new(1);
    assert_eq!(bc.chain.len(), 1);
    assert_eq!(bc.chain[0].index, 0);
    assert_eq!(bc.chain[0].previous_hash, vec![b'0']);
    assert!(bc.chain[0].transactions.is_empty());
    assert!(bc.is_valid());
}

#[test]
fn balances_follow_the_ledger() {
    let alice = Wallet::generate();
    let bob = Wallet::generate();
    let carol = Wallet::generate();
    let a = alice.keypair.public.clone();
    let b = bob.keypair.public.clone();
    let c = carol.keypair.public.clone();

    let mut bc = Blockchain::new(1);
    // genesis only: everyone is at zero
    assert_eq!(bc.get_balance(&a), 0);
    assert_eq!(bc.get_balance(&b), 0);

    let t1 = Transaction::new(&alice.keypair, b.clone(), 100);
    bc.add_block(vec![t1]);
    assert_eq!(bc.get_balance(&b), 100);
    // Alice went to -100, reported clamped at zero
    assert_eq!(bc.get_balance(&a), 0);

    let t2 = Transaction::new(&bob.keypair, c.clone(), 50);
    bc.add_block(vec![t2]);
    assert_eq!(bc.get_balance(&b), 50);
    assert_eq!(bc.get_balance(&c), 50);
    assert!(bc.is_valid());
}

#[test]
fn tampered_amount_is_detected() {
    let alice = Wallet::generate();
    let bob = Wallet::generate();
    let mut bc = Blockchain::new(1);
    let t = Transaction::new(&alice.keypair, bob.keypair.public.clone(), 100);
    bc.add_block(vec![t]);
    assert!(bc.is_valid());

    bc.chain[1].transactions[0].amount = 999;
    assert!(!bc.is_valid());
}

#[test]
fn tampered_hash_is_detected() {
    let alice = Wallet::generate();
    let bob = Wallet::generate();
    let mut bc = Blockchain::new(1);
    let t = Transaction::new(&alice.keypair, bob.keypair.public.clone(), 5);
    bc.add_block(vec![t]);
    assert!(bc.is_valid());

    let mut tampered = bc.clone();
    let last = tampered.chain[1].hash.len() - 1;
    tampered.chain[1].hash[last] ^= 0x01;
    assert!(!tampered.is_valid());

    let mut linked = bc.clone();
    let last = linked.chain[1].previous_hash.len() - 1;
    linked.chain[1].previous_hash[last] ^= 0x01;
    assert!(!linked.is_valid());
}

#[test]
fn appended_garbage_signature_fails_audit() {
    let alice = Wallet::generate();
    let bob = Wallet::generate();
    let mut bc = Blockchain::new(1);
    let forged = Transaction {
        from: alice.keypair.public.clone(),
        to: bob.keypair.public.clone(),
        amount: 10,
        signature: vec![0u8; 64],
    };
    assert!(!forged.is_valid());
    // append commits without auditing; validation catches it
    bc.add_block(vec![forged]);
    assert!(!bc.is_valid());
}

#[test]
fn repeated_appends_stay_valid() {
    let alice = Wallet::generate();
    let bob = Wallet::generate();
    let mut bc = Blockchain::new(1);
    for k in 0..4u64 {
        let t = Transaction::new(&alice.keypair, bob.keypair.public.clone(), k);
        bc.add_block(vec![t]);
    }
    assert_eq!(bc.chain.len(), 5);
    for (i, block) in bc.chain.iter().enumerate() {
        assert_eq!(block.index, i as u64);
    }
    assert!(bc.is_valid());
}
