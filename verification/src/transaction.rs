//! Signed value-transfer records.
//!
//! A transaction binds a sender key, a receiver key and an amount
//! with an Ed25519 signature over the canonical message: sender
//! bytes, then receiver bytes, then the amount as eight big-endian
//! bytes.

use vstd::prelude::*;
use crate::crypto::{pk_of, sig_of, sig_verifies, sign_with_secret, verify_bytes};
use crate::wire::{enc_num, enc_blob, push_num, push_blob};

verus! {

/// An immutable value-transfer record. Keys and the signature are
/// raw Ed25519 bytes.
#[derive(Debug, Clone, PartialEq, Eq)]
pub struct Transaction {
    pub from: Vec<u8>,
    pub to: Vec<u8>,
    pub amount: u64,
    pub signature: Vec<u8>,
}

/// The mathematical content of a transaction.
pub struct TransactionView {
    pub from: Seq<u8>,
    pub to: Seq<u8>,
    pub amount: u64,
    pub signature: Seq<u8>,
}

impl View for Transaction {
    type V = TransactionView;

    open spec fn view(&self) -> TransactionView {
        TransactionView {
            from: self.from@,
            to: self.to@,
            amount: self.amount,
            signature: self.signature@,
        }
    }
}

impl DeepView for Transaction {
    type V = TransactionView;

    open spec fn deep_view(&self) -> TransactionView {
        self.view()
    }
}

/// The amount as eight big-endian bytes.
#[verifier::opaque]
pub open spec fn be_bytes_of(x: u64) -> Seq<u8> {
    seq![
        ((x as nat / 72057594037927936) % 256) as u8,
        ((x as nat / 281474976710656) % 256) as u8,
        ((x as nat / 1099511627776) % 256) as u8,
        ((x as nat / 4294967296) % 256) as u8,
        ((x as nat / 16777216) % 256) as u8,
        ((x as nat / 65536) % 256) as u8,
        ((x as nat / 256) % 256) as u8,
        (x as nat % 256) as u8,
    ]
}

/// The canonical message that is signed and verified.
pub open spec fn message_of(from: Seq<u8>, to: Seq<u8>, amount: u64) -> Seq<u8> {
    from + to + be_bytes_of(amount)
}

/// Shape of a transaction: Ed25519 key and signature lengths.
pub open spec fn tx_wf(t: TransactionView) -> bool {
    &&& t.from.len() == 32
    &&& t.to.len() == 32
    &&& t.signature.len() == 64
}

/// A transaction is valid when its signature verifies against its
/// sender key over the canonical message.
pub open spec fn tx_valid(t: TransactionView) -> bool {
    sig_verifies(t.from, message_of(t.from, t.to, t.amount), t.signature)
}

/// The wire text of one transaction: sender, receiver, amount,
/// signature.
pub open spec fn enc_tx(t: TransactionView) -> Seq<u8> {
    enc_blob(t.from) + enc_blob(t.to) + enc_num(t.amount as nat) + enc_blob(t.signature)
}

/// Builds the canonical message for the given fields.
pub fn message_bytes(from: &Vec<u8>, to: &Vec<u8>, amount: u64) -> (r: Vec<u8>)
    ensures
        r@ == message_of(from@, to@, amount),
{
    let mut m: Vec<u8> = Vec::new();
    let mut i: usize = 0;
    while i < from.len()
        invariant
            i <= from.len(),
            m@ == from@.take(i as int),
        decreases from.len() - i,
    {
        m.push(from[i]);
        i = i + 1;
    }
    assert(m@ =~= from@);
    let mut j: usize = 0;
    while j < to.len()
        invariant
            j <= to.len(),
            m@ == from@ + to@.take(j as int),
        decreases to.len() - j,
    {
        m.push(to[j]);
        j = j + 1;
        assert(m@ =~= from@ + to@.take(j as int));
    }
    m.push(((amount / 72057594037927936) % 256) as u8);
    m.push(((amount / 281474976710656) % 256) as u8);
    m.push(((amount / 1099511627776) % 256) as u8);
    m.push(((amount / 4294967296) % 256) as u8);
    m.push(((amount / 16777216) % 256) as u8);
    m.push(((amount / 65536) % 256) as u8);
    m.push(((amount / 256) % 256) as u8);
    m.push((amount % 256) as u8);
    proof {
        reveal(be_bytes_of);
        assert(m@ =~= message_of(from@, to@, amount));
    }
    m
}

impl Transaction {
    /// Builds a signed transaction from the sender's key pair. The
    /// result carries the sender's public key and always verifies.
    #[verifier::rlimit(60)]
    pub fn new(from: &crate::wallet::Keypair, to: Vec<u8>, amount: u64) -> (r: Transaction)
        requires
            from.wf(),
            to@.len() == 32,
        ensures
            r@.from == from.public@,
            r@.to == to@,
            r@.amount == amount,
            r@.signature == sig_of(from.secret@, message_of(from.public@, to@, amount)),
            tx_wf(r@),
            tx_valid(r@),
    {
        let message = message_bytes(&from.public, &to, amount);
        let signature = sign_with_secret(from.secret.as_slice(), message.as_slice());
        let sender = clone_bytes(&from.public);
        Transaction { from: sender, to, amount, signature }
    }

    /// Recomputes the canonical message from the record's own fields
    /// and checks the signature against the sender key.
    pub fn is_valid(&self) -> (r: bool)
        ensures
            r == tx_valid(self@),
    {
        let message = message_bytes(&self.from, &self.to, self.amount);
        verify_bytes(self.from.as_slice(), message.as_slice(), self.signature.as_slice())
    }

    /// Appends the wire text of this transaction.
    pub fn push_enc(&self, out: &mut Vec<u8>)
        ensures
            final(out)@ == old(out)@ + enc_tx(self@),
    {
        push_blob(out, &self.from);
        push_blob(out, &self.to);
        push_num(out, self.amount);
        push_blob(out, &self.signature);
        assert(out@ =~= old(out)@ + enc_tx(self@));
    }
}

/// Copies a byte vector.
pub fn clone_bytes(b: &Vec<u8>) -> (r: Vec<u8>)
    ensures
        r@ == b@,
{
    let mut m: Vec<u8> = Vec::new();
    let mut i: usize = 0;
    while i < b.len()
        invariant
            i <= b.len(),
            m@ == b@.take(i as int),
        decreases b.len() - i,
    {
        m.push(b[i]);
        i = i + 1;
    }
    assert(m@ =~= b@);
    m
}

} // verus!
