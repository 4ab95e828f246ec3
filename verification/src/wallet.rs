//! Key pairs and wallets.
//!
//! A key pair holds the raw Ed25519 secret and public key bytes; its
//! well-formedness ties the public key to the secret. Reading and
//! writing wallet files is left to the caller; this module only
//! checks and converts the plain byte values.

use vstd::prelude::*;
use crate::crypto::{pk_of, is_public_key, generate_keypair, public_key_of, check_public_key};
use crate::transaction::clone_bytes;
use crate::hexcode::{hex_of, hex_encode};
use crate::crypto::ascii_to_string;

verus! {

/// An Ed25519 key pair as raw bytes.
#[derive(Debug, Clone)]
pub struct Keypair {
    pub secret: Vec<u8>,
    pub public: Vec<u8>,
}

impl Keypair {
    /// The public key is the one derived from the secret key.
    pub open spec fn wf(&self) -> bool {
        &&& self.secret@.len() == 32
        &&& self.public@.len() == 32
        &&& self.public@ == pk_of(self.secret@)
    }
}

/// The plain persisted form of a wallet: the two key byte strings.
pub struct WalletData {
    pub secret: Vec<u8>,
    pub public: Vec<u8>,
}

/// A wallet owns one key pair.
#[derive(Debug, Clone)]
pub struct Wallet {
    pub keypair: Keypair,
}

impl Wallet {
    /// Draws a fresh key pair.
    pub fn generate() -> (r: Wallet)
        ensures
            r.keypair.wf(),
    {
        let (secret, public) = generate_keypair();
        Wallet { keypair: Keypair { secret, public } }
    }

    /// The persisted form of this wallet.
    pub fn to_data(&self) -> (r: WalletData)
        ensures
            r.secret@ == self.keypair.secret@,
            r.public@ == self.keypair.public@,
    {
        WalletData {
            secret: clone_bytes(&self.keypair.secret),
            public: clone_bytes(&self.keypair.public),
        }
    }

    /// Rebuilds a wallet from its persisted form. Fails exactly when
    /// the secret key is not 32 bytes long or the stored public key
    /// is not the one the secret key derives.
    pub fn from_data(d: &WalletData) -> (r: Option<Wallet>)
        ensures
            r is Some <==> d.secret@.len() == 32 && d.public@ == pk_of(d.secret@),
            r is Some ==> r.unwrap().keypair.wf()
                && r.unwrap().keypair.secret@ == d.secret@
                && r.unwrap().keypair.public@ == d.public@,
    {
        if d.secret.len() != 32 {
            return None;
        }
        let derived = public_key_of(d.secret.as_slice());
        if !bytes_eq(&derived, &d.public) {
            return None;
        }
        Some(Wallet {
            keypair: Keypair {
                secret: clone_bytes(&d.secret),
                public: clone_bytes(&d.public),
            },
        })
    }

    /// The wallet's public key as lowercase hex text.
    pub fn public_hex(&self) -> (r: String)
        ensures
            r@ == hex_of(self.keypair.public@).map_values(|b: u8| b as char),
    {
        let h = hex_encode(self.keypair.public.as_slice());
        proof {
            crate::hexcode::lemma_hex_ascii(self.keypair.public@);
        }
        ascii_to_string(h)
    }
}

/// Accepts exactly the byte strings that decode to an Ed25519 public
/// key; returns them unchanged.
pub fn decode_public_key(b: Vec<u8>) -> (r: Option<Vec<u8>>)
    ensures
        r is Some <==> is_public_key(b@),
        r is Some ==> r.unwrap()@ == b@,
{
    if check_public_key(b.as_slice()) {
        Some(b)
    } else {
        None
    }
}

/// Whether two byte vectors hold the same bytes.
pub fn bytes_eq(a: &Vec<u8>, b: &Vec<u8>) -> (r: bool)
    ensures
        r == (a@ == b@),
{
    if a.len() != b.len() {
        return false;
    }
    let mut i: usize = 0;
    while i < a.len()
        invariant
            a@.len() == b@.len(),
            i <= a.len(),
            forall|j: int| 0 <= j < i ==> a@[j] == b@[j],
        decreases a.len() - i,
    {
        if a[i] != b[i] {
            return false;
        }
        i = i + 1;
    }
    proof {
        assert(a@ =~= b@);
    }
    true
}

} // verus!
