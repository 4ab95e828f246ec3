//! Trusted boundary to the cryptographic collaborators: SHA-256
//! digests (sha2) and Ed25519 key handling, signing and verification
//! (ed25519-dalek, with rand's operating-system generator for keys).
//!
//! Digests, derived keys, signatures and verification verdicts are
//! functions of their byte inputs alone; each gets an uninterpreted
//! name here, and the rest of the crate reasons only through those
//! names.

use vstd::prelude::*;
use sha2::Digest;
use ed25519_dalek::Verifier;

verus! {

/// The SHA-256 digest of a byte string.
pub uninterp spec fn sha256_of(data: Seq<u8>) -> Seq<u8>;

/// The Ed25519 public key derived from a 32-byte secret key.
pub uninterp spec fn pk_of(secret: Seq<u8>) -> Seq<u8>;

/// The Ed25519 signature of a message under a 32-byte secret key.
pub uninterp spec fn sig_of(secret: Seq<u8>, msg: Seq<u8>) -> Seq<u8>;

/// Whether Ed25519 verification accepts `sig` on `msg` under the
/// public key bytes `public`.
pub uninterp spec fn sig_verifies(public: Seq<u8>, msg: Seq<u8>, sig: Seq<u8>) -> bool;

/// Whether 32 bytes decode to a valid Ed25519 public key point.
pub uninterp spec fn is_public_key(b: Seq<u8>) -> bool;

/// Relies on sha2::Sha256::digest: a 32-byte digest of the input
/// bytes alone.
#[verifier::external_body]
pub fn sha256(data: &[u8]) -> (r: Vec<u8>)
    ensures
        r@ == sha256_of(data@),
        r@.len() == 32,
{
    sha2::Sha256::digest(data).to_vec()
}

/// Relies on ed25519_dalek::ExpandedSecretKey::sign: a 64-byte
/// deterministic signature, and verification accepts it under the
/// public key derived from the same secret.
#[verifier::external_body]
pub fn sign_with_secret(secret: &[u8], msg: &[u8]) -> (r: Vec<u8>)
    requires
        secret@.len() == 32,
    ensures
        r@.len() == 64,
        r@ == sig_of(secret@, msg@),
        sig_verifies(pk_of(secret@), msg@, r@),
{
    let sk = ed25519_dalek::SecretKey::from_bytes(secret).unwrap();
    let pk = ed25519_dalek::PublicKey::from(&sk);
    let exp = ed25519_dalek::ExpandedSecretKey::from(&sk);
    exp.sign(msg, &pk).to_bytes().to_vec()
}

/// Relies on ed25519_dalek::PublicKey::from(&SecretKey): the public
/// key is a function of the 32 secret bytes alone.
#[verifier::external_body]
pub fn public_key_of(secret: &[u8]) -> (r: Vec<u8>)
    requires
        secret@.len() == 32,
    ensures
        r@.len() == 32,
        r@ == pk_of(secret@),
{
    let sk = ed25519_dalek::SecretKey::from_bytes(secret).unwrap();
    ed25519_dalek::PublicKey::from(&sk).to_bytes().to_vec()
}

/// Relies on ed25519_dalek::PublicKey::verify: a verdict that is a
/// function of the key, message and signature bytes; malformed key or
/// signature bytes are rejected.
#[verifier::external_body]
pub fn verify_bytes(public: &[u8], msg: &[u8], sig: &[u8]) -> (r: bool)
    ensures
        r == sig_verifies(public@, msg@, sig@),
{
    let pk = match ed25519_dalek::PublicKey::from_bytes(public) {
        Ok(p) => p,
        Err(_) => return false,
    };
    let s = match ed25519_dalek::Signature::try_from(sig) {
        Ok(s) => s,
        Err(_) => return false,
    };
    pk.verify(msg, &s).is_ok()
}

/// Relies on ed25519_dalek::PublicKey::from_bytes: succeeds exactly
/// on 32 bytes that decompress to a curve point.
#[verifier::external_body]
pub fn check_public_key(b: &[u8]) -> (r: bool)
    ensures
        r == is_public_key(b@),
{
    ed25519_dalek::PublicKey::from_bytes(b).is_ok()
}

/// Relies on ed25519_dalek::Keypair::generate: fresh 32-byte secret
/// key bytes whose public key is derived from them.
#[verifier::external_body]
pub fn generate_keypair() -> (r: (Vec<u8>, Vec<u8>))
    ensures
        r.0@.len() == 32,
        r.1@.len() == 32,
        r.1@ == pk_of(r.0@),
{
    let mut csprng = rand::rngs::OsRng {};
    let kp = ed25519_dalek::Keypair::generate(&mut csprng);
    (kp.secret.to_bytes().to_vec(), kp.public.to_bytes().to_vec())
}

/// Relies on chrono::Utc::now().to_rfc3339(): a textual timestamp;
/// nothing is promised of its value.
#[verifier::external_body]
pub fn current_timestamp() -> (r: Vec<u8>)
{
    chrono::Utc::now().to_rfc3339().into_bytes()
}

/// Relies on String::from_utf8: bytes below 128 decode to the
/// characters with the same code points.
#[verifier::external_body]
pub fn ascii_to_string(v: Vec<u8>) -> (s: String)
    requires
        forall|i: int| 0 <= i < v@.len() ==> v@[i] < 128,
    ensures
        s@ == v@.map_values(|b: u8| b as char),
{
    match String::from_utf8(v) {
        Ok(s) => s,
        Err(_) => String::new(),
    }
}

} // verus!
