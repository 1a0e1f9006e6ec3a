//! The identity layer: an Ed25519 keypair and the handshake message each
//! peer sends once, immediately after connecting. This exchange never
//! verifies the counterpart's handshake, so no verification path
//! exists here; hardening would add one around `handshake_message`'s
//! consumer without touching the wire format.

use vstd::prelude::*;
use ed25519_dalek::Signer;
use crate::codec::clone_bytes;
use crate::message::Message;

verus! {

#[verifier::external_type_specification]
#[verifier::external_body]
pub struct ExSigningKey(ed25519_dalek::SigningKey);

/// A network identity: an Ed25519 signing key together with its public
/// verification key, encoded as 32 bytes.
pub struct Identity {
    pub key: ed25519_dalek::SigningKey,
    pub public: Vec<u8>,
}

/// Relies on ed25519_dalek::SigningKey::generate with the operating system's
/// randomness source: a fresh signing key. Its value depends on that
/// randomness, so nothing is promised of it.
#[verifier::external_body]
fn generate_signing_key() -> (k: ed25519_dalek::SigningKey) {
    ed25519_dalek::SigningKey::generate(&mut rand::rngs::OsRng)
}

/// Relies on ed25519_dalek::VerifyingKey::{from, to_bytes}: the verification
/// key derived from a signing key, which Ed25519 encodes in exactly 32 bytes.
#[verifier::external_body]
fn verifying_key_bytes(key: &ed25519_dalek::SigningKey) -> (r: Vec<u8>)
    ensures
        r@.len() == 32,
{
    ed25519_dalek::VerifyingKey::from(key).to_bytes().to_vec()
}

/// Relies on ed25519_dalek::SigningKey::sign (through the Signer trait) and
/// Signature::to_bytes: an Ed25519 signature is exactly 64 bytes.
#[verifier::external_body]
fn sign_bytes(key: &ed25519_dalek::SigningKey, msg: &Vec<u8>) -> (r: Vec<u8>)
    ensures
        r@.len() == 64,
{
    key.sign(msg.as_slice()).to_bytes().to_vec()
}

impl Identity {
    /// Generates a fresh keypair, once per process run.
    pub fn new() -> (id: Identity)
        ensures
            id.public@.len() == 32,
    {
        let key = generate_signing_key();
        let public = verifying_key_bytes(&key);
        Identity { key, public }
    }

    /// Signs arbitrary bytes with this identity's key.
    pub fn sign(&self, msg: &Vec<u8>) -> (sig: Vec<u8>)
        ensures
            sig@.len() == 64,
    {
        sign_bytes(&self.key, msg)
    }
}

/// Byte `i` of the big-endian encoding of a 64-bit timestamp.
pub open spec fn be_byte(x: u64, i: int) -> u8 {
    (x >> (((7 - i) * 8) as u64)) as u8
}

/// The eight big-endian bytes of a timestamp: the payload the handshake
/// signature covers.
pub fn timestamp_bytes(ts: u64) -> (r: Vec<u8>)
    ensures
        r@.len() == 8,
        forall|i: int| 0 <= i < 8 ==> r@[i] == be_byte(ts, i),
{
    let mut r: Vec<u8> = Vec::new();
    let mut i: usize = 0;
    while i < 8
        invariant
            i <= 8,
            r@.len() == i,
            forall|j: int| 0 <= j < i ==> r@[j] == be_byte(ts, j),
        decreases 8 - i,
    {
        let shift: u64 = ((7 - i) * 8) as u64;
        r.push((ts >> shift) as u8);
        i += 1;
    }
    r
}

/// Builds the handshake message a peer sends exactly once, before any
/// payload message: its public key, a 64-byte signature over the fixed
/// timestamp's big-endian bytes, and that timestamp.
pub fn handshake_message(id: &Identity) -> (msg: Message)
    ensures
        (msg matches Message::Handshake { pubkey, sig, ts } && pubkey@ == id.public@
            && sig@.len() == 64 && ts == 1000),
{
    let ts: u64 = 1000;
    let payload = timestamp_bytes(ts);
    let sig = id.sign(&payload);
    let pubkey = clone_bytes(&id.public);
    Message::Handshake { pubkey, sig, ts }
}

} // verus!
