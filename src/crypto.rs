//! Hashing, key generation and the simulated signature scheme.
//!
//! A signature is 64 bytes: the first half is `H(message ‖ secret)`, the
//! second half is the signer's public key `H(secret)`. Verification only
//! checks that the embedded key is the expected owner's key; a real scheme
//! would replace these bodies behind the same interface.
use crate::bytes::{eq32, push_all};
use ring::rand::SecureRandom;
use vstd::prelude::*;

verus! {

/// A 256-bit content hash.
pub type Hash = [u8; 32];

/// A 32-byte public key.
pub type PublicKey = [u8; 32];

/// A 64-byte signature: proof (32 bytes) followed by the signer's public key.
pub type Signature = [u8; 64];

/// SHA-256 cannot digest inputs of `2^61` bytes or more (the bit length
/// would overflow 64 bits).
pub const HASH_INPUT_LIMIT: u64 = 0x2000_0000_0000_0000;

/// The SHA-256 digest of a byte string.
pub uninterp spec fn sha256(data: Seq<u8>) -> Seq<u8>;

/// The simulated signature of `msg` under `secret`.
pub open spec fn signature_of(msg: Seq<u8>, secret: Seq<u8>) -> Seq<u8> {
    sha256(msg + secret) + sha256(secret)
}

/// The signer's public key embedded in a signature.
pub open spec fn embedded_key(sig: Seq<u8>) -> Seq<u8> {
    sig.subrange(32, 64)
}

/// Relies on ring::digest::digest with SHA256: the 32-byte digest of `data`,
/// which depends on `data` alone. ring panics when the input length in bits
/// overflows 64 bits, hence the bound.
#[verifier::external_body]
pub fn hash_data(data: &[u8]) -> (r: Hash)
    requires
        data@.len() < HASH_INPUT_LIMIT,
    ensures
        r@ == sha256(data@),
{
    let digest = ring::digest::digest(&ring::digest::SHA256, data);
    let mut out = [0u8; 32];
    out.copy_from_slice(digest.as_ref());
    out
}

/// Relies on ring::rand::SystemRandom::fill: fills 32 bytes from the operating
/// system's generator, or fails.
#[verifier::external_body]
fn random_secret() -> (r: Option<Vec<u8>>)
    ensures
        r matches Some(s) ==> s@.len() == 32,
{
    let mut secret = vec![0u8; 32];
    match ring::rand::SystemRandom::new().fill(&mut secret) {
        Ok(()) => Some(secret),
        Err(_) => None,
    }
}

/// Draws a random 32-byte secret key and derives its public key `H(secret)`.
/// Returns `None` only when the system's random generator fails.
pub fn generate_keypair() -> (r: Option<(PublicKey, Vec<u8>)>)
    ensures
        r matches Some((public, secret)) ==> secret@.len() == 32 && public@ == sha256(secret@),
{
    match random_secret() {
        Some(secret) => {
            let public = hash_data(secret.as_slice());
            Some((public, secret))
        },
        None => None,
    }
}

/// Produces the simulated signature of `data` under `secret_key`.
pub fn sign_data(data: &[u8], secret_key: &[u8]) -> (r: Signature)
    requires
        data@.len() + secret_key@.len() < HASH_INPUT_LIMIT,
    ensures
        r@ == signature_of(data@, secret_key@),
{
    let mut content: Vec<u8> = Vec::new();
    push_all(&mut content, data);
    push_all(&mut content, secret_key);
    let proof_hash = hash_data(content.as_slice());
    let signer_key = hash_data(secret_key);
    let mut signature = [0u8; 64];
    let mut i: usize = 0;
    while i < 32
        invariant
            i <= 32,
            forall|j: int| 0 <= j < i ==> signature@[j] == proof_hash@[j],
            forall|j: int| 0 <= j < i ==> signature@[32 + j] == signer_key@[j],
        decreases 32 - i,
    {
        signature[i] = proof_hash[i];
        signature[32 + i] = signer_key[i];
        i = i + 1;
    }
    assert(signature@ =~= proof_hash@ + signer_key@);
    signature
}

/// Checks that the signature was made by the holder of `owner_public_key`:
/// true exactly when the embedded signer key equals the owner's key. The
/// simulated scheme has no relation between proof and message to check, so
/// `data` is not examined.
pub fn verify_signature(signature: &Signature, data: &[u8], owner_public_key: &PublicKey) -> (r:
    bool)
    ensures
        r == (embedded_key(signature@) == owner_public_key@),
{
    let mut signer: [u8; 32] = [0u8; 32];
    let mut i: usize = 0;
    while i < 32
        invariant
            i <= 32,
            forall|j: int| 0 <= j < i ==> signer@[j] == signature@[32 + j],
        decreases 32 - i,
    {
        signer[i] = signature[32 + i];
        i = i + 1;
    }
    assert(signer@ =~= embedded_key(signature@));
    eq32(&signer, owner_public_key)
}

} // verus!
