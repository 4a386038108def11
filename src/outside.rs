use vstd::prelude::*;
use sha2::Digest;
use rand::RngCore;
use ed25519_dalek::Signer;

verus! {

/// SHA-256 digest of a byte string.
pub uninterp spec fn sha256_of(data: Seq<u8>) -> Seq<u8>;

/// Ed25519 public key that belongs to a 32-byte secret key.
pub uninterp spec fn ed25519_public_of(secret: Seq<u8>) -> Seq<u8>;

/// Ed25519 signature of `message` made with a 32-byte secret key.
pub uninterp spec fn ed25519_signature_of(secret: Seq<u8>, message: Seq<u8>) -> Seq<u8>;

/// Whether `signature` is a valid strict Ed25519 signature of `message` under `public`.
pub uninterp spec fn ed25519_valid(public: Seq<u8>, message: Seq<u8>, signature: Seq<u8>) -> bool;

/// Relies on sha2::Sha256::digest: the 32-byte digest, a function of the input alone.
#[verifier::external_body]
pub(crate) fn sha256(data: &[u8]) -> (r: [u8; 32])
    ensures
        r@ == sha256_of(data@),
{
    sha2::Sha256::digest(data).into()
}

/// Relies on constant_time_eq::constant_time_eq: true exactly when both slices have
/// the same length and the same bytes, compared without an early exit.
#[verifier::external_body]
pub(crate) fn bytes_eq_ct(a: &[u8], b: &[u8]) -> (r: bool)
    ensures
        r == (a@ == b@),
{
    constant_time_eq::constant_time_eq(a, b)
}

/// Relies on rand::thread_rng and RngCore::fill_bytes: 32 bytes from the
/// process-wide random generator. Nothing is known of their value.
#[verifier::external_body]
pub(crate) fn random_bytes32() -> (r: [u8; 32]) {
    let mut out = [0u8; 32];
    rand::thread_rng().fill_bytes(&mut out);
    out
}

/// Relies on ed25519_dalek::SigningKey::from_bytes and SigningKey::verifying_key:
/// the public key of a secret key, a function of the secret alone.
#[verifier::external_body]
pub(crate) fn ed25519_public(secret: &[u8; 32]) -> (r: [u8; 32])
    ensures
        r@ == ed25519_public_of(secret@),
{
    ed25519_dalek::SigningKey::from_bytes(secret).verifying_key().to_bytes()
}

/// Relies on ed25519_dalek::SigningKey::sign: the deterministic 64-byte Ed25519
/// signature of a message.
#[verifier::external_body]
pub(crate) fn ed25519_sign(secret: &[u8; 32], message: &[u8]) -> (r: Vec<u8>)
    ensures
        r@ == ed25519_signature_of(secret@, message@),
        r@.len() == 64,
{
    ed25519_dalek::SigningKey::from_bytes(secret).sign(message).to_bytes().to_vec()
}

/// Relies on ed25519_dalek::VerifyingKey::from_bytes, ed25519::Signature::from_slice
/// and VerifyingKey::verify_strict: false where the key does not decode, the
/// signature is not 64 bytes, or it does not verify.
#[verifier::external_body]
pub(crate) fn ed25519_verify(public: &[u8; 32], message: &[u8], signature: &[u8]) -> (r: bool)
    ensures
        r == ed25519_valid(public@, message@, signature@),
{
    let Ok(key) = ed25519_dalek::VerifyingKey::from_bytes(public) else {
        return false;
    };
    let Ok(sig) = ed25519_dalek::Signature::from_slice(signature) else {
        return false;
    };
    key.verify_strict(message, &sig).is_ok()
}

} // verus!
