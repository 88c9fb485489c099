//! Hashing, Base58 and Ed25519 primitives, named as functions of their inputs.
//!
//! Each primitive here is computed by its crate; what Verus knows of a result is
//! its name applied to the inputs, and the few facts below that the crates document.
use ed25519_dalek::{Signature, Signer, SigningKey, Verifier, VerifyingKey};
use rand::rngs::OsRng;
use sha2::{Digest, Sha256};
use crate::encoding::base58_text;
use vstd::prelude::*;

verus! {

/// The SHA-256 digest of a byte sequence.
pub uninterp spec fn sha256_digest(data: Seq<u8>) -> Seq<u8>;

/// The Ed25519 verifying key (compressed point) that belongs to a 32-byte secret key.
pub uninterp spec fn ed25519_public_key(secret: Seq<u8>) -> Seq<u8>;

/// The Ed25519 signature that a 32-byte secret key gives a message.
pub uninterp spec fn ed25519_signature(secret: Seq<u8>, message: Seq<u8>) -> Seq<u8>;

/// Whether 32 bytes decompress to a point of the curve, i.e. make a verifying key.
pub uninterp spec fn ed25519_key_decodes(public: Seq<u8>) -> bool;

/// Whether a verifying key accepts a 64-byte signature of a message.
pub uninterp spec fn ed25519_accepts(public: Seq<u8>, message: Seq<u8>, signature: Seq<u8>) -> bool;

/// `Sha256::new`, `update`, `finalize` from `sha2`: the digest of `data`, 32 bytes long.
#[verifier::external_body]
pub(crate) fn sha256(data: &[u8]) -> (res: Vec<u8>)
    ensures
        res@ == sha256_digest(data@),
        res@.len() == 32,
{
    let mut hasher = Sha256::new();
    hasher.update(data);
    hasher.finalize().to_vec()
}

/// `bs58::encode(..).into_string()`: the Base58 text of `data` in the Bitcoin
/// alphabet, as the crate's `encode_into` builds it: the base-58 digits of the
/// big-endian number, then a `1` for each leading zero byte, read back to front.
#[verifier::external_body]
pub(crate) fn base58_encode(data: &[u8]) -> (res: String)
    ensures
        res@ == base58_text(data@),
{
    bs58::encode(data).into_string()
}

/// `SigningKey::generate(&mut OsRng)` from `ed25519_dalek`, as its 32 secret bytes
/// (`to_bytes`). The bytes come from the operating system's random source, so
/// nothing is said of them but their number.
#[verifier::external_body]
pub(crate) fn random_secret_key() -> (res: Vec<u8>)
    ensures
        res@.len() == 32,
{
    SigningKey::generate(&mut OsRng).to_bytes().to_vec()
}

/// `SigningKey::from_bytes(..).verifying_key().to_bytes()`: the 32-byte verifying
/// key of a secret key. The crate documents that these bytes give back a verifying
/// key through `VerifyingKey::from_bytes`, which is what the last clause says.
#[verifier::external_body]
pub(crate) fn public_key_of(secret: &[u8]) -> (res: Vec<u8>)
    requires
        secret@.len() == 32,
    ensures
        res@ == ed25519_public_key(secret@),
        res@.len() == 32,
        ed25519_key_decodes(res@),
{
    let bytes: [u8; 32] = secret.try_into().unwrap();
    SigningKey::from_bytes(&bytes).verifying_key().to_bytes().to_vec()
}

/// `SigningKey::from_bytes(..).sign(message).to_bytes()`: the 64-byte Ed25519
/// signature. The crate documents that the key pair's verifying key accepts it
/// (`verify(message, &signature).is_ok()`), which is what the last clause says.
#[verifier::external_body]
pub(crate) fn sign_message(secret: &[u8], message: &[u8]) -> (res: Vec<u8>)
    requires
        secret@.len() == 32,
    ensures
        res@ == ed25519_signature(secret@, message@),
        res@.len() == 64,
        ed25519_accepts(ed25519_public_key(secret@), message@, res@),
{
    let bytes: [u8; 32] = secret.try_into().unwrap();
    SigningKey::from_bytes(&bytes).sign(message).to_bytes().to_vec()
}

/// `VerifyingKey::from_bytes(..).is_ok()`: whether 32 bytes make a verifying key.
#[verifier::external_body]
pub(crate) fn key_decodes(public: &[u8]) -> (res: bool)
    requires
        public@.len() == 32,
    ensures
        res == ed25519_key_decodes(public@),
{
    let bytes: [u8; 32] = public.try_into().unwrap();
    VerifyingKey::from_bytes(&bytes).is_ok()
}

/// `VerifyingKey::verify(message, &Signature::from_bytes(..)).is_ok()`: whether the
/// verifying key accepts the signature of the message.
#[verifier::external_body]
pub(crate) fn verify_message(public: &[u8], message: &[u8], signature: &[u8]) -> (res: bool)
    requires
        public@.len() == 32,
        ed25519_key_decodes(public@),
        signature@.len() == 64,
    ensures
        res == ed25519_accepts(public@, message@, signature@),
{
    let key: [u8; 32] = public.try_into().unwrap();
    let sig: [u8; 64] = signature.try_into().unwrap();
    let vk = VerifyingKey::from_bytes(&key).unwrap();
    vk.verify(message, &Signature::from_bytes(&sig)).is_ok()
}

} // verus!
