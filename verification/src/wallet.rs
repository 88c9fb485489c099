//! Ed25519 wallets: key pairs kept as hexadecimal text, short Base58 addresses,
//! signing of texts and checking of signatures.
use crate::crypto::{
    base58_encode, ed25519_accepts, ed25519_key_decodes, ed25519_public_key,
    ed25519_signature, key_decodes, public_key_of, random_secret_key, sha256, sha256_digest,
    sign_message, verify_message,
};
use crate::encoding::{
    base58_text, hex_decode, hex_decoding, hex_encode, hex_encoding, is_base58_char, is_lower_hex,
    lemma_base58_of_20_bytes, lemma_hex_encoding_shape, lemma_hex_round_trip, HexError,
};
use vstd::prelude::*;
use vstd::utf8::*;

verus! {

/// A wallet: its address, its verifying key and its secret key, the keys as hexadecimal text.
#[derive(Debug)]
pub struct Wallet {
    /// Base58 of the first 20 bytes of the SHA-256 digest of the verifying key.
    pub address: String,
    /// The 32-byte verifying key, hexadecimal.
    pub public_key: String,
    /// The 32-byte secret key, hexadecimal; keep it secret.
    pub private_key: String,
}

/// The texts of a wallet.
pub struct WalletView {
    pub address: Seq<char>,
    pub public_key: Seq<char>,
    pub private_key: Seq<char>,
}

impl View for Wallet {
    type V = WalletView;

    open spec fn view(&self) -> WalletView {
        WalletView {
            address: self.address@,
            public_key: self.public_key@,
            private_key: self.private_key@,
        }
    }
}

/// Why a hexadecimal private key gives no secret key.
#[derive(Debug, Clone, Copy, PartialEq, Eq)]
pub enum WalletError {
    /// The key is no hexadecimal text.
    InvalidHex(HexError),
    /// The key does not decode to exactly 32 bytes.
    InvalidKeyLength,
}

/// The address of a verifying key: Base58 of the first 20 bytes of its SHA-256 digest.
pub open spec fn address_of(public: Seq<u8>) -> Seq<char> {
    base58_text(sha256_digest(public).take(20))
}

/// The wallet of a 32-byte secret key, keys written as lower-case hexadecimal.
pub open spec fn wallet_of_secret(secret: Seq<u8>) -> WalletView {
    WalletView {
        address: address_of(ed25519_public_key(secret)),
        public_key: hex_encoding(ed25519_public_key(secret)),
        private_key: hex_encoding(secret),
    }
}

/// The secret key that a hexadecimal private key stands for, or why there is none.
pub open spec fn secret_key_of(private_key: Seq<char>) -> Result<Seq<u8>, WalletError> {
    match hex_decoding(encode_utf8(private_key)) {
        Err(e) => Err(WalletError::InvalidHex(e)),
        Ok(bytes) => if bytes.len() == 32 {
            Ok(bytes)
        } else {
            Err(WalletError::InvalidKeyLength)
        },
    }
}

/// The wallet restored from a hexadecimal private key, which it keeps as given.
pub open spec fn restored_wallet(private_key: Seq<char>) -> Result<WalletView, WalletError> {
    match secret_key_of(private_key) {
        Ok(secret) => Ok(
            WalletView {
                address: wallet_of_secret(secret).address,
                public_key: wallet_of_secret(secret).public_key,
                private_key,
            },
        ),
        Err(e) => Err(e),
    }
}

/// The hexadecimal signature that a private key gives the UTF-8 bytes of `data`.
pub open spec fn signature_of(private_key: Seq<char>, data: Seq<char>) -> Result<
    Seq<char>,
    WalletError,
> {
    match secret_key_of(private_key) {
        Ok(secret) => Ok(hex_encoding(ed25519_signature(secret, encode_utf8(data)))),
        Err(e) => Err(e),
    }
}

/// Whether a hexadecimal signature of `data` checks under a hexadecimal verifying key:
/// both decode, the key to 32 bytes that make a curve point, the signature to 64
/// bytes, and the key accepts the signature of the UTF-8 bytes of `data`.
pub open spec fn signature_valid(public_key: Seq<char>, data: Seq<char>, signature: Seq<char>) -> bool {
    match (hex_decoding(encode_utf8(public_key)), hex_decoding(encode_utf8(signature))) {
        (Ok(key), Ok(sig)) => {
            &&& key.len() == 32
            &&& ed25519_key_decodes(key)
            &&& sig.len() == 64
            &&& ed25519_accepts(key, encode_utf8(data), sig)
        },
        _ => false,
    }
}

/// A wallet whose private key decodes to a secret key and whose verifying key is,
/// in lower-case hexadecimal, the one that belongs to it.
pub open spec fn wallet_consistent(w: WalletView) -> bool {
    match secret_key_of(w.private_key) {
        Ok(secret) => w.public_key == hex_encoding(ed25519_public_key(secret)),
        Err(_) => false,
    }
}

/// A signature made by a secret key checks, in hexadecimal, under the hexadecimal
/// verifying key of that secret key, once the key decodes and accepts it.
pub proof fn lemma_signature_checks(secret: Seq<u8>, data: Seq<char>, sig: Seq<u8>)
    requires
        secret.len() == 32,
        ed25519_public_key(secret).len() == 32,
        ed25519_key_decodes(ed25519_public_key(secret)),
        sig.len() == 64,
        ed25519_accepts(ed25519_public_key(secret), encode_utf8(data), sig),
    ensures
        signature_valid(hex_encoding(ed25519_public_key(secret)), data, hex_encoding(sig)),
{
    lemma_hex_round_trip(ed25519_public_key(secret));
    lemma_hex_round_trip(sig);
}

/// Restoring a wallet from the private key that a fresh wallet shows gives that wallet back.
pub proof fn lemma_restore_round_trip(secret: Seq<u8>)
    requires
        secret.len() == 32,
    ensures
        restored_wallet(wallet_of_secret(secret).private_key) == Ok::<WalletView, WalletError>(
            wallet_of_secret(secret),
        ),
        wallet_consistent(wallet_of_secret(secret)),
{
    lemma_hex_round_trip(secret);
}

/// An address of 1 to 28 characters, all from the Base58 alphabet.
pub open spec fn address_well_shaped(address: Seq<char>) -> bool {
    &&& 1 <= address.len() <= 28
    &&& forall|i: int| 0 <= i < address.len() ==> is_base58_char(#[trigger] address[i])
}

/// Both keys are 64 lower-case hexadecimal digits (32 bytes each), and the address
/// is well shaped.
pub open spec fn keys_well_shaped(w: WalletView) -> bool {
    &&& address_well_shaped(w.address)
    &&& w.public_key.len() == 64
    &&& is_lower_hex(w.public_key)
    &&& w.private_key.len() == 64
    &&& is_lower_hex(w.private_key)
}

/// The short address of a verifying key.
fn derive_address(public: &[u8]) -> (res: String)
    ensures
        res@ == address_of(public@),
        address_well_shaped(res@),
{
    let digest = sha256(public);
    let (head, _) = digest.as_slice().split_at(20);
    assert(head@ =~= sha256_digest(public@).take(20));
    proof {
        lemma_base58_of_20_bytes(head@);
    }
    base58_encode(head)
}

/// The 32 bytes of a hexadecimal key, or why it has none.
fn decode_key(private_key: &str) -> (res: Result<Vec<u8>, WalletError>)
    ensures
        match res {
            Ok(v) => secret_key_of(private_key@) == Ok::<Seq<u8>, WalletError>(v@),
            Err(e) => secret_key_of(private_key@) == Err::<Seq<u8>, WalletError>(e),
        },
{
    match hex_decode(private_key) {
        Err(e) => Err(WalletError::InvalidHex(e)),
        Ok(bytes) => {
            if bytes.len() == 32 {
                Ok(bytes)
            } else {
                Err(WalletError::InvalidKeyLength)
            }
        },
    }
}

impl Wallet {
    /// Generates a fresh key pair from the operating system's random source.
    pub fn new() -> (res: Wallet)
        ensures
            exists|secret: Seq<u8>| secret.len() == 32 && res@ == wallet_of_secret(secret),
            wallet_consistent(res@),
            keys_well_shaped(res@),
    {
        let secret = random_secret_key();
        Wallet::from_secret_bytes(secret.as_slice())
    }

    /// The wallet of a 32-byte secret key.
    pub fn from_secret_bytes(secret: &[u8]) -> (res: Wallet)
        requires
            secret@.len() == 32,
        ensures
            res@ == wallet_of_secret(secret@),
            wallet_consistent(res@),
            keys_well_shaped(res@),
    {
        proof {
            lemma_restore_round_trip(secret@);
            lemma_hex_encoding_shape(secret@);
        }
        let public = public_key_of(secret);
        proof {
            lemma_hex_encoding_shape(public@);
        }
        let private_key = hex_encode(secret);
        let public_key = hex_encode(public.as_slice());
        let address = derive_address(public.as_slice());
        Wallet { address, public_key, private_key }
    }

    /// Restores a wallet from a hexadecimal private key of 32 bytes (digits of either case).
    pub fn from_private_key(hex_key: &str) -> (res: Result<Wallet, WalletError>)
        ensures
            match res {
                Ok(w) => restored_wallet(hex_key@) == Ok::<WalletView, WalletError>(w@),
                Err(e) => restored_wallet(hex_key@) == Err::<WalletView, WalletError>(e),
            },
            res matches Ok(w) ==> wallet_consistent(w@),
            res matches Ok(w) ==> w.public_key@.len() == 64 && is_lower_hex(w.public_key@)
                && address_well_shaped(w.address@),
    {
        let secret = decode_key(hex_key)?;
        let public = public_key_of(secret.as_slice());
        proof {
            lemma_hex_encoding_shape(public@);
        }
        Ok(
            Wallet {
                address: derive_address(public.as_slice()),
                public_key: hex_encode(public.as_slice()),
                private_key: String::from_str(hex_key),
            },
        )
    }

    /// Signs the UTF-8 bytes of `data`; the signature as hexadecimal text.
    pub fn sign(&self, data: &str) -> (res: Result<String, WalletError>)
        ensures
            match res {
                Ok(s) => signature_of(self.private_key@, data@) == Ok::<Seq<char>, WalletError>(
                    s@,
                ),
                Err(e) => signature_of(self.private_key@, data@) == Err::<Seq<char>, WalletError>(
                    e,
                ),
            },
            wallet_consistent(self@) ==> res is Ok,
            res matches Ok(s) ==> s@.len() == 128 && is_lower_hex(s@),
            res matches Ok(s) ==> (wallet_consistent(self@) ==> signature_valid(
                self.public_key@,
                data@,
                s@,
            )),
    {
        let secret = decode_key(self.private_key.as_str())?;
        let sig = sign_message(secret.as_slice(), data.as_bytes());
        // The verifying key is derived here only for the proof that the signature checks.
        let public = public_key_of(secret.as_slice());
        proof {
            lemma_signature_checks(secret@, data@, sig@);
            lemma_hex_encoding_shape(sig@);
        }
        Ok(hex_encode(sig.as_slice()))
    }
}

/// Checks that `signature_hex` is a signature of the UTF-8 bytes of `data` under
/// the verifying key `public_key_hex`; any text that does not decode is refused.
pub fn verify_signature(public_key_hex: &str, data: &str, signature_hex: &str) -> (res: bool)
    ensures
        res == signature_valid(public_key_hex@, data@, signature_hex@),
{
    let key = match hex_decode(public_key_hex) {
        Ok(k) => k,
        Err(_) => {
            return false;
        },
    };
    let sig = match hex_decode(signature_hex) {
        Ok(s) => s,
        Err(_) => {
            return false;
        },
    };
    if key.len() != 32 {
        return false;
    }
    if !key_decodes(key.as_slice()) {
        return false;
    }
    if sig.len() != 64 {
        return false;
    }
    verify_message(key.as_slice(), data.as_bytes(), sig.as_slice())
}

} // verus!
