use mini_web3::encoding::HexError;
use mini_web3::wallet::{verify_signature, Wallet, WalletError};
use sha2::{Digest, Sha256};

const SECRET_1: &str = "9d61b19deffd5a60ba844af492ec2cc44449c5697b326919703bac031cae7f60";
const PUBLIC_1: &str = "d75a980182b10ab7d54bfed3c964073a0ee172f3daa62325af021a68f707511a";
const SIG_1_EMPTY: &str = "e5564300c360ac729086e2cc806e828a84877f1eb8e5d974d873e065224901555fb8821590a33bacc61e39701cf9b46bd25bf5f0595bbe24655141438e7a100b";
const SECRET_2: &str = "4ccd089b28ff96da9db6c346ec114e0f5b8a319f35aba624da8cf6ed4fb8a6fb";
const PUBLIC_2: &str = "3d4017c3e843895a92b70aa74d1b7ebc9c982ccf2ec4968cc0cd55f12af4660c";
const SIG_2_R: &str = "92a009a9f0d4cab8720e820b5f642540a2b27b5416503f8fb3762223ebdb69da085ac1e43e15996e458f3613d0f11d8c387b2eaeb4302aeeb00d291612bb0c00";

fn expected_address(public_hex: &str) -> String {
    let mut h = Sha256::new();
    h.update(hex::decode(public_hex).unwrap());
    let digest = h.finalize();
    bs58::encode(&digest[..20]).into_string()
}

#[test]
fn restore_known_key_pair() {
    let w = Wallet::from_private_key(SECRET_1).unwrap();
    assert_eq!(w.public_key, PUBLIC_1);
    assert_eq!(w.private_key, SECRET_1);
    assert_eq!(w.address, expected_address(PUBLIC_1));
    let w2 = Wallet::from_private_key(SECRET_2).unwrap();
    assert_eq!(w2.public_key, PUBLIC_2);
}

#[test]
fn restore_keeps_the_given_text_and_accepts_upper_case() {
    let upper = SECRET_1.to_uppercase();
    let w = Wallet::from_private_key(&upper).unwrap();
    assert_eq!(w.private_key, upper);
    assert_eq!(w.public_key, PUBLIC_1);
}

#[test]
fn sign_gives_the_known_signatures() {
    let w = Wallet::from_private_key(SECRET_1).unwrap();
    assert_eq!(w.sign("").unwrap(), SIG_1_EMPTY);
    let w2 = Wallet::from_private_key(SECRET_2).unwrap();
    assert_eq!(w2.sign("r").unwrap(), SIG_2_R);
}

#[test]
fn known_signatures_verify() {
    assert!(verify_signature(PUBLIC_1, "", SIG_1_EMPTY));
    assert!(verify_signature(PUBLIC_2, "r", SIG_2_R));
    assert!(verify_signature(&PUBLIC_2.to_uppercase(), "r", &SIG_2_R.to_uppercase()));
    assert!(!verify_signature(PUBLIC_2, "s", SIG_2_R));
    assert!(!verify_signature(PUBLIC_1, "r", SIG_2_R));
}

#[test]
fn malformed_inputs_do_not_verify() {
    assert!(!verify_signature("zz", "r", SIG_2_R));
    assert!(!verify_signature(PUBLIC_2, "r", "abc"));
    assert!(!verify_signature(&PUBLIC_2[..62], "r", SIG_2_R));
    assert!(!verify_signature(PUBLIC_2, "r", &SIG_2_R[..126]));
    assert!(!verify_signature(PUBLIC_2, "r", &format!("{}00", SIG_2_R)));
    // 32 bytes that are no curve point
    let not_a_point = format!("02{}", "00".repeat(31));
    assert!(!verify_signature(&not_a_point, "r", SIG_2_R));
}

#[test]
fn fresh_wallet_signs_and_verifies() {
    let w = Wallet::new();
    assert_eq!(w.public_key.len(), 64);
    assert_eq!(w.private_key.len(), 64);
    assert_eq!(w.address, expected_address(&w.public_key));
    let msg = "alice-bob-10";
    let sig = w.sign(msg).unwrap();
    assert_eq!(sig.len(), 128);
    assert!(verify_signature(&w.public_key, msg, &sig));
    assert!(!verify_signature(&w.public_key, "alice-bob-11", &sig));
}

#[test]
fn fresh_wallets_differ() {
    let a = Wallet::new();
    let b = Wallet::new();
    assert_ne!(a.private_key, b.private_key);
    assert_ne!(a.address, b.address);
}

#[test]
fn restoring_a_fresh_wallet_gives_it_back() {
    let w = Wallet::new();
    let r = Wallet::from_private_key(&w.private_key).unwrap();
    assert_eq!(r.address, w.address);
    assert_eq!(r.public_key, w.public_key);
    assert_eq!(r.private_key, w.private_key);
}

#[test]
fn from_secret_bytes_matches_restore() {
    let bytes = hex::decode(SECRET_1).unwrap();
    let w = Wallet::from_secret_bytes(&bytes);
    assert_eq!(w.private_key, SECRET_1);
    assert_eq!(w.public_key, PUBLIC_1);
}

#[test]
fn bad_private_keys_are_refused() {
    assert_eq!(
        Wallet::from_private_key("abc").unwrap_err(),
        WalletError::InvalidHex(HexError::OddLength)
    );
    assert_eq!(
        Wallet::from_private_key("0g").unwrap_err(),
        WalletError::InvalidHex(HexError::InvalidHexCharacter { c: 'g', index: 1 })
    );
    assert_eq!(
        Wallet::from_private_key("zz00").unwrap_err(),
        WalletError::InvalidHex(HexError::InvalidHexCharacter { c: 'z', index: 0 })
    );
    assert_eq!(Wallet::from_private_key("00").unwrap_err(), WalletError::InvalidKeyLength);
    assert_eq!(Wallet::from_private_key("").unwrap_err(), WalletError::InvalidKeyLength);
    let long = format!("{}00", SECRET_1);
    assert_eq!(Wallet::from_private_key(&long).unwrap_err(), WalletError::InvalidKeyLength);
}

#[test]
fn signing_with_a_bad_key_fails() {
    let w = Wallet { address: String::new(), public_key: String::new(), private_key: "xy".to_string() };
    assert_eq!(
        w.sign("m").unwrap_err(),
        WalletError::InvalidHex(HexError::InvalidHexCharacter { c: 'x', index: 0 })
    );
    let short = Wallet { address: String::new(), public_key: String::new(), private_key: "0011".to_string() };
    assert_eq!(short.sign("m").unwrap_err(), WalletError::InvalidKeyLength);
}

#[test]
fn addresses_are_short_base58() {
    let alphabet = "123456789ABCDEFGHJKLMNPQRSTUVWXYZabcdefghijkmnopqrstuvwxyz";
    for _ in 0..20 {
        let w = Wallet::new();
        assert!(!w.address.is_empty() && w.address.len() <= 28);
        assert!(w.address.chars().all(|c| alphabet.contains(c)));
        assert!(w.public_key.chars().all(|c| c.is_ascii_digit() || ('a'..='f').contains(&c)));
    }
}
