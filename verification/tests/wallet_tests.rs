use blocksmith::address::derive_address;
use blocksmith::wallet::Wallet;
use secp256k1::rand::TryRngCore;

#[test]
fn fresh_wallets_have_distinct_addresses() {
    let a = Wallet::generate_new();
    let b = Wallet::generate_new();
    assert!(!a.address().is_empty());
    assert_ne!(a.address(), b.address());
}

#[test]
fn wallet_address_is_cached_derivation() {
    let wallet = Wallet::generate_new();
    assert_eq!(wallet.address(), wallet.address());
}

#[test]
fn wallet_new_derives_address_from_public_key() {
    let mut rng = secp256k1::rand::rngs::OsRng.unwrap_err();
    let (private_key, public_key) = secp256k1::generate_keypair(&mut rng);
    let wallet = Wallet::new(public_key, private_key);
    let expected = derive_address(&public_key.serialize_uncompressed());
    assert_eq!(wallet.address(), expected);
    assert_eq!(Wallet::generate_address(public_key), expected);
}
