//! The wallet: a fresh public/private key pair and the account address
//! derived from the public key. It holds no chain state, and the private
//! key is never used by the ledger engine itself.

use secp256k1::rand::TryRngCore;
use vstd::prelude::*;

use crate::address::{derive_address, spec_derive_address};

verus! {

#[verifier::external_type_specification]
#[verifier::external_body]
pub struct ExPublicKey(secp256k1::PublicKey);

#[verifier::external_type_specification]
#[verifier::external_body]
pub struct ExSecretKey(secp256k1::SecretKey);

/// What a wallet's address claims: it is derived, through the codec
/// pipeline, from some uncompressed public-key serialization (65 bytes,
/// prefix byte 0x04).
pub open spec fn address_of_some_key(addr: Seq<char>) -> bool {
    exists|pk: Seq<u8>| pk.len() == 65 && pk[0] == 4u8 && addr == spec_derive_address(pk)
}

/// Relies on secp256k1::generate_keypair, fed from the operating system's
/// secure random source. Nothing is promised of the values; failure of the
/// entropy source is fatal.
#[verifier::external_body]
fn generate_keypair() -> (secp256k1::SecretKey, secp256k1::PublicKey) {
    let mut rng = secp256k1::rand::rngs::OsRng.unwrap_err();
    secp256k1::generate_keypair(&mut rng)
}

/// Relies on secp256k1::PublicKey::serialize_uncompressed: 65 bytes, the
/// prefix byte 0x04 followed by the X and Y coordinates.
#[verifier::external_body]
fn serialize_uncompressed_key(public_key: &secp256k1::PublicKey) -> (r: Vec<u8>)
    ensures
        r@.len() == 65,
        r@[0] == 4u8,
{
    public_key.serialize_uncompressed().to_vec()
}

/// A key pair with its derived, cached address.
pub struct Wallet {
    public_key: secp256k1::PublicKey,
    private_key: secp256k1::SecretKey,
    address: String,
}

impl View for Wallet {
    type V = Seq<char>;

    closed spec fn view(&self) -> Seq<char> {
        self.address@
    }
}

impl Wallet {
    /// Wrap an existing key pair, deriving and caching its address.
    pub fn new(public_key: secp256k1::PublicKey, private_key: secp256k1::SecretKey) -> (r: Wallet)
        ensures
            address_of_some_key(r@),
    {
        let address = Self::generate_address(public_key);
        Wallet { public_key, private_key, address }
    }

    /// The cached account address.
    pub fn address(&self) -> (r: String)
        ensures
            r@ == self@,
    {
        self.address.clone()
    }

    /// Draw a fresh key pair from the secure random source and derive its
    /// address.
    pub fn generate_new() -> (r: Wallet)
        ensures
            address_of_some_key(r@),
    {
        let (private_key, public_key) = generate_keypair();
        let address = Self::generate_address(public_key);
        Wallet { public_key, private_key, address }
    }

    /// The address of a given public key: the codec pipeline applied to the
    /// key's uncompressed serialization.
    pub fn generate_address(public_key: secp256k1::PublicKey) -> (r: String)
        ensures
            address_of_some_key(r@),
    {
        let bytes = serialize_uncompressed_key(&public_key);
        let address = derive_address(bytes.as_slice());
        proof {
            assert(bytes@.len() == 65 && bytes@[0] == 4u8 && address@ == spec_derive_address(
                bytes@,
            ));
        }
        address
    }
}

} // verus!
