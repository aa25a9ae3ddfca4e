//! The address codec: derives a human-readable account identifier from a
//! public key through a fixed hash / checksum / encode pipeline.
//!
//! The pipeline, which must match bit for bit for interoperability:
//! SHA-256 of the serialized key, RIPEMD-160 of that digest, the testnet
//! version byte `0x6f` in front, the first four bytes of the double SHA-256
//! of the versioned bytes as checksum at the end, and Base58 over the whole
//! 25-byte payload.

use vstd::prelude::*;

use crate::codec::push_bytes;
use crate::crypto::{base58_encode, base58_of, ripemd160, ripemd160_of, sha256, sha256_of};

verus! {

/// The 25-byte payload that is Base58-encoded into an address: version byte,
/// RIPEMD-160-of-SHA-256 of the key, and a 4-byte double-SHA-256 checksum.
pub open spec fn address_payload(pk: Seq<u8>) -> Seq<u8> {
    let versioned = seq![0x6fu8] + ripemd160_of(sha256_of(pk));
    versioned + sha256_of(sha256_of(versioned)).take(4)
}

/// The address derived from serialized public-key bytes.
pub open spec fn spec_derive_address(pk: Seq<u8>) -> Seq<char> {
    base58_of(address_payload(pk))
}

/// Derive the account identifier for serialized public-key bytes. Pure and
/// deterministic: the same bytes always give the same address.
pub fn derive_address(public_key_bytes: &[u8]) -> (r: String)
    ensures
        r@ == spec_derive_address(public_key_bytes@),
{
    let h1 = sha256(public_key_bytes);
    let h2 = ripemd160(h1.as_slice());
    let mut versioned: Vec<u8> = Vec::new();
    versioned.push(0x6f);
    push_bytes(&mut versioned, h2.as_slice());
    proof {
        assert(versioned@ =~= seq![0x6fu8] + ripemd160_of(sha256_of(public_key_bytes@)));
    }
    let c1 = sha256(versioned.as_slice());
    let c2 = sha256(c1.as_slice());
    let mut payload = versioned;
    payload.push(c2[0]);
    payload.push(c2[1]);
    payload.push(c2[2]);
    payload.push(c2[3]);
    proof {
        assert(c2@.take(4) =~= seq![c2@[0], c2@[1], c2@[2], c2@[3]]);
        assert(payload@ =~= address_payload(public_key_bytes@));
    }
    base58_encode(payload.as_slice())
}

} // verus!
