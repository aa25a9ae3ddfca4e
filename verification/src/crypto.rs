//! Trusted bindings to the outside hash and encoding crates.
//!
//! Each digest is given a name rather than a definition: nothing in this
//! crate restates SHA-256, RIPEMD-160 or Base58; the named results are what
//! the contracts of the callers are phrased over.

use sha2::Digest;
use vstd::prelude::*;

verus! {

/// The SHA-256 digest of a byte sequence; a function of the input alone.
pub uninterp spec fn sha256_of(data: Seq<u8>) -> Seq<u8>;

/// The RIPEMD-160 digest of a byte sequence; a function of the input alone.
pub uninterp spec fn ripemd160_of(data: Seq<u8>) -> Seq<u8>;

/// The Base58 rendering (Bitcoin alphabet) of a byte sequence; a function of
/// the input alone.
pub uninterp spec fn base58_of(data: Seq<u8>) -> Seq<char>;

/// Relies on sha2::Sha256::digest: the digest depends on the input bytes
/// alone and is 32 bytes long.
#[verifier::external_body]
pub(crate) fn sha256(data: &[u8]) -> (r: Vec<u8>)
    ensures
        r@ == sha256_of(data@),
        r@.len() == 32,
{
    sha2::Sha256::digest(data).to_vec()
}

/// Relies on ripemd::Ripemd160::digest: the digest depends on the input
/// bytes alone and is 20 bytes long.
#[verifier::external_body]
pub(crate) fn ripemd160(data: &[u8]) -> (r: Vec<u8>)
    ensures
        r@ == ripemd160_of(data@),
        r@.len() == 20,
{
    ripemd::Ripemd160::digest(data).to_vec()
}

/// Relies on bs58::encode with its default (Bitcoin) alphabet: the rendering
/// depends on the input bytes alone.
#[verifier::external_body]
pub(crate) fn base58_encode(data: &[u8]) -> (r: String)
    ensures
        r@ == base58_of(data@),
{
    bs58::encode(data).into_string()
}

} // verus!
