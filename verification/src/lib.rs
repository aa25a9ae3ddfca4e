//! A single-node, in-memory append-only ledger secured by a proof-of-work
//! admission rule, plus an account model backed by public-key-derived
//! addresses.
//!
//! Transactions are pooled, a block is mined by searching for a nonce that
//! makes the block's content hash satisfy a difficulty target, and blocks are
//! validated against the chain's head before being appended.

pub mod address;
pub mod block;
pub mod chain;
pub mod codec;
pub mod crypto;
pub mod transaction;
pub mod wallet;

use vstd::prelude::*;

verus! {

/// Default number of leading zero hex digits demanded of a block hash.
pub const MINING_DIFFICULTY: usize = 4;

} // verus!
