//! The blockchain: the append-only block sequence, the pending-transaction
//! pool, the proof-of-work search, block validation, and balances.
//!
//! There is one blockchain instance per node, driven by a single writer at a
//! time. `verify_and_add_block` is the single gate through which the chain is
//! ever extended.

use vstd::prelude::*;
use vstd::string::StringExecFns;

use crate::block::{
    block_hash_hex, genesis_view, with_nonce, Block, BlockError, BlockView,
};
use crate::codec::hex64;
use crate::crypto::sha256;
use crate::transaction::{views_of, Transaction, TransactionView};

verus! {

/// The reward credited to the node's own address by each successful `mine`.
pub const MINING_REWARD: i64 = 10;

/// Errors of chain operations: one closed variant per named failure reason,
/// so callers can branch on the kind rather than parse text.
#[derive(Debug, PartialEq, Eq, Structural)]
pub enum ChainError {
    /// The candidate's timestamp lies before the head's or after the clock's
    /// "now" at verification time.
    InvalidTimestamp,
    /// The candidate does not name the hash of the current chain head.
    PreviousHashMismatch,
    /// The candidate's hash does not meet the difficulty target.
    InvalidProof,
    /// Canonical serialization failed while hashing. The serializer of this
    /// crate is total, so the variant is never produced here.
    SerializeError,
    /// A block lookup was attempted on an empty chain.
    RetrieveBlockError,
}

impl From<BlockError> for ChainError {
    fn from(e: BlockError) -> (r: Self) {
        match e {
            BlockError::SerializeError => ChainError::SerializeError,
        }
    }
}

impl vstd::std_specs::convert::FromSpecImpl<BlockError> for ChainError {
    open spec fn obeys_from_spec() -> bool {
        true
    }

    open spec fn from_spec(e: BlockError) -> Self {
        ChainError::SerializeError
    }
}

/// The views of a sequence of blocks, in order.
pub open spec fn block_views(bs: Seq<Block>) -> Seq<BlockView> {
    Seq::new(bs.len(), |i: int| bs[i]@)
}

/// The mathematical content of a blockchain: the reward address, the
/// confirmed chain, the pending pool, and the difficulty.
pub ghost struct BlockchainView {
    pub address: Seq<char>,
    pub chain: Seq<BlockView>,
    pub mempool: Seq<TransactionView>,
    pub difficulty: nat,
}

/// Whether a block's hash has at least `d` leading zero hex digits: the
/// proof-of-work admission rule. Unsatisfiable beyond the 64 digits a
/// SHA-256 hash has.
pub open spec fn meets_difficulty(b: BlockView, d: nat) -> bool {
    d <= 64 && forall|i: int| 0 <= i < d ==> block_hash_hex(b)[i] == '0'
}

/// Every non-genesis block names the hash of the block standing right before
/// it: the chain is linked by value.
pub open spec fn chain_linked(chain: Seq<BlockView>) -> bool {
    forall|i: int|
        1 <= i < chain.len() ==> chain[i].previous_hash == block_hash_hex(
            chain[i - 1],
        )
}

/// The mining reward record: the fixed `Network` source pays the node's own
/// address.
pub open spec fn reward_view(addr: Seq<char>) -> TransactionView {
    TransactionView { sender: "Network"@, recipient: addr, value: MINING_REWARD as int }
}

/// No nonce of the whole space yields a hash that meets the target, for a
/// candidate assembled from the given timestamp, head hash and batch. Only
/// in this border case may the proof-of-work search fail.
pub open spec fn nonce_space_exhausted(
    ts: int,
    prev: Seq<char>,
    txs: Seq<TransactionView>,
    d: nat,
) -> bool {
    forall|n: int|
        0 <= n <= i64::MAX ==> !meets_difficulty(
            with_nonce(
                BlockView { timestamp: ts, nonce: 0, previous_hash: prev, transactions: txs },
                n,
            ),
            d,
        )
}

/// The verdict of block validation against a chain state at clock reading
/// `now`, in the checking order: a head must exist; the timestamp may lie
/// neither before the head's nor after `now`; the candidate must name the
/// head's hash; the candidate's own hash must meet the difficulty target.
pub open spec fn spec_verify_block(v: BlockchainView, b: BlockView, now: int) -> Result<
    (),
    ChainError,
> {
    if v.chain.len() == 0 {
        Err(ChainError::RetrieveBlockError)
    } else if !(v.chain.last().timestamp <= b.timestamp && b.timestamp <= now) {
        Err(ChainError::InvalidTimestamp)
    } else if b.previous_hash != block_hash_hex(v.chain.last()) {
        Err(ChainError::PreviousHashMismatch)
    } else if !meets_difficulty(b, v.difficulty) {
        Err(ChainError::InvalidProof)
    } else {
        Ok(())
    }
}

/// What one transaction does to one address's balance: the value comes in
/// where the address receives and goes out where it pays.
pub open spec fn tx_delta(t: TransactionView, addr: Seq<char>) -> int {
    (if t.recipient == addr {
        t.value
    } else {
        0
    }) - (if t.sender == addr {
        t.value
    } else {
        0
    })
}

/// The balance an address draws from a sequence of transactions.
pub open spec fn txs_balance(ts: Seq<TransactionView>, addr: Seq<char>) -> int
    decreases ts.len(),
{
    if ts.len() == 0 {
        0
    } else {
        txs_balance(ts.drop_last(), addr) + tx_delta(ts.last(), addr)
    }
}

/// The balance an address draws from every transaction of every confirmed
/// block, in chain order.
pub open spec fn chain_balance(chain: Seq<BlockView>, addr: Seq<char>) -> int
    decreases chain.len(),
{
    if chain.len() == 0 {
        0
    } else {
        chain_balance(chain.drop_last(), addr) + txs_balance(chain.last().transactions, addr)
    }
}

/// How many transactions the confirmed chain holds in all.
pub open spec fn chain_tx_count(chain: Seq<BlockView>) -> nat
    decreases chain.len(),
{
    if chain.len() == 0 {
        0
    } else {
        chain_tx_count(chain.drop_last()) + chain.last().transactions.len()
    }
}

fn sat_add(a: i128, b: i128) -> (r: i128)
    ensures
        i128::MIN <= a + b <= i128::MAX ==> r == a + b,
        a + b > i128::MAX ==> r == i128::MAX,
        a + b < i128::MIN ==> r == i128::MIN,
{
    if b >= 0 {
        if a > i128::MAX - b {
            i128::MAX
        } else {
            a + b
        }
    } else {
        if a < i128::MIN - b {
            i128::MIN
        } else {
            a + b
        }
    }
}

/// There should be only one blockchain instance per node.
#[derive(Debug)]
pub struct Blockchain {
    address: String,
    chain: Vec<Block>,
    mempool: Vec<Transaction>,
    difficulty: usize,
}

impl View for Blockchain {
    type V = BlockchainView;

    closed spec fn view(&self) -> BlockchainView {
        BlockchainView {
            address: self.address@,
            chain: block_views(self.chain@),
            mempool: views_of(self.mempool@),
            difficulty: self.difficulty as nat,
        }
    }
}

impl Blockchain {
    /// The standing invariant: the chain is never empty, opens with the
    /// genesis block, and every later block names its predecessor's hash.
    pub open spec fn wf(&self) -> bool {
        &&& self@.chain.len() >= 1
        &&& self@.chain[0] == genesis_view()
        &&& chain_linked(self@.chain)
    }

    /// A fresh chain holding only the genesis block, with an empty pool.
    pub fn new(address: String, difficulty: usize) -> (r: Blockchain)
        ensures
            r@.address == address@,
            r@.chain == seq![genesis_view()],
            r@.mempool == Seq::<TransactionView>::empty(),
            r@.difficulty == difficulty as nat,
            r.wf(),
    {
        let mut chain: Vec<Block> = Vec::new();
        chain.push(Block::genesis());
        let r = Blockchain { address, chain, mempool: Vec::new(), difficulty };
        proof {
            assert(r@.chain =~= seq![genesis_view()]);
            assert(r@.mempool =~= Seq::<TransactionView>::empty());
        }
        r
    }

    /// A copy of the pending pool.
    pub fn mempool(&self) -> (r: Vec<Transaction>)
        ensures
            views_of(r@) == self@.mempool,
    {
        let mut out: Vec<Transaction> = Vec::new();
        let n: usize = self.mempool.len();
        let mut i: usize = 0;
        while i < n
            invariant
                i <= n,
                n == self.mempool@.len(),
                out@ =~= self.mempool@.take(i as int),
            decreases n - i,
        {
            out.push(self.mempool[i].clone());
            proof {
                assert(out@ =~= self.mempool@.take(i + 1));
            }
            i = i + 1;
        }
        proof {
            assert(out@ =~= self.mempool@);
            assert(views_of(out@) =~= self@.mempool);
        }
        out
    }

    /// A copy of the confirmed chain.
    pub fn chain(&self) -> (r: Vec<Block>)
        ensures
            block_views(r@) == self@.chain,
    {
        let mut out: Vec<Block> = Vec::new();
        let n: usize = self.chain.len();
        let mut i: usize = 0;
        while i < n
            invariant
                i <= n,
                n == self.chain@.len(),
                out@.len() == i,
                forall|j: int| 0 <= j < i ==> out@[j]@ == self.chain@[j]@,
            decreases n - i,
        {
            out.push(self.chain[i].clone());
            i = i + 1;
        }
        proof {
            assert(block_views(out@) =~= self@.chain);
        }
        out
    }

    /// The chain head. Fails only on an empty chain, which the invariant
    /// rules out.
    pub fn last_block(&self) -> (r: Result<&Block, ChainError>)
        ensures
            self@.chain.len() > 0 ==> (r matches Ok(b) && b@ == self@.chain.last()),
            self@.chain.len() == 0 ==> (r matches Err(e) && e == ChainError::RetrieveBlockError),
    {
        let n: usize = self.chain.len();
        if n == 0 {
            Err(ChainError::RetrieveBlockError)
        } else {
            Ok(&self.chain[n - 1])
        }
    }

    /// The node's own reward address.
    pub fn address(&self) -> (r: String)
        ensures
            r@ == self@.address,
    {
        self.address.clone()
    }

    /// Append a transaction to the pending pool. No balance check happens
    /// here: balances are meaningful only after confirmation, and
    /// double-spends inside one mempool window are deliberately not
    /// prevented.
    pub fn add_transaction(&mut self, sender_address: &str, recipient_address: &str, value: i64)
        ensures
            final(self)@.mempool == old(self)@.mempool.push(
                (TransactionView {
                    sender: sender_address@,
                    recipient: recipient_address@,
                    value: value as int,
                }),
            ),
            final(self)@.chain == old(self)@.chain,
            final(self)@.address == old(self)@.address,
            final(self)@.difficulty == old(self)@.difficulty,
    {
        let t = Transaction::new(
            sender_address.to_owned(),
            recipient_address.to_owned(),
            value,
        );
        let ghost tv = t@;
        self.mempool.push(t);
        proof {
            assert(self@.mempool =~= old(self)@.mempool.push(tv));
            assert(self@.chain =~= old(self)@.chain);
        }
    }

    /// The balance of an address over the confirmed chain only: each
    /// transaction subtracts its value where the address pays and adds it
    /// where the address receives. Computed from scratch on each call, with
    /// saturating 128-bit arithmetic; the result is exact for every chain
    /// whose transaction count stays below 2^62.
    pub fn get_balance(&self, address: &str) -> (r: i128)
        ensures
            chain_tx_count(self@.chain) < 0x4000000000000000 ==> r == chain_balance(
                self@.chain,
                address@,
            ),
    {
        let addr: String = address.to_owned();
        let mut balance: i128 = 0;
        let nb: usize = self.chain.len();
        let ghost cviews = self@.chain;
        let ghost total: nat = chain_tx_count(cviews);
        let ghost kmax: int = 0x8000000000000000;
        let mut b: usize = 0;
        while b < nb
            invariant
                b <= nb,
                nb == self.chain@.len(),
                cviews == block_views(self.chain@),
                total == chain_tx_count(cviews),
                kmax == 0x8000000000000000,
                addr@ == address@,
                total < 0x4000000000000000 ==> {
                    &&& balance == chain_balance(cviews.take(b as int), address@)
                    &&& chain_tx_count(cviews.take(b as int)) <= total
                    &&& balance <= 2 * chain_tx_count(cviews.take(b as int)) * kmax
                    &&& -balance <= 2 * chain_tx_count(cviews.take(b as int)) * kmax
                },
            decreases nb - b,
        {
            proof {
                lemma_chain_tx_count_take(cviews, b as int);
            }
            let txs = self.chain[b].transactions();
            let nt: usize = txs.len();
            let ghost tviews = cviews[b as int].transactions;
            proof {
                assert(views_of(txs@) == tviews);
            }
            let mut t: usize = 0;
            while t < nt
                invariant
                    t <= nt,
                    nt == txs@.len(),
                    views_of(txs@) == tviews,
                    total == chain_tx_count(cviews),
                    kmax == 0x8000000000000000,
                    addr@ == address@,
                    chain_tx_count(cviews.take(b as int)) + tviews.len() <= chain_tx_count(cviews),
                    total < 0x4000000000000000 ==> {
                        &&& balance == chain_balance(cviews.take(b as int), address@)
                            + txs_balance(tviews.take(t as int), address@)
                        &&& balance <= 2 * (chain_tx_count(cviews.take(b as int)) + t) * kmax
                        &&& -balance <= 2 * (chain_tx_count(cviews.take(b as int)) + t) * kmax
                    },
                decreases nt - t,
            {
                let tx = &txs[t];
                proof {
                    assert(tx@ == tviews[t as int]);
                }
                let v: i128 = tx.value() as i128;
                let ghost c: int = chain_tx_count(cviews.take(b as int)) as int;
                let ghost balance0: int = balance as int;
                proof {
                    if total < 0x4000000000000000 {
                        assert(c + t + 1 <= total);
                        assert(2 * (c + t) * kmax + 2 * kmax == 2 * ((c + t) + 1) * kmax)
                            by (nonlinear_arith);
                        assert(2 * (c + t + 1) * kmax <= 2 * (total as int) * kmax)
                            by (nonlinear_arith)
                            requires
                                0 <= c + t + 1 <= total,
                                kmax > 0,
                        ;
                        assert(2 * (total as int) * kmax + 2 * kmax <= i128::MAX)
                            by (nonlinear_arith)
                            requires
                                0 <= total < 0x4000000000000000,
                                kmax == 0x8000000000000000,
                        ;
                    }
                }
                if tx.sender_address() == addr {
                    balance = sat_add(balance, -v);
                }
                if tx.recipient_address() == addr {
                    balance = sat_add(balance, v);
                }
                proof {
                    assert(tviews.take(t as int).push(tviews[t as int]) =~= tviews.take(t + 1));
                    lemma_txs_balance_push(tviews.take(t as int), tviews[t as int], address@);
                    if total < 0x4000000000000000 {
                        assert(balance == balance0 + tx_delta(tviews[t as int], address@));
                        assert(balance <= 2 * (c + t + 1) * kmax);
                        assert(-balance <= 2 * (c + t + 1) * kmax);
                    }
                }
                t = t + 1;
            }
            proof {
                assert(tviews.take(nt as int) =~= tviews);
                assert(cviews.take(b as int).push(cviews[b as int]) =~= cviews.take(b + 1));
                lemma_chain_balance_push(cviews.take(b as int), cviews[b as int], address@);
                lemma_chain_tx_count_push(cviews.take(b as int), cviews[b as int]);
            }
            b = b + 1;
        }
        proof {
            assert(cviews.take(nb as int) =~= cviews);
        }
        balance
    }
}

fn check_pow(digest: &Vec<u8>, difficulty: usize) -> (r: bool)
    requires
        digest@.len() == 32,
    ensures
        r == (difficulty as nat <= 64 && forall|i: int|
            0 <= i < difficulty ==> hex64(digest@)[i] == '0'),
{
    if difficulty > 64 {
        return false;
    }
    let mut i: usize = 0;
    while i < difficulty
        invariant
            i <= difficulty,
            difficulty <= 64,
            digest@.len() == 32,
            forall|j: int| 0 <= j < i ==> hex64(digest@)[j] == '0',
        decreases difficulty - i,
    {
        let byte = digest[i / 2];
        let nib = if i % 2 == 0 {
            byte / 16
        } else {
            byte % 16
        };
        proof {
            assert(nib == crate::codec::nibble(digest@, i as int));
            assert(hex64(digest@)[i as int] == crate::codec::hex_digit(nib));
        }
        if nib != 0 {
            proof {
                assert(crate::codec::hex_digit(nib) != '0');
            }
            return false;
        }
        proof {
            assert(crate::codec::hex_digit(0u8) == '0');
        }
        i = i + 1;
    }
    true
}

impl Blockchain {
    /// Recompute a candidate's hash and hold it to the difficulty target.
    fn valid_proof(block: &Block, difficulty: usize) -> (r: Result<(), ChainError>)
        ensures
            meets_difficulty(block@, difficulty as nat) ==> r == Ok::<(), ChainError>(()),
            !meets_difficulty(block@, difficulty as nat) ==> r == Err::<(), ChainError>(
                ChainError::InvalidProof,
            ),
    {
        let bytes = block.serialize();
        let digest = sha256(bytes.as_slice());
        proof {
            assert(hex64(digest@) == block_hash_hex(block@));
        }
        if check_pow(&digest, difficulty) {
            Ok(())
        } else {
            Err(ChainError::InvalidProof)
        }
    }

    /// Hold a candidate block to the validation rule at the clock's current
    /// reading: the verdict is `spec_verify_block` for the drawn "now". The
    /// chain is read, never changed.
    fn verify_block(&self, block: &Block) -> (r: Result<(), ChainError>)
        ensures
            exists|now: int| r == spec_verify_block(self@, block@, now),
            r is Ok ==> self@.chain.len() > 0 && block@.previous_hash == block_hash_hex(
                self@.chain.last(),
            ) && meets_difficulty(block@, self@.difficulty),
    {
        let prev = match self.last_block() {
            Ok(p) => p,
            Err(e) => {
                proof {
                    assert(Err::<(), ChainError>(e) == spec_verify_block(self@, block@, 0));
                }
                return Err(e);
            },
        };
        let now = Block::generate_timestamp();
        if !(prev.timestamp() <= block.timestamp() && block.timestamp() <= now) {
            proof {
                assert(Err::<(), ChainError>(ChainError::InvalidTimestamp) == spec_verify_block(
                    self@,
                    block@,
                    now as int,
                ));
            }
            return Err(ChainError::InvalidTimestamp);
        }
        let prev_hash = match prev.hash() {
            Ok(h) => h,
            Err(_) => {
                proof {
                    assert(false);
                }
                return Err(ChainError::SerializeError);
            },
        };
        let bph = block.previous_hash();
        if !(bph == prev_hash) {
            proof {
                assert(Err::<(), ChainError>(ChainError::PreviousHashMismatch)
                    == spec_verify_block(self@, block@, now as int));
            }
            return Err(ChainError::PreviousHashMismatch);
        }
        let r = Self::valid_proof(block, self.difficulty);
        proof {
            assert(self@.chain.len() > 0);
            assert(prev@ == self@.chain.last());
            assert(self@.chain.last().timestamp <= block@.timestamp && block@.timestamp
                <= now as int);
            assert(block@.previous_hash == block_hash_hex(self@.chain.last()));
            assert(r == spec_verify_block(self@, block@, now as int));
        }
        r
    }

    /// The single authoritative gate for chain growth: validate, and only on
    /// success append the candidate and clear the pool. On any failure the
    /// chain and the pool stand untouched.
    pub fn verify_and_add_block(&mut self, block: Block) -> (r: Result<&Block, ChainError>)
        ensures
            r is Ok ==> {
                &&& final(self)@.chain == old(self)@.chain.push(block@)
                &&& final(self)@.mempool == Seq::<TransactionView>::empty()
                &&& final(self)@.address == old(self)@.address
                &&& final(self)@.difficulty == old(self)@.difficulty
                &&& exists|now: int| spec_verify_block(old(self)@, block@, now) is Ok
            },
            r matches Ok(b) ==> b@ == block@,
            r matches Err(e) ==> *final(self) == *old(self) && (exists|now: int|
                spec_verify_block(old(self)@, block@, now) == Err::<(), ChainError>(e)),
            old(self).wf() ==> final(self).wf(),
    {
        match self.verify_block(&block) {
            Ok(_) => {},
            Err(e) => {
                return Err(e);
            },
        }
        let ghost oldview = self@;
        self.chain.push(block);
        self.mempool.clear();
        proof {
            assert(self@.chain =~= oldview.chain.push(self.chain@.last()@));
            assert(self@.mempool =~= Seq::<TransactionView>::empty());
            if old(self).wf() {
                assert forall|i: int| 1 <= i < self@.chain.len() implies self@.chain[i].previous_hash
                    == block_hash_hex(self@.chain[i - 1]) by {
                    if i < self@.chain.len() - 1 {
                        assert(oldview.chain[i].previous_hash == block_hash_hex(
                            oldview.chain[i - 1],
                        ));
                    }
                }
            }
        }
        let n: usize = self.chain.len();
        Ok(&self.chain[n - 1])
    }

    /// Brute-force the smallest nonce, from 0 upward, whose block hash meets
    /// the target. Unbounded search: for a positive difficulty its running
    /// time is unbounded, and it fails only in the border case that not one
    /// nonce of the whole space satisfies the target.
    fn pow_search(
        timestamp: i64,
        transactions: Vec<Transaction>,
        previous_hash: String,
        difficulty: usize,
    ) -> (r: Result<Block, ChainError>)
        ensures
            ({
                let base = BlockView {
                    timestamp: timestamp as int,
                    nonce: 0,
                    previous_hash: previous_hash@,
                    transactions: views_of(transactions@),
                };
                &&& (r matches Ok(b) ==> {
                    &&& b@ == with_nonce(base, b@.nonce)
                    &&& 0 <= b@.nonce <= i64::MAX
                    &&& meets_difficulty(b@, difficulty as nat)
                    &&& forall|n: int|
                        0 <= n < b@.nonce ==> !meets_difficulty(
                            with_nonce(base, n),
                            difficulty as nat,
                        )
                })
                &&& (r matches Err(e) ==> {
                    &&& e == ChainError::InvalidProof
                    &&& forall|n: int|
                        0 <= n <= i64::MAX ==> !meets_difficulty(
                            with_nonce(base, n),
                            difficulty as nat,
                        )
                })
            }),
    {
        let mut block = Block::new(timestamp, transactions, 0, previous_hash);
        let ghost base = block@;
        loop
            invariant
                block@ == with_nonce(base, block@.nonce),
                0 <= block@.nonce <= i64::MAX,
                base == (BlockView {
                    timestamp: timestamp as int,
                    nonce: 0,
                    previous_hash: previous_hash@,
                    transactions: views_of(transactions@),
                }),
                forall|n: int|
                    0 <= n < block@.nonce ==> !meets_difficulty(
                        with_nonce(base, n),
                        difficulty as nat,
                    ),
            decreases i64::MAX - block@.nonce,
        {
            let bytes = block.serialize();
            let digest = sha256(bytes.as_slice());
            proof {
                assert(hex64(digest@) == block_hash_hex(block@));
            }
            if check_pow(&digest, difficulty) {
                return Ok(block);
            }
            proof {
                assert(!meets_difficulty(with_nonce(base, block@.nonce), difficulty as nat));
            }
            if block.nonce() == i64::MAX {
                return Err(ChainError::InvalidProof);
            }
            block.increment_nonce();
        }
    }

    /// Assemble a candidate from the pool and the head's hash and search for
    /// the smallest nonce that meets the target (the first testable
    /// property: at least `difficulty` leading zero hex digits, reached by a
    /// monotonic linear search that skips nothing).
    pub fn proof_of_work(&self) -> (r: Result<Block, ChainError>)
        ensures
            r matches Ok(b) ==> {
                &&& b@.previous_hash == block_hash_hex(self@.chain.last())
                &&& b@.transactions == self@.mempool
                &&& 0 <= b@.nonce
                &&& meets_difficulty(b@, self@.difficulty)
                &&& forall|n: int|
                    0 <= n < b@.nonce ==> !meets_difficulty(with_nonce(b@, n), self@.difficulty)
            },
            r matches Err(e) ==> (e == ChainError::RetrieveBlockError || e
                == ChainError::InvalidProof),
            r matches Err(e) ==> (e == ChainError::RetrieveBlockError <==> self@.chain.len() == 0),
            r matches Err(e) ==> (e == ChainError::InvalidProof ==> exists|ts: int|
                nonce_space_exhausted(
                    ts,
                    block_hash_hex(self@.chain.last()),
                    self@.mempool,
                    self@.difficulty,
                )),
    {
        let last = match self.last_block() {
            Ok(b) => b,
            Err(e) => {
                return Err(e);
            },
        };
        let previous_hash = match last.hash() {
            Ok(h) => h,
            Err(_) => {
                proof {
                    assert(false);
                }
                return Err(ChainError::SerializeError);
            },
        };
        let transactions = self.mempool();
        let timestamp = Block::generate_timestamp();
        let r = Self::pow_search(timestamp, transactions, previous_hash, self.difficulty);
        proof {
            match &r {
                Ok(b) => {
                    assert forall|n: int| 0 <= n < b@.nonce implies !meets_difficulty(
                        with_nonce(b@, n),
                        self@.difficulty,
                    ) by {
                        assert(with_nonce(b@, n) == with_nonce(
                            BlockView {
                                timestamp: timestamp as int,
                                nonce: 0,
                                previous_hash: previous_hash@,
                                transactions: views_of(transactions@),
                            },
                            n,
                        ));
                    }
                },
                Err(_) => {
                    assert(nonce_space_exhausted(
                        timestamp as int,
                        block_hash_hex(self@.chain.last()),
                        self@.mempool,
                        self@.difficulty,
                    )) by {
                        assert(previous_hash@ == block_hash_hex(self@.chain.last()));
                        assert(views_of(transactions@) == self@.mempool);
                    }
                },
            }
        }
        r
    }

    /// Fold the mining reward into the pool's contents, search for a proof
    /// of work over that batch, and pass the candidate through the
    /// validation gate. On success the pool is empty and the chain grew by
    /// exactly one block; on any failure neither is touched.
    pub fn mine(&mut self) -> (r: Result<&Block, ChainError>)
        ensures
            r matches Ok(b) ==> {
                &&& final(self)@.chain == old(self)@.chain.push(b@)
                &&& final(self)@.mempool == Seq::<TransactionView>::empty()
                &&& final(self)@.address == old(self)@.address
                &&& final(self)@.difficulty == old(self)@.difficulty
                &&& b@.transactions == old(self)@.mempool.push(reward_view(old(self)@.address))
                &&& b@.previous_hash == block_hash_hex(old(self)@.chain.last())
                &&& meets_difficulty(b@, old(self)@.difficulty)
                &&& 0 <= b@.nonce
                &&& forall|n: int|
                    0 <= n < b@.nonce ==> !meets_difficulty(with_nonce(b@, n), old(
                        self,
                    )@.difficulty)
            },
            r is Err ==> *final(self) == *old(self),
            r matches Err(e) ==> (e == ChainError::InvalidTimestamp || e == ChainError::InvalidProof
                || e == ChainError::RetrieveBlockError),
            r matches Err(e) ==> (e == ChainError::RetrieveBlockError <==> old(self)@.chain.len()
                == 0),
            r matches Err(e) ==> (e == ChainError::InvalidProof ==> exists|ts: int|
                nonce_space_exhausted(
                    ts,
                    block_hash_hex(old(self)@.chain.last()),
                    old(self)@.mempool.push(reward_view(old(self)@.address)),
                    old(self)@.difficulty,
                )),
            old(self).wf() ==> final(self).wf(),
    {
        let last_hash = match self.last_block() {
            Ok(b) => match b.hash() {
                Ok(h) => h,
                Err(_) => {
                    proof {
                        assert(false);
                    }
                    return Err(ChainError::SerializeError);
                },
            },
            Err(e) => {
                return Err(e);
            },
        };
        let mut txs = self.mempool();
        let reward = Transaction::new("Network".to_owned(), self.address.clone(), MINING_REWARD);
        let ghost rv = reward@;
        txs.push(reward);
        proof {
            assert(views_of(txs@) =~= self@.mempool.push(rv));
        }
        let timestamp = Block::generate_timestamp();
        let block = match Self::pow_search(timestamp, txs, last_hash, self.difficulty) {
            Ok(b) => b,
            Err(e) => {
                proof {
                    assert(nonce_space_exhausted(
                        timestamp as int,
                        block_hash_hex(old(self)@.chain.last()),
                        old(self)@.mempool.push(reward_view(old(self)@.address)),
                        old(self)@.difficulty,
                    )) by {
                        assert(last_hash@ == block_hash_hex(old(self)@.chain.last()));
                        assert(views_of(txs@) == old(self)@.mempool.push(reward_view(
                            old(self)@.address,
                        )));
                    }
                }
                return Err(e);
            },
        };
        proof {
            assert forall|n: int| 0 <= n < block@.nonce implies !meets_difficulty(
                with_nonce(block@, n),
                self@.difficulty,
            ) by {
                assert(with_nonce(block@, n) == with_nonce(
                    BlockView {
                        timestamp: timestamp as int,
                        nonce: 0,
                        previous_hash: last_hash@,
                        transactions: views_of(txs@),
                    },
                    n,
                ));
            }
        }
        self.verify_and_add_block(block)
    }
}

proof fn lemma_txs_balance_push(ts: Seq<TransactionView>, t: TransactionView, addr: Seq<char>)
    ensures
        txs_balance(ts.push(t), addr) == txs_balance(ts, addr) + tx_delta(t, addr),
{
    assert(ts.push(t).drop_last() =~= ts);
    assert(ts.push(t).last() == t);
}

proof fn lemma_chain_balance_push(ch: Seq<BlockView>, b: BlockView, addr: Seq<char>)
    ensures
        chain_balance(ch.push(b), addr) == chain_balance(ch, addr) + txs_balance(
            b.transactions,
            addr,
        ),
{
    assert(ch.push(b).drop_last() =~= ch);
    assert(ch.push(b).last() == b);
}

proof fn lemma_chain_tx_count_push(ch: Seq<BlockView>, b: BlockView)
    ensures
        chain_tx_count(ch.push(b)) == chain_tx_count(ch) + b.transactions.len(),
{
    assert(ch.push(b).drop_last() =~= ch);
    assert(ch.push(b).last() == b);
}

/// A copy of the genesis block never passes validation on a fresh chain,
/// whatever the clock says and whatever the difficulty: its timestamp equals
/// the head's, so the timestamp rule can pass, but its empty previous-hash
/// differs from every 64-digit head hash. `verify_and_add_block` therefore
/// rejects it and leaves chain and mempool untouched.
pub proof fn lemma_genesis_copy_rejected(v: BlockchainView, now: int)
    requires
        v.chain == seq![genesis_view()],
    ensures
        spec_verify_block(v, genesis_view(), now) is Err,
{
    assert(v.chain.last() == genesis_view());
    assert(block_hash_hex(genesis_view()).len() == 64);
    assert(genesis_view().previous_hash.len() == 0);
}

/// The sum of `f` over a list of addresses.
pub open spec fn sum_over(addrs: Seq<Seq<char>>, f: spec_fn(Seq<char>) -> int) -> int
    decreases addrs.len(),
{
    if addrs.len() == 0 {
        0
    } else {
        sum_over(addrs.drop_last(), f) + f(addrs.last())
    }
}

/// The balances of a list of addresses over a chain, summed.
pub open spec fn sum_balances(addrs: Seq<Seq<char>>, ch: Seq<BlockView>) -> int {
    sum_over(addrs, |a: Seq<char>| chain_balance(ch, a))
}

/// Every sender and recipient of the batch stands in `addrs`.
pub open spec fn participants_in(ts: Seq<TransactionView>, addrs: Seq<Seq<char>>) -> bool {
    forall|i: int|
        0 <= i < ts.len() ==> addrs.contains(#[trigger] ts[i].sender) && addrs.contains(
            ts[i].recipient,
        )
}

/// Every sender and recipient of every confirmed transaction stands in
/// `addrs`.
pub open spec fn chain_participants_in(ch: Seq<BlockView>, addrs: Seq<Seq<char>>) -> bool {
    forall|i: int| 0 <= i < ch.len() ==> participants_in(#[trigger] ch[i].transactions, addrs)
}

proof fn lemma_sum_zero(addrs: Seq<Seq<char>>, f: spec_fn(Seq<char>) -> int)
    requires
        forall|i: int| 0 <= i < addrs.len() ==> f(#[trigger] addrs[i]) == 0,
    ensures
        sum_over(addrs, f) == 0,
    decreases addrs.len(),
{
    if addrs.len() > 0 {
        lemma_sum_zero(addrs.drop_last(), f);
    }
}

proof fn lemma_sum_linear(
    addrs: Seq<Seq<char>>,
    f: spec_fn(Seq<char>) -> int,
    g: spec_fn(Seq<char>) -> int,
    h: spec_fn(Seq<char>) -> int,
)
    requires
        forall|a: Seq<char>| #[trigger] h(a) == f(a) + g(a),
    ensures
        sum_over(addrs, h) == sum_over(addrs, f) + sum_over(addrs, g),
    decreases addrs.len(),
{
    if addrs.len() > 0 {
        lemma_sum_linear(addrs.drop_last(), f, g, h);
    }
}

proof fn lemma_sum_indicator(
    addrs: Seq<Seq<char>>,
    f: spec_fn(Seq<char>) -> int,
    x: Seq<char>,
    v: int,
)
    requires
        addrs.no_duplicates(),
        addrs.contains(x),
        forall|a: Seq<char>| #[trigger] f(a) == (if a == x {
            v
        } else {
            0
        }),
    ensures
        sum_over(addrs, f) == v,
    decreases addrs.len(),
{
    if addrs.last() == x {
        assert forall|i: int| 0 <= i < addrs.drop_last().len() implies f(
            #[trigger] addrs.drop_last()[i],
        ) == 0 by {
            assert(addrs[i] != addrs[addrs.len() - 1]);
        }
        lemma_sum_zero(addrs.drop_last(), f);
    } else {
        let j = choose|j: int| 0 <= j < addrs.len() && addrs[j] == x;
        assert(addrs.drop_last()[j] == x);
        assert(addrs.drop_last().contains(x));
        assert(addrs.drop_last().no_duplicates());
        lemma_sum_indicator(addrs.drop_last(), f, x, v);
    }
}

proof fn lemma_sum_tx_delta_zero(addrs: Seq<Seq<char>>, t: TransactionView)
    requires
        addrs.no_duplicates(),
        addrs.contains(t.sender),
        addrs.contains(t.recipient),
    ensures
        sum_over(addrs, |a: Seq<char>| tx_delta(t, a)) == 0,
{
    let d = |a: Seq<char>| tx_delta(t, a);
    if t.sender == t.recipient {
        assert forall|i: int| 0 <= i < addrs.len() implies d(#[trigger] addrs[i]) == 0 by {
            assert(tx_delta(t, addrs[i]) == 0);
        }
        lemma_sum_zero(addrs, d);
    } else {
        let fin = |a: Seq<char>|
            if a == t.recipient {
                t.value
            } else {
                0
            };
        let fout = |a: Seq<char>|
            if a == t.sender {
                -t.value
            } else {
                0
            };
        assert(forall|a: Seq<char>| #[trigger] d(a) == fin(a) + fout(a));
        lemma_sum_linear(addrs, fin, fout, d);
        lemma_sum_indicator(addrs, fin, t.recipient, t.value);
        lemma_sum_indicator(addrs, fout, t.sender, -t.value);
    }
}

proof fn lemma_sum_txs_balance_zero(addrs: Seq<Seq<char>>, ts: Seq<TransactionView>)
    requires
        addrs.no_duplicates(),
        participants_in(ts, addrs),
    ensures
        sum_over(addrs, |a: Seq<char>| txs_balance(ts, a)) == 0,
    decreases ts.len(),
{
    let h = |a: Seq<char>| txs_balance(ts, a);
    if ts.len() == 0 {
        assert(forall|i: int| 0 <= i < addrs.len() ==> h(#[trigger] addrs[i]) == 0);
        lemma_sum_zero(addrs, h);
    } else {
        let f = |a: Seq<char>| txs_balance(ts.drop_last(), a);
        let g = |a: Seq<char>| tx_delta(ts.last(), a);
        assert(forall|a: Seq<char>| #[trigger] h(a) == f(a) + g(a));
        lemma_sum_linear(addrs, f, g, h);
        assert(participants_in(ts.drop_last(), addrs)) by {
            assert(forall|i: int|
                0 <= i < ts.drop_last().len() ==> #[trigger] ts.drop_last()[i] == ts[i]);
        }
        lemma_sum_txs_balance_zero(addrs, ts.drop_last());
        assert(addrs.contains(ts.last().sender) && addrs.contains(ts.last().recipient)) by {
            assert(ts[ts.len() - 1] == ts.last());
        }
        lemma_sum_tx_delta_zero(addrs, ts.last());
    }
}

/// Conservation of value: over any duplicate-free list of addresses that
/// includes every sender and every recipient appearing in the confirmed
/// chain, the balances sum to zero — each transaction moves value, none
/// makes or destroys it.
pub proof fn lemma_balance_conservation(ch: Seq<BlockView>, addrs: Seq<Seq<char>>)
    requires
        addrs.no_duplicates(),
        chain_participants_in(ch, addrs),
    ensures
        sum_balances(addrs, ch) == 0,
    decreases ch.len(),
{
    let h = |a: Seq<char>| chain_balance(ch, a);
    if ch.len() == 0 {
        assert(forall|i: int| 0 <= i < addrs.len() ==> h(#[trigger] addrs[i]) == 0);
        lemma_sum_zero(addrs, h);
    } else {
        let f = |a: Seq<char>| chain_balance(ch.drop_last(), a);
        let g = |a: Seq<char>| txs_balance(ch.last().transactions, a);
        assert(forall|a: Seq<char>| #[trigger] h(a) == f(a) + g(a));
        lemma_sum_linear(addrs, f, g, h);
        assert(chain_participants_in(ch.drop_last(), addrs)) by {
            assert(forall|i: int|
                0 <= i < ch.drop_last().len() ==> #[trigger] ch.drop_last()[i] == ch[i]);
        }
        lemma_balance_conservation(ch.drop_last(), addrs);
        assert(participants_in(ch.last().transactions, addrs)) by {
            assert(ch[ch.len() - 1] == ch.last());
        }
        lemma_sum_txs_balance_zero(addrs, ch.last().transactions);
    }
}

/// The same conservation, with the issuing source set apart: where every
/// participant is either one of the duplicate-free `addrs` or the source
/// itself, the listed balances sum to exactly what the source paid out —
/// for a mined chain, zero plus the total of all mining rewards issued by
/// `Network`.
pub proof fn lemma_balance_conservation_with_source(
    ch: Seq<BlockView>,
    addrs: Seq<Seq<char>>,
    net: Seq<char>,
)
    requires
        addrs.no_duplicates(),
        !addrs.contains(net),
        chain_participants_in(ch, addrs.push(net)),
    ensures
        sum_balances(addrs, ch) == -chain_balance(ch, net),
{
    let all = addrs.push(net);
    assert(all.no_duplicates()) by {
        assert(forall|i: int| 0 <= i < addrs.len() ==> #[trigger] all[i] == addrs[i]);
        assert(all[all.len() - 1] == net);
    }
    lemma_balance_conservation(ch, all);
    assert(all.drop_last() =~= addrs);
    assert(all.last() == net);
}

proof fn lemma_chain_tx_count_take(ch: Seq<BlockView>, i: int)
    requires
        0 <= i < ch.len(),
    ensures
        chain_tx_count(ch.take(i)) + ch[i].transactions.len() <= chain_tx_count(ch),
    decreases ch.len(),
{
    if i == ch.len() - 1 {
        assert(ch.take(i) =~= ch.drop_last());
        assert(ch.last() == ch[i]);
    } else {
        lemma_chain_tx_count_take(ch.drop_last(), i);
        assert(ch.drop_last().take(i) =~= ch.take(i));
        assert(ch.drop_last()[i] == ch[i]);
    }
}

proof fn lemma_chain_balance_take(ch: Seq<BlockView>, i: int, addr: Seq<char>)
    requires
        0 <= i < ch.len(),
    ensures
        chain_balance(ch.take(i), addr) + txs_balance(ch[i].transactions, addr) == chain_balance(
            ch.take(i + 1),
            addr,
        ),
{
    assert(ch.take(i + 1).drop_last() =~= ch.take(i));
    assert(ch.take(i + 1).last() == ch[i]);
}

} // verus!
