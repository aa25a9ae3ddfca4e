//! The block: an immutable-once-mined container of a transaction batch plus
//! mining metadata, owning the canonical serialization and hashing routine.
//!
//! The canonical serialization renders the fields in the fixed order
//! timestamp, nonce, previous_hash, transactions (each transaction as
//! sender / recipient / value) as one JSON object; the block hash is the
//! SHA-256 digest of those bytes. No field may be left out or reordered:
//! any change alters the hash and invalidates downstream links.

use vstd::prelude::*;

use crate::codec::{
    dec_bytes, hex64, hex_of, json_string_bytes, push_bytes, push_dec_i64, push_json_string,
    to_hex,
};
use crate::crypto::{sha256, sha256_of};
use crate::transaction::{views_of, Transaction, TransactionView};

verus! {

/// The timestamp of the fixed, globally agreed-upon first block.
pub const GENESIS_TIMESTAMP: i64 = 1706493690000;

/// The mathematical content of a block.
pub ghost struct BlockView {
    pub timestamp: int,
    pub nonce: int,
    pub previous_hash: Seq<char>,
    pub transactions: Seq<TransactionView>,
}

/// The same block with another nonce; what the proof-of-work search steps
/// through.
pub open spec fn with_nonce(b: BlockView, n: int) -> BlockView {
    BlockView {
        timestamp: b.timestamp,
        nonce: n,
        previous_hash: b.previous_hash,
        transactions: b.transactions,
    }
}

/// The content of the genesis block: the fixed timestamp, nonce 0, an empty
/// previous-hash and no transactions.
pub open spec fn genesis_view() -> BlockView {
    BlockView {
        timestamp: GENESIS_TIMESTAMP as int,
        nonce: 0,
        previous_hash: Seq::empty(),
        transactions: Seq::empty(),
    }
}

/// The bytes of `{"sender_address":`.
pub open spec fn lit_tx_sender() -> Seq<u8> {
    seq![
        123u8, 34u8, 115u8, 101u8, 110u8, 100u8, 101u8, 114u8, 95u8, 97u8, 100u8, 100u8, 114u8,
        101u8, 115u8, 115u8, 34u8, 58u8,
    ]
}

/// The bytes of `,"recipient_address":`.
pub open spec fn lit_tx_recipient() -> Seq<u8> {
    seq![
        44u8, 34u8, 114u8, 101u8, 99u8, 105u8, 112u8, 105u8, 101u8, 110u8, 116u8, 95u8, 97u8,
        100u8, 100u8, 114u8, 101u8, 115u8, 115u8, 34u8, 58u8,
    ]
}

/// The bytes of `,"value":`.
pub open spec fn lit_tx_value() -> Seq<u8> {
    seq![44u8, 34u8, 118u8, 97u8, 108u8, 117u8, 101u8, 34u8, 58u8]
}

/// Canonical bytes of one transaction:
/// `{"sender_address":S,"recipient_address":R,"value":V}`.
pub open spec fn ser_tx(t: TransactionView) -> Seq<u8> {
    lit_tx_sender() + json_string_bytes(t.sender) + lit_tx_recipient() + json_string_bytes(
        t.recipient,
    ) + lit_tx_value() + dec_bytes(t.value) + seq![125u8]
}

/// The comma-joined canonical bytes of a transaction sequence.
pub open spec fn ser_txs_inner(ts: Seq<TransactionView>) -> Seq<u8>
    decreases ts.len(),
{
    if ts.len() == 0 {
        Seq::empty()
    } else if ts.len() == 1 {
        ser_tx(ts[0])
    } else {
        ser_tx(ts[0]) + seq![44u8] + ser_txs_inner(ts.drop_first())
    }
}

/// Canonical bytes of a transaction sequence: a JSON array.
pub open spec fn ser_txs(ts: Seq<TransactionView>) -> Seq<u8> {
    seq![91u8] + ser_txs_inner(ts) + seq![93u8]
}

/// The bytes of `{"timestamp":`.
pub open spec fn lit_block_timestamp() -> Seq<u8> {
    seq![123u8, 34u8, 116u8, 105u8, 109u8, 101u8, 115u8, 116u8, 97u8, 109u8, 112u8, 34u8, 58u8]
}

/// The bytes of `,"nonce":`.
pub open spec fn lit_block_nonce() -> Seq<u8> {
    seq![44u8, 34u8, 110u8, 111u8, 110u8, 99u8, 101u8, 34u8, 58u8]
}

/// The bytes of `,"previous_hash":`.
pub open spec fn lit_block_prev() -> Seq<u8> {
    seq![
        44u8, 34u8, 112u8, 114u8, 101u8, 118u8, 105u8, 111u8, 117u8, 115u8, 95u8, 104u8, 97u8,
        115u8, 104u8, 34u8, 58u8,
    ]
}

/// The bytes of `,"transactions":`.
pub open spec fn lit_block_txs() -> Seq<u8> {
    seq![
        44u8, 34u8, 116u8, 114u8, 97u8, 110u8, 115u8, 97u8, 99u8, 116u8, 105u8, 111u8, 110u8,
        115u8, 34u8, 58u8,
    ]
}

/// Canonical bytes of a whole block:
/// `{"timestamp":T,"nonce":N,"previous_hash":P,"transactions":[...]}`.
pub open spec fn ser_block(b: BlockView) -> Seq<u8> {
    lit_block_timestamp() + dec_bytes(b.timestamp) + lit_block_nonce() + dec_bytes(b.nonce)
        + lit_block_prev() + json_string_bytes(b.previous_hash) + lit_block_txs() + ser_txs(
        b.transactions,
    ) + seq![125u8]
}

/// The block's hash as 64 lower-case hex digits of its SHA-256 digest.
pub open spec fn block_hash_hex(b: BlockView) -> Seq<char> {
    hex64(sha256_of(ser_block(b)))
}

proof fn lemma_ser_txs_inner_push(ts: Seq<TransactionView>, t: TransactionView)
    ensures
        ser_txs_inner(ts.push(t)) == if ts.len() == 0 {
            ser_tx(t)
        } else {
            ser_txs_inner(ts) + seq![44u8] + ser_tx(t)
        },
    decreases ts.len(),
{
    if ts.len() == 0 {
        assert(ts.push(t)[0] == t);
        assert(ser_txs_inner(ts.push(t)) =~= ser_tx(t));
    } else if ts.len() == 1 {
        assert(ts.push(t)[0] == ts[0]);
        assert(ts.push(t).drop_first() =~= seq![t]);
        assert(seq![t][0] == t);
        assert(ser_txs_inner(seq![t]) == ser_tx(t));
        assert(ser_txs_inner(ts.push(t)) =~= ser_txs_inner(ts) + seq![44u8] + ser_tx(t));
    } else {
        assert(ts.push(t)[0] == ts[0]);
        assert(ts.push(t).drop_first() =~= ts.drop_first().push(t));
        lemma_ser_txs_inner_push(ts.drop_first(), t);
        assert(ser_txs_inner(ts.push(t)) =~= ser_txs_inner(ts) + seq![44u8] + ser_tx(t));
    }
}

/// One transaction's canonical bytes are read back unambiguously from a
/// byte stream: the transactions and the remainders agree.
proof fn lemma_ser_tx_prefix(t1: TransactionView, t2: TransactionView, u: Seq<u8>, v: Seq<u8>)
    requires
        ser_tx(t1) + u == ser_tx(t2) + v,
    ensures
        t1 == t2,
        u == v,
{
    let r1 = json_string_bytes(t1.sender) + (lit_tx_recipient() + (json_string_bytes(t1.recipient)
        + (lit_tx_value() + (dec_bytes(t1.value) + (seq![125u8] + u)))));
    let r2 = json_string_bytes(t2.sender) + (lit_tx_recipient() + (json_string_bytes(t2.recipient)
        + (lit_tx_value() + (dec_bytes(t2.value) + (seq![125u8] + v)))));
    assert(ser_tx(t1) + u =~= lit_tx_sender() + r1);
    assert(ser_tx(t2) + v =~= lit_tx_sender() + r2);
    crate::codec::lemma_strip_prefix(lit_tx_sender(), r1, r2);
    crate::codec::lemma_json_string_prefix(
        t1.sender,
        t2.sender,
        lit_tx_recipient() + (json_string_bytes(t1.recipient) + (lit_tx_value() + (dec_bytes(
            t1.value,
        ) + (seq![125u8] + u)))),
        lit_tx_recipient() + (json_string_bytes(t2.recipient) + (lit_tx_value() + (dec_bytes(
            t2.value,
        ) + (seq![125u8] + v)))),
    );
    crate::codec::lemma_strip_prefix(
        lit_tx_recipient(),
        json_string_bytes(t1.recipient) + (lit_tx_value() + (dec_bytes(t1.value) + (seq![125u8]
            + u))),
        json_string_bytes(t2.recipient) + (lit_tx_value() + (dec_bytes(t2.value) + (seq![125u8]
            + v))),
    );
    crate::codec::lemma_json_string_prefix(
        t1.recipient,
        t2.recipient,
        lit_tx_value() + (dec_bytes(t1.value) + (seq![125u8] + u)),
        lit_tx_value() + (dec_bytes(t2.value) + (seq![125u8] + v)),
    );
    crate::codec::lemma_strip_prefix(
        lit_tx_value(),
        dec_bytes(t1.value) + (seq![125u8] + u),
        dec_bytes(t2.value) + (seq![125u8] + v),
    );
    assert((seq![125u8] + u)[0] == 125);
    assert((seq![125u8] + v)[0] == 125);
    crate::codec::lemma_dec_prefix(t1.value, t2.value, seq![125u8] + u, seq![125u8] + v);
    crate::codec::lemma_strip_prefix(seq![125u8], u, v);
}

proof fn lemma_ser_tx_head(t: TransactionView)
    ensures
        ser_tx(t).len() > 0,
        ser_tx(t)[0] == 123,
{
    assert(ser_tx(t)[0] == lit_tx_sender()[0]);
}

/// A comma-joined transaction list closed by `]` is read back
/// unambiguously: the lists and the remainders agree.
proof fn lemma_ser_txs_inner_terminated(
    ts1: Seq<TransactionView>,
    ts2: Seq<TransactionView>,
    u: Seq<u8>,
    v: Seq<u8>,
)
    requires
        ser_txs_inner(ts1) + (seq![93u8] + u) == ser_txs_inner(ts2) + (seq![93u8] + v),
    ensures
        ts1 == ts2,
        u == v,
    decreases ts1.len(),
{
    if ts1.len() == 0 && ts2.len() == 0 {
        crate::codec::lemma_strip_prefix(seq![93u8], u, v);
        assert(ts1 =~= ts2);
    } else if ts1.len() == 0 {
        lemma_ser_tx_head(ts2[0]);
        assert(ser_txs_inner(ts1) + (seq![93u8] + u) =~= seq![93u8] + u);
        assert((seq![93u8] + u)[0] == 93);
        assert((ser_txs_inner(ts2) + (seq![93u8] + v))[0] == ser_txs_inner(ts2)[0]);
        assert(ser_txs_inner(ts2)[0] == ser_tx(ts2[0])[0]);
        assert(false);
    } else if ts2.len() == 0 {
        lemma_ser_tx_head(ts1[0]);
        assert(ser_txs_inner(ts2) + (seq![93u8] + v) =~= seq![93u8] + v);
        assert((seq![93u8] + v)[0] == 93);
        assert((ser_txs_inner(ts1) + (seq![93u8] + u))[0] == ser_txs_inner(ts1)[0]);
        assert(ser_txs_inner(ts1)[0] == ser_tx(ts1[0])[0]);
        assert(false);
    } else {
        let r1 = if ts1.len() == 1 {
            seq![93u8] + u
        } else {
            seq![44u8] + (ser_txs_inner(ts1.drop_first()) + (seq![93u8] + u))
        };
        let r2 = if ts2.len() == 1 {
            seq![93u8] + v
        } else {
            seq![44u8] + (ser_txs_inner(ts2.drop_first()) + (seq![93u8] + v))
        };
        assert(ser_txs_inner(ts1) + (seq![93u8] + u) =~= ser_tx(ts1[0]) + r1);
        assert(ser_txs_inner(ts2) + (seq![93u8] + v) =~= ser_tx(ts2[0]) + r2);
        lemma_ser_tx_prefix(ts1[0], ts2[0], r1, r2);
        assert(r1[0] == r2[0]);
        if ts1.len() == 1 && ts2.len() == 1 {
            crate::codec::lemma_strip_prefix(seq![93u8], u, v);
            assert(ts1 =~= ts2);
        } else if ts1.len() == 1 || ts2.len() == 1 {
            assert(false);
        } else {
            crate::codec::lemma_strip_prefix(
                seq![44u8],
                ser_txs_inner(ts1.drop_first()) + (seq![93u8] + u),
                ser_txs_inner(ts2.drop_first()) + (seq![93u8] + v),
            );
            lemma_ser_txs_inner_terminated(ts1.drop_first(), ts2.drop_first(), u, v);
            assert(ts1.len() == ts2.len());
            assert forall|k: int| 0 <= k < ts1.len() implies ts1[k] == ts2[k] by {
                if k > 0 {
                    assert(ts1[k] == ts1.drop_first()[k - 1]);
                    assert(ts2[k] == ts2.drop_first()[k - 1]);
                }
            }
            assert(ts1 =~= ts2);
        }
    }
}

/// The canonical serialization is injective: two different blocks never
/// share their canonical bytes. Changing any single field — timestamp,
/// nonce, previous-hash, or any field of any carried transaction — changes
/// the serialization, so two different blocks share a hash only on a
/// SHA-256 collision.
#[verifier::rlimit(100)]
pub proof fn lemma_ser_block_injective(b1: BlockView, b2: BlockView)
    requires
        ser_block(b1) == ser_block(b2),
    ensures
        b1 == b2,
{
    let r1 = dec_bytes(b1.timestamp) + (lit_block_nonce() + (dec_bytes(b1.nonce) + (
    lit_block_prev() + (json_string_bytes(b1.previous_hash) + (lit_block_txs() + (seq![91u8] + (
    ser_txs_inner(b1.transactions) + (seq![93u8] + seq![125u8]))))))));
    let r2 = dec_bytes(b2.timestamp) + (lit_block_nonce() + (dec_bytes(b2.nonce) + (
    lit_block_prev() + (json_string_bytes(b2.previous_hash) + (lit_block_txs() + (seq![91u8] + (
    ser_txs_inner(b2.transactions) + (seq![93u8] + seq![125u8]))))))));
    assert(ser_block(b1) =~= lit_block_timestamp() + r1);
    assert(ser_block(b2) =~= lit_block_timestamp() + r2);
    crate::codec::lemma_strip_prefix(lit_block_timestamp(), r1, r2);

    let n1 = lit_block_nonce() + (dec_bytes(b1.nonce) + (lit_block_prev() + (json_string_bytes(
        b1.previous_hash,
    ) + (lit_block_txs() + (seq![91u8] + (ser_txs_inner(b1.transactions) + (seq![93u8]
        + seq![125u8])))))));
    let n2 = lit_block_nonce() + (dec_bytes(b2.nonce) + (lit_block_prev() + (json_string_bytes(
        b2.previous_hash,
    ) + (lit_block_txs() + (seq![91u8] + (ser_txs_inner(b2.transactions) + (seq![93u8]
        + seq![125u8])))))));
    assert(n1[0] == 44 && n2[0] == 44) by {
        assert(n1[0] == lit_block_nonce()[0]);
        assert(n2[0] == lit_block_nonce()[0]);
    }
    crate::codec::lemma_dec_prefix(b1.timestamp, b2.timestamp, n1, n2);
    crate::codec::lemma_strip_prefix(
        lit_block_nonce(),
        dec_bytes(b1.nonce) + (lit_block_prev() + (json_string_bytes(b1.previous_hash) + (
        lit_block_txs() + (seq![91u8] + (ser_txs_inner(b1.transactions) + (seq![93u8]
            + seq![125u8])))))),
        dec_bytes(b2.nonce) + (lit_block_prev() + (json_string_bytes(b2.previous_hash) + (
        lit_block_txs() + (seq![91u8] + (ser_txs_inner(b2.transactions) + (seq![93u8]
            + seq![125u8])))))),
    );

    let p1 = lit_block_prev() + (json_string_bytes(b1.previous_hash) + (lit_block_txs() + (
    seq![91u8] + (ser_txs_inner(b1.transactions) + (seq![93u8] + seq![125u8])))));
    let p2 = lit_block_prev() + (json_string_bytes(b2.previous_hash) + (lit_block_txs() + (
    seq![91u8] + (ser_txs_inner(b2.transactions) + (seq![93u8] + seq![125u8])))));
    assert(p1[0] == 44 && p2[0] == 44) by {
        assert(p1[0] == lit_block_prev()[0]);
        assert(p2[0] == lit_block_prev()[0]);
    }
    crate::codec::lemma_dec_prefix(b1.nonce, b2.nonce, p1, p2);
    crate::codec::lemma_strip_prefix(
        lit_block_prev(),
        json_string_bytes(b1.previous_hash) + (lit_block_txs() + (seq![91u8] + (ser_txs_inner(
            b1.transactions,
        ) + (seq![93u8] + seq![125u8])))),
        json_string_bytes(b2.previous_hash) + (lit_block_txs() + (seq![91u8] + (ser_txs_inner(
            b2.transactions,
        ) + (seq![93u8] + seq![125u8])))),
    );
    crate::codec::lemma_json_string_prefix(
        b1.previous_hash,
        b2.previous_hash,
        lit_block_txs() + (seq![91u8] + (ser_txs_inner(b1.transactions) + (seq![93u8]
            + seq![125u8]))),
        lit_block_txs() + (seq![91u8] + (ser_txs_inner(b2.transactions) + (seq![93u8]
            + seq![125u8]))),
    );
    crate::codec::lemma_strip_prefix(
        lit_block_txs(),
        seq![91u8] + (ser_txs_inner(b1.transactions) + (seq![93u8] + seq![125u8])),
        seq![91u8] + (ser_txs_inner(b2.transactions) + (seq![93u8] + seq![125u8])),
    );
    crate::codec::lemma_strip_prefix(
        seq![91u8],
        ser_txs_inner(b1.transactions) + (seq![93u8] + seq![125u8]),
        ser_txs_inner(b2.transactions) + (seq![93u8] + seq![125u8]),
    );
    lemma_ser_txs_inner_terminated(b1.transactions, b2.transactions, seq![125u8], seq![125u8]);
}

/// Why hashing a block can fail. The canonical serializer below is total, so
/// the variant is never produced by this crate; it is kept as the distinct
/// error kind that hashing reports.
#[derive(Debug, Clone, Copy, PartialEq, Eq, Structural)]
pub enum BlockError {
    SerializeError,
}

/// A block of the chain. `nonce` is mutated during the proof-of-work search;
/// once a block is accepted into a chain it is never mutated again.
#[derive(Debug)]
pub struct Block {
    timestamp: i64,
    nonce: i64,
    previous_hash: String,
    transactions: Vec<Transaction>,
}

impl View for Block {
    type V = BlockView;

    closed spec fn view(&self) -> BlockView {
        BlockView {
            timestamp: self.timestamp as int,
            nonce: self.nonce as int,
            previous_hash: self.previous_hash@,
            transactions: views_of(self.transactions@),
        }
    }
}

impl Block {
    /// The fixed first block of every chain, identical across all instances
    /// of the engine.
    pub fn genesis() -> (r: Block)
        ensures
            r@ == genesis_view(),
    {
        let r = Block {
            timestamp: GENESIS_TIMESTAMP,
            nonce: 0,
            previous_hash: String::new(),
            transactions: Vec::new(),
        };
        proof {
            assert(r@.previous_hash =~= genesis_view().previous_hash);
            assert(r@.transactions =~= genesis_view().transactions);
        }
        r
    }

    /// Pure constructor from all four fields.
    pub fn new(timestamp: i64, transactions: Vec<Transaction>, nonce: i64, previous_hash: String)
        -> (r: Block)
        ensures
            r@ == (BlockView {
                timestamp: timestamp as int,
                nonce: nonce as int,
                previous_hash: previous_hash@,
                transactions: views_of(transactions@),
            }),
    {
        Block { timestamp, nonce, previous_hash, transactions }
    }

    /// Assemble a candidate block stamped with the clock's current time.
    pub fn create_from(transactions: Vec<Transaction>, nonce: i64, previous_hash: String)
        -> (r: Block)
        ensures
            r@.nonce == nonce as int,
            r@.previous_hash == previous_hash@,
            r@.transactions == views_of(transactions@),
    {
        let timestamp = Self::generate_timestamp();
        Block { timestamp, nonce, previous_hash, transactions }
    }

    /// Relies on std::time::SystemTime::now and duration_since: milliseconds
    /// since the Unix epoch by the machine's clock, 0 if the clock stands
    /// before the epoch. Nothing is promised of the value: to the proofs the
    /// clock is arbitrary.
    #[verifier::external_body]
    pub fn generate_timestamp() -> i64 {
        match std::time::SystemTime::now().duration_since(std::time::UNIX_EPOCH) {
            Ok(d) => d.as_millis() as i64,
            Err(_) => 0,
        }
    }

    /// Whether `timestamp` does not lie in the clock's future.
    /// The result depends on the clock at the moment of the call, so nothing
    /// more is promised of it.
    pub fn check_timestamp(timestamp: i64) -> bool {
        let now = Self::generate_timestamp();
        timestamp <= now
    }

    /// When the block was assembled, in milliseconds since the epoch.
    pub fn timestamp(&self) -> (r: i64)
        ensures
            r == self@.timestamp,
    {
        self.timestamp
    }

    /// The proof-of-work counter.
    pub fn nonce(&self) -> (r: i64)
        ensures
            r == self@.nonce,
    {
        self.nonce
    }

    /// Step the proof-of-work counter by one. The only mutation a block
    /// admits, and only before it is accepted into a chain.
    pub fn increment_nonce(&mut self)
        requires
            old(self)@.nonce < i64::MAX,
        ensures
            final(self)@ == with_nonce(old(self)@, old(self)@.nonce + 1),
    {
        self.nonce = self.nonce + 1;
    }

    /// The hex hash of the predecessor block this block claims.
    pub fn previous_hash(&self) -> (r: String)
        ensures
            r@ == self@.previous_hash,
    {
        self.previous_hash.clone()
    }

    /// A copy of the carried transaction batch.
    pub fn transactions(&self) -> (r: Vec<Transaction>)
        ensures
            views_of(r@) == self@.transactions,
    {
        let mut out: Vec<Transaction> = Vec::new();
        let n: usize = self.transactions.len();
        let mut i: usize = 0;
        while i < n
            invariant
                i <= n,
                n == self.transactions@.len(),
                out@ =~= self.transactions@.take(i as int),
            decreases n - i,
        {
            out.push(self.transactions[i].clone());
            proof {
                assert(out@ =~= self.transactions@.take(i + 1));
            }
            i = i + 1;
        }
        proof {
            assert(out@ =~= self.transactions@);
            assert(views_of(out@) =~= self@.transactions);
        }
        out
    }

    /// The canonical serialization: the bytes whose SHA-256 digest is the
    /// block's hash.
    pub fn serialize(&self) -> (r: Vec<u8>)
        ensures
            r@ == ser_block(self@),
    {
        let mut out: Vec<u8> = Vec::new();
        let lit_ts: [u8; 13] = [123, 34, 116, 105, 109, 101, 115, 116, 97, 109, 112, 34, 58];
        push_bytes(&mut out, lit_ts.as_slice());
        push_dec_i64(&mut out, self.timestamp);
        let lit_nonce: [u8; 9] = [44, 34, 110, 111, 110, 99, 101, 34, 58];
        push_bytes(&mut out, lit_nonce.as_slice());
        push_dec_i64(&mut out, self.nonce);
        let lit_prev: [u8; 17] = [
            44, 34, 112, 114, 101, 118, 105, 111, 117, 115, 95, 104, 97, 115, 104, 34, 58,
        ];
        push_bytes(&mut out, lit_prev.as_slice());
        push_json_string(&mut out, self.previous_hash.as_str());
        let lit_txs: [u8; 16] = [
            44, 34, 116, 114, 97, 110, 115, 97, 99, 116, 105, 111, 110, 115, 34, 58,
        ];
        push_bytes(&mut out, lit_txs.as_slice());
        out.push(91);

        let ghost views = self@.transactions;
        let ghost pre = out@;
        let n: usize = self.transactions.len();
        let mut i: usize = 0;
        while i < n
            invariant
                i <= n,
                n == self.transactions@.len(),
                views == views_of(self.transactions@),
                out@ == pre + ser_txs_inner(views.take(i as int)),
            decreases n - i,
        {
            if i > 0 {
                out.push(44);
            }
            Self::push_tx(&mut out, &self.transactions[i]);
            proof {
                assert(views.take(i as int).push(views[i as int]) =~= views.take(i + 1));
                lemma_ser_txs_inner_push(views.take(i as int), views[i as int]);
                assert(out@ =~= pre + ser_txs_inner(views.take(i + 1)));
            }
            i = i + 1;
        }
        out.push(93);
        out.push(125);
        proof {
            assert(views.take(n as int) =~= views);
            assert(out@ =~= ser_block(self@));
        }
        out
    }

    fn push_tx(out: &mut Vec<u8>, tx: &Transaction)
        ensures
            final(out)@ == old(out)@ + ser_tx(tx@),
    {
        let ghost orig = out@;
        let lit_sender: [u8; 18] = [
            123, 34, 115, 101, 110, 100, 101, 114, 95, 97, 100, 100, 114, 101, 115, 115, 34, 58,
        ];
        push_bytes(out, lit_sender.as_slice());
        let sender = tx.sender_address();
        push_json_string(out, sender.as_str());
        let lit_recipient: [u8; 21] = [
            44, 34, 114, 101, 99, 105, 112, 105, 101, 110, 116, 95, 97, 100, 100, 114, 101, 115,
            115, 34, 58,
        ];
        push_bytes(out, lit_recipient.as_slice());
        let recipient = tx.recipient_address();
        push_json_string(out, recipient.as_str());
        let lit_value: [u8; 9] = [44, 34, 118, 97, 108, 117, 101, 34, 58];
        push_bytes(out, lit_value.as_slice());
        push_dec_i64(out, tx.value());
        out.push(125);
        proof {
            assert(out@ =~= orig + ser_tx(tx@));
        }
    }

    /// The block's SHA-256 digest, as raw bytes.
    pub fn hash_raw(&self) -> (r: Result<Vec<u8>, BlockError>)
        ensures
            r matches Ok(d) && d@ == sha256_of(ser_block(self@)),
            r matches Ok(d) && d@.len() == 32,
    {
        let bytes = self.serialize();
        Ok(sha256(bytes.as_slice()))
    }

    /// The block's hash as a lower-case hex string of 64 digits.
    pub fn hash(&self) -> (r: Result<String, BlockError>)
        ensures
            r matches Ok(h) && h@ == block_hash_hex(self@),
            r matches Ok(h) && h@.len() == 64,
    {
        let bytes = self.serialize();
        let digest = sha256(bytes.as_slice());
        let hex = to_hex(digest.as_slice());
        proof {
            assert(hex_of(digest@) =~= hex64(digest@));
        }
        Ok(hex)
    }
}

impl Clone for Block {
    fn clone(&self) -> (r: Self)
        ensures
            r@ == self@,
    {
        Block {
            timestamp: self.timestamp,
            nonce: self.nonce,
            previous_hash: self.previous_hash.clone(),
            transactions: self.transactions(),
        }
    }
}

} // verus!
