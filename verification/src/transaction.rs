//! The immutable value-transfer record pooled in the mempool and carried by
//! blocks.

use vstd::prelude::*;

verus! {

/// The mathematical content of a transaction: who pays, who is paid, and how
/// many currency units move.
pub ghost struct TransactionView {
    pub sender: Seq<char>,
    pub recipient: Seq<char>,
    pub value: int,
}

/// The views of a sequence of transactions, in order.
pub open spec fn views_of(ts: Seq<Transaction>) -> Seq<TransactionView> {
    Seq::new(ts.len(), |i: int| ts[i]@)
}

/// An immutable value-transfer record. No validation of address shape or
/// value sign happens at this layer; negative and zero values are
/// representable, and policy belongs to the caller.
#[derive(Debug)]
pub struct Transaction {
    sender_address: String,
    recipient_address: String,
    value: i64,
}

impl View for Transaction {
    type V = TransactionView;

    closed spec fn view(&self) -> TransactionView {
        TransactionView {
            sender: self.sender_address@,
            recipient: self.recipient_address@,
            value: self.value as int,
        }
    }
}

impl Transaction {
    /// Build a record from its three fields, unchanged and unchecked.
    pub fn new(sender_address: String, recipient_address: String, value: i64) -> (r: Transaction)
        ensures
            r@ == (TransactionView {
                sender: sender_address@,
                recipient: recipient_address@,
                value: value as int,
            }),
    {
        Transaction { sender_address, recipient_address, value }
    }

    /// The paying address.
    pub fn sender_address(&self) -> (r: String)
        ensures
            r@ == self@.sender,
    {
        self.sender_address.clone()
    }

    /// The paid address.
    pub fn recipient_address(&self) -> (r: String)
        ensures
            r@ == self@.recipient,
    {
        self.recipient_address.clone()
    }

    /// The transferred amount.
    pub fn value(&self) -> (r: i64)
        ensures
            r == self@.value,
    {
        self.value
    }
}

impl Clone for Transaction {
    fn clone(&self) -> (r: Self)
        ensures
            r == *self,
    {
        Transaction {
            sender_address: self.sender_address.clone(),
            recipient_address: self.recipient_address.clone(),
            value: self.value,
        }
    }
}

} // verus!
