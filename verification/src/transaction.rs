//! Transfers and the ordered batches in which they are submitted.

use vstd::prelude::*;
use crate::address::{empty_address_message, system_key, Address};

verus! {

/// One transfer: `amount` moves from `from` to `to`, and `fee` moves from
/// `from` to the system account. Both are counted in whole units.
#[derive(Debug)]
pub struct Transaction {
    pub from: Address,
    pub to: Address,
    pub amount: i64,
    pub fee: i64,
}

/// The mathematical content of a [`Transaction`].
pub struct TxView {
    pub from: Seq<u8>,
    pub to: Seq<u8>,
    pub amount: int,
    pub fee: int,
}

impl TxView {
    /// What a transfer must satisfy to enter a request: both parties named,
    /// neither of them the system account, and nothing negative.
    pub open spec fn valid(self) -> bool {
        &&& self.from.len() > 0
        &&& self.to.len() > 0
        &&& self.from != system_key()
        &&& self.to != system_key()
        &&& self.amount >= 0
        &&& self.fee >= 0
    }

    /// The message with which a transfer that is not valid is refused. A
    /// missing party is reported first, then misuse of the system account,
    /// then a negative value.
    pub open spec fn refusal(self) -> Seq<char> {
        if self.from.len() == 0 || self.to.len() == 0 {
            empty_address_message()
        } else if self.from == system_key() || self.to == system_key() {
            system_address_message()
        } else {
            negative_value_message()
        }
    }
}

/// The message with which a transfer to or from the system account is refused.
pub open spec fn system_address_message() -> Seq<char> {
    "cannot send to or from system address"@
}

/// The message with which a negative amount or fee is refused.
pub open spec fn negative_value_message() -> Seq<char> {
    "amount and fee must be non-negative"@
}

impl View for Transaction {
    type V = TxView;

    open spec fn view(&self) -> TxView {
        TxView { from: self.from@, to: self.to@, amount: self.amount as int, fee: self.fee as int }
    }
}

impl Clone for Transaction {
    fn clone(&self) -> (r: Self)
        ensures
            r@ == self@,
    {
        Transaction {
            from: self.from.clone(),
            to: self.to.clone(),
            amount: self.amount,
            fee: self.fee,
        }
    }
}

/// The views of a run of transactions, in order.
pub open spec fn tx_views(txs: Seq<Transaction>) -> Seq<TxView> {
    Seq::new(txs.len(), |i: int| txs[i]@)
}

/// An ordered batch of transfers. Transfers are appended one at a time and
/// only valid ones are taken in; their order is never changed.
#[derive(Debug)]
pub struct Request(Vec<Transaction>);

impl View for Request {
    type V = Seq<TxView>;

    closed spec fn view(&self) -> Seq<TxView> {
        tx_views(self.0@)
    }
}

impl Request {
    /// Every transfer of the batch is valid.
    pub open spec fn wf(&self) -> bool {
        forall|i: int| 0 <= i < self@.len() ==> (#[trigger] self@[i]).valid()
    }

    /// A request without transfers.
    pub fn init_empty() -> (r: Self)
        ensures
            r@ == Seq::<TxView>::empty(),
            r.wf(),
    {
        let r = Request(Vec::new());
        assert(r@ =~= Seq::<TxView>::empty());
        r
    }

    /// Appends a transfer if it is valid, and refuses it with the reason if it
    /// is not. A refused transfer leaves the request as it was.
    pub fn add_transaction(&mut self, tx: Transaction) -> (r: Result<(), String>)
        requires
            old(self).wf(),
        ensures
            final(self).wf(),
            match r {
                Ok(_) => tx@.valid() && final(self)@ == old(self)@.push(tx@),
                Err(e) => !tx@.valid() && final(self)@ == old(self)@ && e@ == tx@.refusal(),
            },
    {
        if tx.from.is_empty() || tx.to.is_empty() {
            return Err("address cannot be empty".to_string());
        }
        if tx.from.is_system() || tx.to.is_system() {
            return Err("cannot send to or from system address".to_string());
        }
        if tx.amount >= 0 && tx.fee >= 0 {
            self.0.push(tx);
            assert(self@ =~= old(self)@.push(tx@));
            Ok(())
        } else {
            Err("amount and fee must be non-negative".to_string())
        }
    }

    /// The number of transfers in the batch.
    pub fn len(&self) -> (n: usize)
        ensures
            n == self@.len(),
    {
        self.0.len()
    }

    /// The transfers of the batch, in their stored order.
    pub fn transactions(&self) -> (txs: &Vec<Transaction>)
        ensures
            tx_views(txs@) == self@,
    {
        &self.0
    }
}

impl Clone for Request {
    fn clone(&self) -> (r: Self)
        ensures
            r@ == self@,
    {
        let mut txs: Vec<Transaction> = Vec::new();
        let mut i: usize = 0;
        while i < self.0.len()
            invariant
                i <= self.0.len(),
                txs@.len() == i,
                forall|k: int| 0 <= k < i ==> txs@[k]@ == self.0@[k]@,
            decreases self.0.len() - i,
        {
            txs.push(self.0[i].clone());
            i += 1;
        }
        let r = Request(txs);
        assert(r@ =~= self@);
        r
    }
}

} // verus!
