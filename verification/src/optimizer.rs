//! The optimizer: the authoritative ledger and the backlog of requests.

use vstd::prelude::*;
use crate::address::{system_address, system_key, Address};
use crate::ledger::{batch_refusal, balance_range_message, deposits, entry_views, merged, Ledger};
use crate::model::{all_valid, lemma_replay_keeps_accounts, total_fees, Balances};
use crate::search::{maximize_fee, search_outcome};
use crate::simulator::all_wf;
use crate::transaction::{tx_views, Request, Transaction};

verus! {

/// The message with which a selection size is refused that is not below the
/// population size.
pub open spec fn selection_size_message() -> Seq<char> {
    "selection size should be smaller than population size"@
}

/// The message with which a selection size is refused whose product with
/// the number of requests does not fit the weight type.
pub open spec fn weight_range_message() -> Seq<char> {
    "selection size times number of requests exceeds the supported range"@
}

/// The optimizer: it holds the ledger and the requests across calls, and
/// each solve runs the search over all of them.
pub struct FeeMaximizer {
    balance: Ledger,
    requests: Vec<Request>,
}

impl FeeMaximizer {
    /// The ledger that the optimizer holds.
    pub closed spec fn ledger(&self) -> Ledger {
        self.balance
    }

    /// The requests handed in so far, oldest first.
    pub closed spec fn backlog(&self) -> Seq<Request> {
        self.requests@
    }

    /// The ledger is well formed and knows the system account, and every
    /// request in the backlog is valid.
    pub open spec fn wf(&self) -> bool {
        &&& self.ledger().wf()
        &&& self.ledger()@.contains_key(system_key())
        &&& all_wf(self.backlog())
    }

    /// An optimizer without requests, whose ledger knows the system account
    /// alone, with nothing in it.
    pub fn init_empty() -> (r: Self)
        ensures
            r.wf(),
            r.ledger()@ == Balances::empty().insert(system_key(), 0),
            r.ledger().keys() == seq![system_key()],
            r.ledger().total() == 0,
            r.backlog().len() == 0,
    {
        let mut balance = Ledger::new();
        balance.deposit(&system_address(), 0);
        proof {
            assert(balance.keys() =~= seq![system_key()]);
        }
        FeeMaximizer { balance, requests: Vec::new() }
    }

    /// Merges a batch of balances into the ledger, each added to what its
    /// account holds. A batch with an entry that has no address or a negative
    /// balance is refused as a whole, and so is one that the ledger cannot
    /// hold; the ledger is then left as it was.
    pub fn add_balance(&mut self, entries: &[(Address, i64)]) -> (r: Result<(), String>)
        requires
            old(self).wf(),
        ensures
            final(self).wf(),
            final(self).backlog() == old(self).backlog(),
            match r {
                Ok(_) => {
                    &&& batch_refusal(entry_views(entries@)) is None
                    &&& old(self).ledger().total() + deposits(entry_views(entries@)) <= i64::MAX
                    &&& final(self).ledger()@ == merged(
                        old(self).ledger()@,
                        entry_views(entries@),
                    )
                    &&& final(self).ledger().total() == old(self).ledger().total() + deposits(
                        entry_views(entries@),
                    )
                },
                Err(e) => {
                    &&& final(self).ledger() == old(self).ledger()
                    &&& match batch_refusal(entry_views(entries@)) {
                        Some(message) => e@ == message,
                        None => old(self).ledger().total() + deposits(entry_views(entries@))
                            > i64::MAX && e@ == balance_range_message(),
                    }
                },
            },
    {
        self.balance.add_balance(entries)
    }

    /// Appends a copy of a request to the backlog.
    pub fn add_request(&mut self, req: &Request)
        requires
            old(self).wf(),
            req.wf(),
        ensures
            final(self).wf(),
            final(self).ledger() == old(self).ledger(),
            final(self).backlog().len() == old(self).backlog().len() + 1,
            final(self).backlog().drop_last() == old(self).backlog(),
            final(self).backlog().last()@ == req@,
    {
        self.requests.push(req.clone());
        proof {
            assert(self.requests@.drop_last() =~= old(self).requests@);
        }
    }

    /// Runs the search over the whole backlog and makes the ledger of its
    /// answer the ledger of the optimizer. Returns the transfers of the
    /// answer in execution order. The backlog stays as it is.
    ///
    /// A selection size that is not below the population size is refused.
    /// Where generations are to run, so are sizes whose product with the
    /// number of requests is beyond the range of the weights.
    pub fn solve(&mut self, population_size: usize, selection_size: usize, num_generation: usize) -> (r:
        Result<Vec<Transaction>, String>)
        requires
            old(self).wf(),
        ensures
            final(self).wf(),
            final(self).backlog() == old(self).backlog(),
            final(self).ledger().total() == old(self).ledger().total(),
            match r {
                Ok(txs) => {
                    &&& selection_size < population_size
                    &&& old(self).backlog().len() == 0 || num_generation == 0 || selection_size
                        * old(self).backlog().len() <= usize::MAX
                    &&& search_outcome(
                        old(self).ledger(),
                        old(self).backlog(),
                        txs@,
                        final(self).ledger(),
                    )
                    &&& all_valid(tx_views(txs@))
                    &&& final(self).ledger()@[system_key()] == old(self).ledger()@[system_key()]
                        + total_fees(tx_views(txs@))
                    &&& final(self).ledger()@[system_key()] >= old(self).ledger()@[system_key()]
                    &&& old(self).backlog().len() == 0 || num_generation == 0 || selection_size
                        == 0 ==> txs@.len() == 0 && final(self).ledger()@ == old(self).ledger()@
                        && final(self).ledger().keys() == old(self).ledger().keys()
                },
                Err(e) => {
                    &&& final(self).ledger() == old(self).ledger()
                    &&& if selection_size >= population_size {
                        e@ == selection_size_message()
                    } else {
                        &&& old(self).backlog().len() > 0
                        &&& num_generation > 0
                        &&& selection_size * old(self).backlog().len() > usize::MAX
                        &&& e@ == weight_range_message()
                    }
                },
            },
    {
        if selection_size >= population_size {
            return Err("selection size should be smaller than population size".to_string());
        }
        if self.requests.len() == 0 {
            proof {
                assert(tx_views(Seq::<Transaction>::empty()) =~= Seq::empty());
            }
            return Ok(Vec::new());
        }
        if num_generation > 0 && selection_size.checked_mul(self.requests.len()).is_none() {
            return Err(
                "selection size times number of requests exceeds the supported range".to_string(),
            );
        }
        let (tx_list, new_bal) = maximize_fee(
            &self.balance,
            self.requests.as_slice(),
            population_size,
            selection_size,
            num_generation,
        );
        proof {
            lemma_replay_keeps_accounts(self.balance@, tx_views(tx_list@));
        }
        self.balance = new_bal;
        Ok(tx_list)
    }

    /// The ledger, to read.
    pub fn balance(&self) -> (r: &Ledger)
        ensures
            *r == self.ledger(),
    {
        &self.balance
    }

    /// The balance of an account, and -1 for an account that the ledger does
    /// not know.
    pub fn get_balance(&self, address: &Address) -> (r: i64)
        requires
            self.wf(),
        ensures
            r == if self.ledger()@.contains_key(address@) {
                self.ledger()@[address@]
            } else {
                -1
            },
            self.ledger()@.contains_key(address@) <==> r >= 0,
    {
        match self.balance.get(address) {
            Some(balance) => balance,
            None => -1,
        }
    }
}

} // verus!
