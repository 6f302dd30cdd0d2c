//! The account-balance ledger.

use vstd::prelude::*;
use crate::address::{empty_address_message, system_key, Address};
use crate::model::{apply_tx, credit, solvent, Balances};
use crate::transaction::Transaction;

verus! {

/// The sum of a run of balances.
spec fn sum(balances: Seq<i64>) -> int
    decreases balances.len(),
{
    if balances.len() == 0 {
        0
    } else {
        sum(balances.drop_last()) + balances.last()
    }
}

/// Replacing one balance changes the sum by the difference.
proof fn lemma_sum_update(balances: Seq<i64>, i: int, value: i64)
    requires
        0 <= i < balances.len(),
    ensures
        sum(balances.update(i, value)) == sum(balances) - balances[i] + value,
    decreases balances.len(),
{
    let updated = balances.update(i, value);
    if i == balances.len() - 1 {
        assert(updated.drop_last() =~= balances.drop_last());
    } else {
        assert(updated.drop_last() =~= balances.drop_last().update(i, value));
        lemma_sum_update(balances.drop_last(), i, value);
    }
}

/// One more balance adds itself to the sum.
proof fn lemma_sum_push(balances: Seq<i64>, value: i64)
    ensures
        sum(balances.push(value)) == sum(balances) + value,
{
    assert(balances.push(value).drop_last() =~= balances);
}

/// The first of a run of non-negative balances sum to no more than all.
proof fn lemma_sum_prefix(balances: Seq<i64>, n: int)
    requires
        0 <= n <= balances.len(),
        forall|k: int| 0 <= k < balances.len() ==> balances[k] >= 0,
    ensures
        0 <= sum(balances.take(n)) <= sum(balances),
    decreases balances.len(),
{
    if balances.len() == 0 {
        assert(balances.take(n) =~= balances);
    } else if n == balances.len() {
        assert(balances.take(n) =~= balances);
        lemma_sum_nonnegative(balances);
    } else {
        lemma_sum_prefix(balances.drop_last(), n);
        assert(balances.drop_last().take(n) =~= balances.take(n));
    }
}

/// Non-negative balances have a non-negative sum.
proof fn lemma_sum_nonnegative(balances: Seq<i64>)
    requires
        forall|k: int| 0 <= k < balances.len() ==> balances[k] >= 0,
    ensures
        sum(balances) >= 0,
    decreases balances.len(),
{
    if balances.len() > 0 {
        lemma_sum_nonnegative(balances.drop_last());
    }
}

/// Among non-negative balances none exceeds the sum.
proof fn lemma_sum_bounds(balances: Seq<i64>, i: int)
    requires
        0 <= i < balances.len(),
        forall|k: int| 0 <= k < balances.len() ==> balances[k] >= 0,
    ensures
        0 <= balances[i] <= sum(balances),
    decreases balances.len(),
{
    lemma_sum_nonnegative(balances.drop_last());
    if i < balances.len() - 1 {
        lemma_sum_bounds(balances.drop_last(), i);
    }
}

/// The message with which a negative balance is refused.
pub open spec fn negative_balance_message() -> Seq<char> {
    "balance must be non-negative"@
}

/// The message with which balances are refused that the ledger cannot hold
/// together.
pub open spec fn balance_range_message() -> Seq<char> {
    "balances exceed the supported range"@
}

/// What a batch of balance entries holds: for each, the account and the
/// balance to add to it.
pub open spec fn entry_views(entries: Seq<(Address, i64)>) -> Seq<(Seq<u8>, int)> {
    Seq::new(entries.len(), |i: int| (entries[i].0@, entries[i].1 as int))
}

/// The ledger after each entry of a batch, first to last, has been added to
/// its account.
pub open spec fn merged(ledger: Balances, entries: Seq<(Seq<u8>, int)>) -> Balances
    decreases entries.len(),
{
    if entries.len() == 0 {
        ledger
    } else {
        credit(merged(ledger, entries.drop_last()), entries.last().0, entries.last().1)
    }
}

/// All that a batch adds.
pub open spec fn deposits(entries: Seq<(Seq<u8>, int)>) -> int
    decreases entries.len(),
{
    if entries.len() == 0 {
        0
    } else {
        deposits(entries.drop_last()) + entries.last().1
    }
}

/// Why a batch is refused, if it is: the first entry without an address or
/// with a negative balance decides, an address that is missing before a
/// balance that is negative.
pub open spec fn batch_refusal(entries: Seq<(Seq<u8>, int)>) -> Option<Seq<char>>
    decreases entries.len(),
{
    if entries.len() == 0 {
        None
    } else {
        match batch_refusal(entries.drop_last()) {
            Some(message) => Some(message),
            None => if entries.last().0.len() == 0 {
                Some(empty_address_message())
            } else if entries.last().1 < 0 {
                Some(negative_balance_message())
            } else {
                None
            },
        }
    }
}

/// A batch whose first entries are refused is refused for the same reason.
proof fn lemma_refusal_stands(entries: Seq<(Seq<u8>, int)>, n: int)
    requires
        0 <= n <= entries.len(),
        batch_refusal(entries.take(n)) is Some,
    ensures
        batch_refusal(entries) == batch_refusal(entries.take(n)),
    decreases entries.len() - n,
{
    if n == entries.len() {
        assert(entries.take(n) =~= entries);
    } else {
        assert(entries.take(n + 1).drop_last() =~= entries.take(n));
        lemma_refusal_stands(entries, n + 1);
    }
}

/// In a batch that is not refused, the first entries are not refused
/// either, and add no more than the whole batch.
proof fn lemma_deposits_nonnegative(entries: Seq<(Seq<u8>, int)>, n: int)
    requires
        batch_refusal(entries) is None,
        0 <= n <= entries.len(),
    ensures
        batch_refusal(entries.take(n)) is None,
        0 <= deposits(entries.take(n)) <= deposits(entries),
    decreases entries.len(),
{
    if entries.len() == 0 {
        assert(entries.take(n) =~= entries);
    } else if n == entries.len() {
        assert(entries.take(n) =~= entries);
        lemma_deposits_nonnegative(entries.drop_last(), n - 1);
        assert(entries.drop_last().take(n - 1) =~= entries.drop_last());
    } else {
        lemma_deposits_nonnegative(entries.drop_last(), n);
        assert(entries.drop_last().take(n) =~= entries.take(n));
    }
}

/// Account balances by address. Each known account appears once, no balance
/// is negative, and all balances together fit the balance type.
#[derive(Debug)]
pub struct Ledger {
    names: Vec<Address>,
    balances: Vec<i64>,
}

impl View for Ledger {
    type V = Balances;

    closed spec fn view(&self) -> Balances {
        Map::new(
            |a: Seq<u8>| self.keys().contains(a),
            |a: Seq<u8>| self.balances@[self.keys().index_of(a)] as int,
        )
    }
}

impl Ledger {
    /// The addresses of the known accounts, in the order in which the ledger
    /// first met them.
    pub closed spec fn keys(&self) -> Seq<Seq<u8>> {
        Seq::new(self.names@.len(), |i: int| self.names@[i]@)
    }

    /// All balances of the ledger together.
    pub closed spec fn total(&self) -> int {
        sum(self.balances@)
    }

    /// The invariant of the ledger.
    pub closed spec fn wf(&self) -> bool {
        &&& self.names@.len() == self.balances@.len()
        &&& self.keys().no_duplicates()
        &&& forall|i: int| 0 <= i < self.balances@.len() ==> self.balances@[i] >= 0
        &&& sum(self.balances@) <= i64::MAX
    }

    /// The listing of a well-formed ledger names each known account once:
    /// the accounts of the view are the listed ones, and there are as many of
    /// them as the listing is long.
    pub proof fn lemma_listing(&self)
        requires
            self.wf(),
        ensures
            self.keys().no_duplicates(),
            self@.dom() == self.keys().to_set(),
            self@.dom().finite(),
            self@.dom().len() == self.keys().len(),
            forall|a: Seq<u8>| self@.contains_key(a) <==> self.keys().contains(a),
    {
        self.lemma_entries();
        assert(self@.dom() =~= self.keys().to_set());
        vstd::seq_lib::seq_to_set_is_finite(self.keys());
        self.keys().unique_seq_to_set();
    }

    /// A well-formed ledger has finitely many accounts, none of them
    /// overdrawn, and its total is the sum of non-negative balances.
    pub proof fn lemma_solvent(&self)
        requires
            self.wf(),
        ensures
            solvent(self@),
            self@.dom().finite(),
            0 <= self.total() <= i64::MAX,
            forall|a: Seq<u8>| #[trigger] self@.contains_key(a) ==> self@[a] <= self.total(),
    {
        self.lemma_entries();
        assert forall|a: Seq<u8>| #[trigger] self@.contains_key(a) implies 0 <= self@[a]
            <= self.total() by {
            let i = self.keys().index_of(a);
            lemma_sum_bounds(self.balances@, i);
        }
        lemma_sum_nonnegative(self.balances@);
        assert(self@.dom() =~= self.keys().to_set());
        vstd::seq_lib::seq_to_set_is_finite(self.keys());
    }

    /// The view holds each known account with the balance stored beside it.
    proof fn lemma_entries(&self)
        requires
            self.names@.len() == self.balances@.len(),
            self.keys().no_duplicates(),
        ensures
            forall|a: Seq<u8>| self@.contains_key(a) <==> self.keys().contains(a),
            forall|i: int|
                0 <= i < self.keys().len() ==> self@.contains_key(#[trigger] self.keys()[i])
                    && self@[self.keys()[i]] == self.balances@[i],
    {
        assert forall|i: int| 0 <= i < self.keys().len() implies self@.contains_key(
            #[trigger] self.keys()[i],
        ) && self@[self.keys()[i]] == self.balances@[i] by {
            let a = self.keys()[i];
            assert(self.keys().contains(a));
            assert(self.keys().index_of(a) == i);
        }
    }

    /// A ledger that knows no account: it lists none, holds no balance, and
    /// its total is zero.
    pub fn new() -> (r: Self)
        ensures
            r.wf(),
            r.keys() == Seq::<Seq<u8>>::empty(),
            r@ == Balances::empty(),
            r.total() == 0,
    {
        let r = Ledger { names: Vec::new(), balances: Vec::new() };
        assert(r.keys() =~= Seq::<Seq<u8>>::empty());
        assert(r@ =~= Balances::empty());
        r
    }

    /// The number of known accounts.
    pub fn len(&self) -> (n: usize)
        requires
            self.wf(),
        ensures
            n == self.keys().len(),
            n == self@.dom().len(),
    {
        proof {
            self.lemma_listing();
        }
        self.names.len()
    }

    /// The address of the account at a position below [`Ledger::len`].
    pub fn address_at(&self, i: usize) -> (a: &Address)
        requires
            self.wf(),
            i < self.keys().len(),
        ensures
            a@ == self.keys()[i as int],
            self@.contains_key(a@),
    {
        proof {
            self.lemma_entries();
        }
        &self.names[i]
    }

    /// The balance of the account at a position below [`Ledger::len`].
    pub fn balance_at(&self, i: usize) -> (b: i64)
        requires
            self.wf(),
            i < self.keys().len(),
        ensures
            b == self@[self.keys()[i as int]],
            b >= 0,
    {
        proof {
            self.lemma_entries();
        }
        self.balances[i]
    }

    /// Where the ledger keeps an account, if it knows it.
    fn position(&self, address: &Address) -> (r: Option<usize>)
        requires
            self.names@.len() == self.balances@.len(),
        ensures
            match r {
                Some(i) => i < self.keys().len() && self.keys()[i as int] == address@,
                None => !self.keys().contains(address@),
            },
    {
        let mut i: usize = 0;
        while i < self.names.len()
            invariant
                i <= self.names@.len(),
                forall|k: int| 0 <= k < i ==> self.keys()[k] != address@,
            decreases self.names@.len() - i,
        {
            if self.names[i] == *address {
                return Some(i);
            }
            i += 1;
        }
        None
    }

    /// The balance of an account, if the ledger knows it.
    pub fn get(&self, address: &Address) -> (r: Option<i64>)
        requires
            self.wf(),
        ensures
            r == if self@.contains_key(address@) {
                Some(self@[address@] as i64)
            } else {
                None
            },
            r matches Some(b) ==> b == self@[address@] && b >= 0,
    {
        proof {
            self.lemma_entries();
        }
        match self.position(address) {
            Some(i) => Some(self.balances[i]),
            None => None,
        }
    }

    /// Overwrites the balance of the account kept at `i`.
    fn set_balance(&mut self, i: usize, value: i64)
        requires
            old(self).names@.len() == old(self).balances@.len(),
            old(self).keys().no_duplicates(),
            i < old(self).keys().len(),
        ensures
            final(self).names@ == old(self).names@,
            final(self).keys() == old(self).keys(),
            final(self).balances@ == old(self).balances@.update(i as int, value),
            final(self)@ == old(self)@.insert(old(self).keys()[i as int], value as int),
    {
        self.balances.set(i, value);
        proof {
            assert(self.keys() =~= old(self).keys());
            old(self).lemma_entries();
            self.lemma_entries();
            let target = old(self)@.insert(old(self).keys()[i as int], value as int);
            assert forall|a: Seq<u8>| self@.contains_key(a) implies #[trigger] self@[a]
                == target[a] by {
                let k = self.keys().index_of(a);
                assert(self.keys()[k] == a);
            }
            assert(self@ =~= target);
        }
    }

    /// Adds an account that the ledger does not know yet.
    fn open_account(&mut self, address: &Address, value: i64)
        requires
            old(self).names@.len() == old(self).balances@.len(),
            old(self).keys().no_duplicates(),
            !old(self).keys().contains(address@),
        ensures
            final(self).names@.len() == final(self).balances@.len(),
            final(self).keys() == old(self).keys().push(address@),
            final(self).keys().no_duplicates(),
            final(self).balances@ == old(self).balances@.push(value),
            final(self)@ == old(self)@.insert(address@, value as int),
    {
        self.names.push(address.clone());
        self.balances.push(value);
        proof {
            assert(self.keys() =~= old(self).keys().push(address@));
            old(self).lemma_entries();
            self.lemma_entries();
            let target = old(self)@.insert(address@, value as int);
            assert forall|a: Seq<u8>| self@.contains_key(a) implies #[trigger] self@[a]
                == target[a] by {
                let k = self.keys().index_of(a);
                assert(self.keys()[k] == a);
                if k < old(self).keys().len() {
                    assert(old(self).keys()[k] == a);
                }
            }
            assert forall|a: Seq<u8>| old(self)@.contains_key(a) implies self@.contains_key(
                a,
            ) by {
                let k = old(self).keys().index_of(a);
                assert(self.keys()[k] == a);
            }
            assert(self@.contains_key(address@)) by {
                assert(self.keys()[self.keys().len() - 1] == address@);
            }
            assert(self@ =~= target);
        }
    }

    /// Adds `amount` to an account, creating it where the ledger does not
    /// know it yet.
    pub fn deposit(&mut self, address: &Address, amount: i64)
        requires
            old(self).wf(),
            amount >= 0,
            old(self).total() + amount <= i64::MAX,
        ensures
            final(self).wf(),
            final(self)@ == credit(old(self)@, address@, amount as int),
            final(self).total() == old(self).total() + amount,
            final(self).keys() == if old(self)@.contains_key(address@) {
                old(self).keys()
            } else {
                old(self).keys().push(address@)
            },
    {
        proof {
            self.lemma_entries();
        }
        match self.position(address) {
            Some(i) => {
                proof {
                    lemma_sum_bounds(self.balances@, i as int);
                    lemma_sum_update(
                        self.balances@,
                        i as int,
                        (self.balances@[i as int] + amount) as i64,
                    );
                }
                let raised = self.balances[i] + amount;
                self.set_balance(i, raised);
            },
            None => {
                proof {
                    lemma_sum_push(self.balances@, amount);
                }
                self.open_account(address, amount);
            },
        }
    }

    /// All balances of the ledger together.
    pub fn total_balance(&self) -> (r: i64)
        requires
            self.wf(),
        ensures
            r == self.total(),
            r >= 0,
    {
        let mut r: i64 = 0;
        let mut i: usize = 0;
        while i < self.balances.len()
            invariant
                i <= self.balances@.len(),
                self.wf(),
                r == sum(self.balances@.take(i as int)),
            decreases self.balances@.len() - i,
        {
            proof {
                assert(self.balances@.take(i + 1).drop_last() =~= self.balances@.take(i as int));
                lemma_sum_prefix(self.balances@, i + 1);
            }
            r = r + self.balances[i];
            i += 1;
        }
        proof {
            assert(self.balances@.take(i as int) =~= self.balances@);
            lemma_sum_nonnegative(self.balances@);
        }
        r
    }

    /// Merges a batch of balances into the ledger, each added to what its
    /// account holds. A batch with an entry that has no address or a negative
    /// balance is refused as a whole, and so is one that the ledger cannot
    /// hold; the ledger is then left as it was.
    pub fn add_balance(&mut self, entries: &[(Address, i64)]) -> (r: Result<(), String>)
        requires
            old(self).wf(),
        ensures
            final(self).wf(),
            forall|a: Seq<u8>| old(self)@.contains_key(a) ==> final(self)@.contains_key(a),
            match r {
                Ok(_) => {
                    &&& batch_refusal(entry_views(entries@)) is None
                    &&& old(self).total() + deposits(entry_views(entries@)) <= i64::MAX
                    &&& final(self)@ == merged(old(self)@, entry_views(entries@))
                    &&& final(self).total() == old(self).total() + deposits(entry_views(entries@))
                },
                Err(e) => {
                    &&& *final(self) == *old(self)
                    &&& match batch_refusal(entry_views(entries@)) {
                        Some(message) => e@ == message,
                        None => old(self).total() + deposits(entry_views(entries@)) > i64::MAX
                            && e@ == balance_range_message(),
                    }
                },
            },
    {
        let ghost batch = entry_views(entries@);
        let mut i: usize = 0;
        while i < entries.len()
            invariant
                i <= entries@.len(),
                batch == entry_views(entries@),
                batch_refusal(batch.take(i as int)) is None,
                *self == *old(self),
                self.wf(),
            decreases entries@.len() - i,
        {
            proof {
                assert(batch.take(i + 1).drop_last() =~= batch.take(i as int));
                assert(batch.take(i + 1).last() == batch[i as int]);
            }
            if entries[i].0.is_empty() {
                proof {
                    lemma_refusal_stands(batch, i + 1);
                }
                return Err("address cannot be empty".to_string());
            }
            if entries[i].1 < 0 {
                proof {
                    lemma_refusal_stands(batch, i + 1);
                }
                return Err("balance must be non-negative".to_string());
            }
            i += 1;
        }
        proof {
            assert(batch.take(i as int) =~= batch);
        }
        let mut room: i64 = i64::MAX - self.total_balance();
        let mut k: usize = 0;
        while k < entries.len()
            invariant
                k <= entries@.len(),
                batch == entry_views(entries@),
                batch_refusal(batch) is None,
                *self == *old(self),
                self.wf(),
                room == i64::MAX - self.total() - deposits(batch.take(k as int)),
                room >= 0,
            decreases entries@.len() - k,
        {
            proof {
                assert(batch.take(k + 1).drop_last() =~= batch.take(k as int));
                assert(batch.take(k + 1).last() == batch[k as int]);
                lemma_deposits_nonnegative(batch, k as int);
                lemma_deposits_nonnegative(batch, k + 1);
            }
            if entries[k].1 > room {
                return Err("balances exceed the supported range".to_string());
            }
            room = room - entries[k].1;
            k += 1;
        }
        proof {
            assert(batch.take(k as int) =~= batch);
        }
        let mut j: usize = 0;
        while j < entries.len()
            invariant
                j <= entries@.len(),
                batch == entry_views(entries@),
                batch_refusal(batch) is None,
                old(self).total() + deposits(batch) <= i64::MAX,
                self.wf(),
                self@ == merged(old(self)@, batch.take(j as int)),
                self.total() == old(self).total() + deposits(batch.take(j as int)),
                forall|a: Seq<u8>| old(self)@.contains_key(a) ==> self@.contains_key(a),
            decreases entries@.len() - j,
        {
            proof {
                assert(batch.take(j + 1).drop_last() =~= batch.take(j as int));
                assert(batch.take(j + 1).last() == batch[j as int]);
                lemma_deposits_nonnegative(batch, j as int);
                lemma_deposits_nonnegative(batch, j + 1);
            }
            self.deposit(&entries[j].0, entries[j].1);
            j += 1;
        }
        proof {
            assert(batch.take(j as int) =~= batch);
        }
        Ok(())
    }

    /// Carries out one transfer if the payer can afford amount and fee
    /// together, and leaves the ledger as it was if not. `system` names the
    /// account that receives the fee.
    pub fn transfer(&mut self, tx: &Transaction, system: &Address) -> (done: bool)
        requires
            old(self).wf(),
            system@ == system_key(),
            tx@.amount >= 0,
            tx@.fee >= 0,
        ensures
            final(self).wf(),
            final(self).total() == old(self).total(),
            match apply_tx(old(self)@, tx@) {
                Some(next) => done && final(self)@ == next,
                None => !done && final(self)@ == old(self)@,
            },
    {
        proof {
            self.lemma_entries();
        }
        match self.position(&tx.from) {
            Some(i) => {
                let available = self.balances[i];
                if tx.amount > available || tx.fee > available - tx.amount {
                    return false;
                }
                let left = available - tx.amount - tx.fee;
                proof {
                    lemma_sum_update(self.balances@, i as int, left);
                }
                self.set_balance(i, left);
            },
            None => {
                if tx.amount > 0 || tx.fee > 0 {
                    return false;
                }
                proof {
                    lemma_sum_push(self.balances@, 0);
                }
                self.open_account(&tx.from, 0);
            },
        }
        assert(self@ == credit(old(self)@, tx@.from, -(tx@.amount + tx@.fee)));
        self.deposit(system, tx.fee);
        self.deposit(&tx.to, tx.amount);
        true
    }
}

impl Clone for Ledger {
    fn clone(&self) -> (r: Self)
        ensures
            r@ == self@,
            r.keys() == self.keys(),
            r.total() == self.total(),
            self.wf() ==> r.wf(),
    {
        let r = Ledger { names: self.names.clone(), balances: self.balances.clone() };
        proof {
            assert(r.balances@ =~= self.balances@);
            assert(r.keys() =~= self.keys());
            assert(r@ =~= self@);
        }
        r
    }
}

} // verus!
