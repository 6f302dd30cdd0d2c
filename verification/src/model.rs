//! The mathematical model of a ledger and of what a run of transfers does to
//! it. Everything here is specification; the executable ledger and the
//! simulator are proved against it.

use vstd::prelude::*;
use crate::address::system_key;
use crate::transaction::TxView;

verus! {

/// A ledger as a mathematical object: a balance for each account it knows.
pub type Balances = Map<Seq<u8>, int>;

/// The balance of an account; an account the ledger does not know has none.
pub open spec fn balance_of(ledger: Balances, account: Seq<u8>) -> int {
    if ledger.contains_key(account) {
        ledger[account]
    } else {
        0
    }
}

/// The ledger after `delta` is added to an account, which is created at zero
/// first where the ledger does not know it.
pub open spec fn credit(ledger: Balances, account: Seq<u8>, delta: int) -> Balances {
    ledger.insert(account, balance_of(ledger, account) + delta)
}

/// No account of the ledger is overdrawn.
pub open spec fn solvent(ledger: Balances) -> bool {
    forall|a: Seq<u8>| #[trigger] ledger.contains_key(a) ==> ledger[a] >= 0
}

/// One transfer. It goes through only if the payer can afford amount and fee
/// together; then the payer is debited, the fee goes to the system account
/// and the amount to the payee. Otherwise there is no resulting ledger.
pub open spec fn apply_tx(ledger: Balances, tx: TxView) -> Option<Balances> {
    if balance_of(ledger, tx.from) - tx.amount - tx.fee >= 0 {
        let debited = credit(ledger, tx.from, -(tx.amount + tx.fee));
        let charged = credit(debited, system_key(), tx.fee);
        Some(credit(charged, tx.to, tx.amount))
    } else {
        None
    }
}

/// A run of transfers, applied first to last. The first transfer that does
/// not go through leaves the whole run without a result.
pub open spec fn replay(ledger: Balances, txs: Seq<TxView>) -> Option<Balances>
    decreases txs.len(),
{
    if txs.len() == 0 {
        Some(ledger)
    } else {
        match replay(ledger, txs.drop_last()) {
            Some(before) => apply_tx(before, txs.last()),
            None => None,
        }
    }
}

/// The transfers of one request that a mask includes, in their stored order.
/// A transfer beyond the end of the mask is not included.
pub open spec fn picked(request: Seq<TxView>, mask: Seq<bool>) -> Seq<TxView>
    decreases request.len(),
{
    if request.len() == 0 {
        Seq::empty()
    } else {
        let earlier = picked(request.drop_last(), mask);
        if request.len() <= mask.len() && mask[request.len() - 1] {
            earlier.push(request.last())
        } else {
            earlier
        }
    }
}

/// The execution list of a candidate: the requests in the chosen order, each
/// as one contiguous block of the transfers that its mask includes.
pub open spec fn schedule(
    requests: Seq<Seq<TxView>>,
    masks: Seq<Seq<bool>>,
    order: Seq<usize>,
) -> Seq<TxView>
    decreases order.len(),
{
    if order.len() == 0 {
        Seq::empty()
    } else {
        schedule(requests, masks, order.drop_last()) + picked(
            requests[order.last() as int],
            masks[order.last() as int],
        )
    }
}

/// The sum of the fees of a run of transfers.
pub open spec fn total_fees(txs: Seq<TxView>) -> int
    decreases txs.len(),
{
    if txs.len() == 0 {
        0
    } else {
        total_fees(txs.drop_last()) + txs.last().fee
    }
}

/// Every transfer of the run is valid.
pub open spec fn all_valid(txs: Seq<TxView>) -> bool {
    forall|i: int| 0 <= i < txs.len() ==> (#[trigger] txs[i]).valid()
}

/// A run that has failed stays failed however it is continued.
pub proof fn lemma_replay_failure_extends(ledger: Balances, part: Seq<TxView>, whole: Seq<TxView>)
    requires
        part.is_prefix_of(whole),
        replay(ledger, part) is None,
    ensures
        replay(ledger, whole) is None,
    decreases whole.len(),
{
    if part.len() == whole.len() {
        assert(part =~= whole);
    } else {
        assert(part.is_prefix_of(whole.drop_last()));
        lemma_replay_failure_extends(ledger, part, whole.drop_last());
    }
}

/// What a mask picks from the first transfers of a request opens what it
/// picks from the whole request.
pub proof fn lemma_picked_prefix(request: Seq<TxView>, mask: Seq<bool>, n: int)
    requires
        0 <= n <= request.len(),
    ensures
        picked(request.take(n), mask).is_prefix_of(picked(request, mask)),
    decreases request.len() - n,
{
    if n == request.len() {
        assert(request.take(n) =~= request);
    } else {
        lemma_picked_prefix(request, mask, n + 1);
        assert(request.take(n + 1).drop_last() =~= request.take(n));
    }
}

/// The execution list of the first requests in the order opens the
/// execution list of the whole order.
pub proof fn lemma_schedule_prefix(
    requests: Seq<Seq<TxView>>,
    masks: Seq<Seq<bool>>,
    order: Seq<usize>,
    n: int,
)
    requires
        0 <= n <= order.len(),
    ensures
        schedule(requests, masks, order.take(n)).is_prefix_of(schedule(requests, masks, order)),
    decreases order.len() - n,
{
    if n == order.len() {
        assert(order.take(n) =~= order);
    } else {
        lemma_schedule_prefix(requests, masks, order, n + 1);
        assert(order.take(n + 1).drop_last() =~= order.take(n));
    }
}

/// Every transfer that a mask picks is a transfer of the request.
pub proof fn lemma_picked_valid(request: Seq<TxView>, mask: Seq<bool>)
    requires
        all_valid(request),
    ensures
        all_valid(picked(request, mask)),
    decreases request.len(),
{
    if request.len() > 0 {
        assert(all_valid(request.drop_last())) by {
            assert forall|i: int| 0 <= i < request.drop_last().len() implies (
            #[trigger] request.drop_last()[i]).valid() by {
                assert(request[i].valid());
            }
        }
        lemma_picked_valid(request.drop_last(), mask);
        assert(request.last() == request[request.len() - 1]);
    }
}

/// An execution list made from valid requests holds valid transfers only.
pub proof fn lemma_schedule_valid(
    requests: Seq<Seq<TxView>>,
    masks: Seq<Seq<bool>>,
    order: Seq<usize>,
)
    requires
        forall|r: int| 0 <= r < requests.len() ==> all_valid(#[trigger] requests[r]),
        forall|k: int| 0 <= k < order.len() ==> (#[trigger] order[k]) < requests.len(),
    ensures
        all_valid(schedule(requests, masks, order)),
    decreases order.len(),
{
    if order.len() > 0 {
        lemma_schedule_valid(requests, masks, order.drop_last());
        let last = order.last() as int;
        assert(order[order.len() - 1] < requests.len());
        lemma_picked_valid(requests[last], masks[last]);
    }
}

/// A run that goes through forgets no account: what the ledger knew before,
/// it knows after.
pub proof fn lemma_replay_keeps_accounts(ledger: Balances, txs: Seq<TxView>)
    requires
        replay(ledger, txs) is Some,
    ensures
        forall|a: Seq<u8>|
            ledger.contains_key(a) ==> #[trigger] (replay(ledger, txs)->0).contains_key(a),
    decreases txs.len(),
{
    if txs.len() > 0 {
        lemma_replay_keeps_accounts(ledger, txs.drop_last());
    }
}

/// A valid transfer that goes through leaves a solvent ledger solvent, and
/// the system account richer by exactly its fee.
pub proof fn lemma_apply_valid(ledger: Balances, tx: TxView)
    requires
        tx.valid(),
        apply_tx(ledger, tx) is Some,
    ensures
        solvent(ledger) ==> solvent(apply_tx(ledger, tx)->0),
        balance_of(apply_tx(ledger, tx)->0, system_key()) == balance_of(ledger, system_key())
            + tx.fee,
{
    let debited = credit(ledger, tx.from, -(tx.amount + tx.fee));
    let charged = credit(debited, system_key(), tx.fee);
    let after = credit(charged, tx.to, tx.amount);
    if solvent(ledger) {
        assert(solvent(debited));
        assert(solvent(charged));
        assert(solvent(after));
    }
}

/// Feasibility: where a run of valid transfers goes through on a solvent
/// ledger, every transfer of it goes through in its turn, and no balance is
/// negative after any of them.
pub proof fn lemma_replay_never_overdraws(ledger: Balances, txs: Seq<TxView>, n: int)
    requires
        solvent(ledger),
        all_valid(txs),
        replay(ledger, txs) is Some,
        0 <= n <= txs.len(),
    ensures
        replay(ledger, txs.take(n)) is Some,
        solvent(replay(ledger, txs.take(n))->0),
    decreases txs.len(),
{
    if txs.len() == 0 {
        assert(txs.take(n) =~= txs);
    } else {
        let earlier = txs.drop_last();
        assert(all_valid(earlier)) by {
            assert forall|i: int| 0 <= i < earlier.len() implies (#[trigger] earlier[i]).valid() by {
                assert(txs[i].valid());
            }
        }
        if n == txs.len() {
            assert(txs.take(n) =~= txs);
            lemma_replay_never_overdraws(ledger, earlier, n - 1);
            assert(earlier.take(n - 1) =~= earlier);
            assert(txs.last() == txs[txs.len() - 1]);
            lemma_apply_valid(replay(ledger, earlier)->0, txs.last());
        } else {
            lemma_replay_never_overdraws(ledger, earlier, n);
            assert(earlier.take(n) =~= txs.take(n));
        }
    }
}

/// Fee accounting: a run of valid transfers that goes through leaves the
/// system account with what it had and the fees of the run, so never with
/// less than it had.
pub proof fn lemma_replay_collects_fees(ledger: Balances, txs: Seq<TxView>)
    requires
        all_valid(txs),
        replay(ledger, txs) is Some,
    ensures
        balance_of(replay(ledger, txs)->0, system_key()) == balance_of(ledger, system_key())
            + total_fees(txs),
        total_fees(txs) >= 0,
    decreases txs.len(),
{
    if txs.len() > 0 {
        let earlier = txs.drop_last();
        assert(all_valid(earlier)) by {
            assert forall|i: int| 0 <= i < earlier.len() implies (#[trigger] earlier[i]).valid() by {
                assert(txs[i].valid());
            }
        }
        lemma_replay_collects_fees(ledger, earlier);
        assert(txs.last() == txs[txs.len() - 1]);
        lemma_apply_valid(replay(ledger, earlier)->0, txs.last());
    }
}

} // verus!
