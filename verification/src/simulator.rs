//! The balance simulator: what a candidate does to a ledger.

use vstd::prelude::*;
use crate::address::system_address;
use crate::ledger::Ledger;
use crate::model::{
    lemma_picked_prefix, lemma_replay_failure_extends, lemma_schedule_prefix, picked, replay,
    schedule,
};
use crate::transaction::{Request, TxView};

verus! {

/// The views of a run of requests, in order.
pub open spec fn request_views(requests: Seq<Request>) -> Seq<Seq<TxView>> {
    Seq::new(requests.len(), |i: int| requests[i]@)
}

/// The views of the masks of a candidate, one for each request.
pub open spec fn mask_views(masks: Seq<Vec<bool>>) -> Seq<Seq<bool>> {
    Seq::new(masks.len(), |i: int| masks[i]@)
}

/// Every request of the run holds valid transfers only.
pub open spec fn all_wf(requests: Seq<Request>) -> bool {
    forall|i: int| 0 <= i < requests.len() ==> (#[trigger] requests[i]).wf()
}

/// Every entry of the order names a request that has a mask.
pub open spec fn order_in_range(order: Seq<usize>, requests: nat, masks: nat) -> bool {
    forall|k: int| 0 <= k < order.len() ==> (#[trigger] order[k]) < requests && order[k] < masks
}

/// The execution list of a candidate over executable values.
pub open spec fn execution_list(
    requests: Seq<Request>,
    selected: Seq<Vec<bool>>,
    request_order: Seq<usize>,
) -> Seq<TxView> {
    schedule(request_views(requests), mask_views(selected), request_order)
}

/// Runs a candidate against a ledger: the requests in the given order, the
/// included transfers of each in their stored order. The result is the
/// ledger after the last transfer, or nothing as soon as one transfer cannot
/// be paid for.
pub fn evaluate(
    balance: Ledger,
    requests: &[Request],
    selected: &[Vec<bool>],
    request_order: &[usize],
) -> (r: Option<Ledger>)
    requires
        balance.wf(),
        all_wf(requests@),
        order_in_range(request_order@, requests@.len(), selected@.len()),
    ensures
        match replay(balance@, execution_list(requests@, selected@, request_order@)) {
            Some(after) => r matches Some(ledger) && ledger@ == after && ledger.wf()
                && ledger.total() == balance.total(),
            None => r is None,
        },
{
    let ghost rv = request_views(requests@);
    let ghost mv = mask_views(selected@);
    let ghost whole = schedule(rv, mv, request_order@);
    let system = system_address();
    let mut ledger = balance;
    let mut k: usize = 0;
    while k < request_order.len()
        invariant
            k <= request_order@.len(),
            all_wf(requests@),
            order_in_range(request_order@, requests@.len(), selected@.len()),
            rv == request_views(requests@),
            mv == mask_views(selected@),
            whole == schedule(rv, mv, request_order@),
            system@ == crate::address::system_key(),
            ledger.wf(),
            ledger.total() == balance.total(),
            replay(balance@, schedule(rv, mv, request_order@.take(k as int))) == Some(ledger@),
        decreases request_order@.len() - k,
    {
        let req = request_order[k];
        let txs = requests[req].transactions();
        let selection = &selected[req];
        let ghost done = schedule(rv, mv, request_order@.take(k as int));
        let ghost request = rv[req as int];
        let ghost mask = mv[req as int];
        proof {
            assert(request_order@.take(k + 1).drop_last() =~= request_order@.take(k as int));
            assert(schedule(rv, mv, request_order@.take(k + 1)) == done + picked(request, mask));
            assert(request.take(0) =~= Seq::<TxView>::empty());
            assert(done + picked(request.take(0), mask) =~= done);
        }
        let mut t: usize = 0;
        while t < txs.len()
            invariant
                t <= txs@.len(),
                txs@.len() == request.len(),
                forall|j: int| 0 <= j < txs@.len() ==> (#[trigger] txs@[j])@ == request[j],
                forall|j: int| 0 <= j < request.len() ==> (#[trigger] request[j]).valid(),
                selection@ == mask,
                system@ == crate::address::system_key(),
                k < request_order@.len(),
                whole == schedule(rv, mv, request_order@),
                whole == execution_list(requests@, selected@, request_order@),
                done == schedule(rv, mv, request_order@.take(k as int)),
                schedule(rv, mv, request_order@.take(k + 1)) == done + picked(request, mask),
                ledger.wf(),
                ledger.total() == balance.total(),
                replay(balance@, done + picked(request.take(t as int), mask)) == Some(ledger@),
            decreases txs@.len() - t,
        {
            let ghost so_far = done + picked(request.take(t as int), mask);
            proof {
                assert(request.take(t + 1).drop_last() =~= request.take(t as int));
                assert(request.take(t + 1).last() == request[t as int]);
            }
            if t < selection.len() && selection[t] {
                proof {
                    assert(done + picked(request.take(t + 1), mask) =~= so_far.push(
                        request[t as int],
                    ));
                    assert(so_far.push(request[t as int]).drop_last() =~= so_far);
                }
                if !ledger.transfer(&txs[t], &system) {
                    proof {
                        let failed = done + picked(request.take(t + 1), mask);
                        lemma_picked_prefix(request, mask, t + 1);
                        let block = done + picked(request, mask);
                        assert(failed.is_prefix_of(block));
                        lemma_replay_failure_extends(balance@, failed, block);
                        lemma_schedule_prefix(rv, mv, request_order@, k + 1);
                        lemma_replay_failure_extends(balance@, block, whole);
                    }
                    return None;
                }
            }
            t += 1;
        }
        proof {
            assert(request.take(t as int) =~= request);
        }
        k += 1;
    }
    proof {
        assert(request_order@.take(k as int) =~= request_order@);
    }
    Some(ledger)
}

} // verus!
