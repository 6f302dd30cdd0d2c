//! Candidates: one full choice of what to include and in which order to
//! run it, with what the simulator made of it.

use vstd::prelude::*;
use crate::address::system_key;
use crate::generator::is_permutation;
use crate::ledger::Ledger;
use crate::model::{balance_of, replay};
use crate::simulator::execution_list;
use crate::transaction::Request;

verus! {

/// A scored candidate: the ledger it leaves (none if it cannot be paid for),
/// its fitness, its inclusion mask and its request order.
pub type Candidate = (Option<Ledger>, i64, Vec<Vec<bool>>, Vec<usize>);

/// The fitness of a candidate that cannot be paid for: below every fee total
/// that a feasible candidate can reach.
pub const INFEASIBLE: i64 = -1;

/// The ledger and the fitness of a candidate are what the simulator gives
/// for its mask and order: the system account's balance where the candidate
/// is feasible, [`INFEASIBLE`] where it is not.
pub open spec fn scored(balance: Ledger, requests: Seq<Request>, candidate: Candidate) -> bool {
    match replay(balance@, execution_list(requests, candidate.2@, candidate.3@)) {
        Some(after) => {
            &&& candidate.0 matches Some(ledger)
            &&& ledger@ == after
            &&& ledger.wf()
            &&& ledger.total() == balance.total()
            &&& candidate.1 == balance_of(after, system_key())
            &&& candidate.1 > INFEASIBLE
        },
        None => candidate.0 is None && candidate.1 == INFEASIBLE,
    }
}

/// A mask and an order make a candidate for the requests: the order holds
/// each request once, and the mask has an entry for each transfer.
pub open spec fn is_candidate(
    requests: Seq<Request>,
    selected: Seq<Vec<bool>>,
    request_order: Seq<usize>,
) -> bool {
    &&& is_permutation(request_order, requests.len())
    &&& selected.len() == requests.len()
    &&& forall|r: int|
        0 <= r < requests.len() ==> (#[trigger] selected[r])@.len() == requests[r]@.len()
}

/// The fitness of each candidate, in order.
pub open spec fn fitnesses(candidates: Seq<Candidate>) -> Seq<i64> {
    Seq::new(candidates.len(), |i: int| candidates[i].1)
}

} // verus!
