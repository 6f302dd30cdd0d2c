//! The population search: generations of random candidates, of which the
//! best shape the weights that the next generation is drawn from.

use vstd::prelude::*;
use fastrand::Rng;
use rayon::iter::{IndexedParallelIterator, IntoParallelIterator, ParallelIterator};
use crate::address::{system_address, system_key};
use crate::candidate::{fitnesses, is_candidate, scored, Candidate, INFEASIBLE};
use crate::elite::{is_elite, rank_elite};
use crate::generator::{
    is_permutation, mask_follows, prioritized_left_shuffling, random_selection, zero_weights_last,
};
use crate::learning::{learn, learned};
use crate::ledger::Ledger;
use crate::model::{
    all_valid, balance_of, lemma_replay_collects_fees, lemma_replay_never_overdraws,
    lemma_schedule_valid, picked, replay, schedule, solvent, total_fees,
};
use crate::simulator::{all_wf, evaluate, execution_list, mask_views, order_in_range, request_views};
use crate::transaction::{tx_views, Request, Transaction, TxView};

verus! {

/// What holds of every candidate that an agent can come back with.
pub open spec fn agent_outcome(
    balance: Ledger,
    requests: Seq<Request>,
    initial_weights: Seq<Vec<usize>>,
    weight_upper_bound: usize,
    request_order_weight: Seq<usize>,
    candidate: Candidate,
) -> bool {
    &&& mask_follows(initial_weights, weight_upper_bound, candidate.2@)
    &&& is_permutation(candidate.3@, request_order_weight.len())
    &&& zero_weights_last(request_order_weight, candidate.3@)
    &&& scored(balance, requests, candidate)
}

/// What an agent needs: a well-formed ledger and valid requests, and an
/// order weight only for requests that exist and have inclusion weights.
pub open spec fn agent_ready(
    balance: Ledger,
    requests: Seq<Request>,
    initial_weights: Seq<Vec<usize>>,
    request_order_weight: Seq<usize>,
) -> bool {
    &&& balance.wf()
    &&& all_wf(requests)
    &&& request_order_weight.len() <= requests.len()
    &&& request_order_weight.len() <= initial_weights.len()
}

/// One agent: draws a request order and an inclusion mask from the weights
/// and scores the candidate on its own copy of the ledger.
pub fn search_agent(
    balance: Ledger,
    requests: &[Request],
    initial_weights: &[Vec<usize>],
    weight_upper_bound: usize,
    request_order_weight: &Vec<usize>,
    order_max_weight_limit: usize,
) -> (candidate: Candidate)
    requires
        agent_ready(balance, requests@, initial_weights@, request_order_weight@),
    ensures
        agent_outcome(
            balance,
            requests@,
            initial_weights@,
            weight_upper_bound,
            request_order_weight@,
            candidate,
        ),
{
    let rng = Rng::new();
    let request_order = prioritized_left_shuffling(
        request_order_weight.clone(),
        order_max_weight_limit,
    );
    let selected = random_selection(initial_weights, weight_upper_bound, &rng);
    let after = evaluate(balance, requests, selected.as_slice(), request_order.as_slice());
    let system_balance = match &after {
        Some(ledger) => match ledger.get(&system_address()) {
            Some(collected) => collected,
            None => 0,
        },
        None => INFEASIBLE,
    };
    (after, system_balance, selected, request_order)
}

/// One agent on a copy of the shared ledger.
fn run_agent(
    balance: &Ledger,
    requests: &[Request],
    initial_weights: &[Vec<usize>],
    weight_upper_bound: usize,
    request_order_weight: &Vec<usize>,
    order_max_weight_limit: usize,
) -> (candidate: Candidate)
    requires
        agent_ready(*balance, requests@, initial_weights@, request_order_weight@),
    ensures
        agent_outcome(
            *balance,
            requests@,
            initial_weights@,
            weight_upper_bound,
            request_order_weight@,
            candidate,
        ),
{
    search_agent(
        balance.clone(),
        requests,
        initial_weights,
        weight_upper_bound,
        request_order_weight,
        order_max_weight_limit,
    )
}

/// rayon's `into_par_iter` on a range, `map` and `collect_into_vec`: one
/// agent for each index below `population_size`, run on the worker pool, the
/// candidates collected in index order into `agents_results`, which is
/// cleared first. The claim is that the vector then holds `population_size`
/// values, each of them a value that one call of the agent returned.
#[verifier::external_body]
fn spawn_population(
    balance: &Ledger,
    requests: &[Request],
    initial_weights: &[Vec<usize>],
    weight_upper_bound: usize,
    request_order_weight: &Vec<usize>,
    order_max_weight_limit: usize,
    population_size: usize,
    agents_results: &mut Vec<Candidate>,
)
    requires
        agent_ready(*balance, requests@, initial_weights@, request_order_weight@),
    ensures
        final(agents_results)@.len() == population_size,
        forall|i: int|
            0 <= i < population_size ==> agent_outcome(
                *balance,
                requests@,
                initial_weights@,
                weight_upper_bound,
                request_order_weight@,
                #[trigger] final(agents_results)@[i],
            ),
{
    (0..population_size).into_par_iter().map(
        |_| run_agent(
            balance,
            requests,
            initial_weights,
            weight_upper_bound,
            request_order_weight,
            order_max_weight_limit,
        ),
    ).collect_into_vec(agents_results);
}

/// The transfers that a candidate runs, in execution order: the requests in
/// the chosen order, the included transfers of each in their stored order.
pub fn chosen_transactions(
    requests: &[Request],
    selected: &[Vec<bool>],
    request_order: &[usize],
) -> (txs: Vec<Transaction>)
    requires
        order_in_range(request_order@, requests@.len(), selected@.len()),
    ensures
        tx_views(txs@) == execution_list(requests@, selected@, request_order@),
{
    let ghost rv = request_views(requests@);
    let ghost mv = mask_views(selected@);
    let mut txs: Vec<Transaction> = Vec::new();
    let mut k: usize = 0;
    proof {
        assert(tx_views(txs@) =~= schedule(rv, mv, request_order@.take(0)));
    }
    while k < request_order.len()
        invariant
            k <= request_order@.len(),
            order_in_range(request_order@, requests@.len(), selected@.len()),
            rv == request_views(requests@),
            mv == mask_views(selected@),
            tx_views(txs@) == schedule(rv, mv, request_order@.take(k as int)),
        decreases request_order@.len() - k,
    {
        let req = request_order[k];
        let stored = requests[req].transactions();
        let selection = &selected[req];
        let ghost done = schedule(rv, mv, request_order@.take(k as int));
        let ghost request = rv[req as int];
        let ghost mask = mv[req as int];
        proof {
            assert(request_order@.take(k + 1).drop_last() =~= request_order@.take(k as int));
            assert(request.take(0) =~= Seq::<TxView>::empty());
            assert(done + picked(request.take(0), mask) =~= done);
        }
        let mut t: usize = 0;
        while t < stored.len()
            invariant
                t <= stored@.len(),
                stored@.len() == request.len(),
                forall|j: int| 0 <= j < stored@.len() ==> (#[trigger] stored@[j])@ == request[j],
                selection@ == mask,
                tx_views(txs@) == done + picked(request.take(t as int), mask),
            decreases stored@.len() - t,
        {
            proof {
                assert(request.take(t + 1).drop_last() =~= request.take(t as int));
                assert(request.take(t + 1).last() == request[t as int]);
            }
            if t < selection.len() && selection[t] {
                let ghost listed = tx_views(txs@);
                txs.push(stored[t].clone());
                proof {
                    assert(tx_views(txs@) =~= listed.push(request[t as int]));
                    assert(done + picked(request.take(t + 1), mask) =~= listed.push(
                        request[t as int],
                    ));
                }
            }
            t += 1;
        }
        proof {
            assert(request.take(t as int) =~= request);
        }
        k += 1;
    }
    proof {
        assert(request_order@.take(k as int) =~= request_order@);
    }
    txs
}

/// The answer that the search gives for its last incumbent: the transfers
/// and the ledger of a feasible incumbent, and no transfer and the ledger as
/// it was where there is no incumbent or the incumbent is not feasible.
pub fn conclude(balance: &Ledger, requests: &[Request], incumbent: Option<Candidate>) -> (r: (
    Vec<Transaction>,
    Ledger,
))
    requires
        incumbent matches Some(c) ==> order_in_range(c.3@, requests@.len(), c.2@.len()),
    ensures
        match incumbent {
            Some((Some(ledger), _, selected, request_order)) => r.1 == ledger && tx_views(r.0@)
                == execution_list(requests@, selected@, request_order@),
            _ => r.0@.len() == 0 && r.1@ == balance@ && r.1.keys() == balance.keys()
                && r.1.total() == balance.total() && (balance.wf() ==> r.1.wf()),
        },
{
    match incumbent {
        Some((Some(ledger), _, selected, request_order)) => {
            let txs = chosen_transactions(requests, selected.as_slice(), request_order.as_slice());
            (txs, ledger)
        },
        _ => (Vec::new(), balance.clone()),
    }
}

/// What holds of every answer of the search: the transfers, replayed in
/// order against the ledger that the search started from, all go through
/// and leave the returned ledger; and where there are any, they are the
/// execution list of one candidate.
pub open spec fn search_outcome(
    balance: Ledger,
    requests: Seq<Request>,
    txs: Seq<Transaction>,
    ledger: Ledger,
) -> bool {
    &&& ledger.wf()
    &&& ledger.total() == balance.total()
    &&& replay(balance@, tx_views(txs)) == Some(ledger@)
    &&& txs.len() == 0 || exists|selected: Seq<Vec<bool>>, request_order: Seq<usize>|
        is_candidate(requests, selected, request_order) && tx_views(txs)
            == #[trigger] execution_list(requests, selected, request_order)
}

/// What ends a generation. The best `selection_size` candidates survive and
/// teach the weights, and the best of them is the new incumbent, whatever the
/// incumbent before it was worth; it is taken out of `agents_results`. From
/// now on the ceiling of the inclusion weights is the selection size.
/// Returns the positions of the survivors, best first, and the incumbent.
pub fn close_generation(
    agents_results: &mut Vec<Candidate>,
    selection_size: usize,
    selection_weights: &mut Vec<Vec<usize>>,
    weight_upper_bound: &mut usize,
    request_order_weight: &mut Vec<usize>,
    order_max_weight_limit: &mut usize,
) -> (r: (Vec<usize>, Option<Candidate>))
    requires
        forall|i: int|
            0 <= i < old(agents_results)@.len() ==> is_permutation(
                (#[trigger] old(agents_results)@[i]).3@,
                old(request_order_weight)@.len(),
            ),
        selection_size * old(request_order_weight)@.len() <= usize::MAX,
    ensures
        is_elite(fitnesses(old(agents_results)@), selection_size, r.0@),
        learned(
            old(agents_results)@,
            r.0@,
            old(selection_weights)@,
            old(request_order_weight)@.len(),
            final(selection_weights)@,
            final(request_order_weight)@,
            *final(order_max_weight_limit),
        ),
        *final(weight_upper_bound) == selection_size,
        r.1 == if r.0@.len() > 0 {
            Some(old(agents_results)@[r.0@[0] as int])
        } else {
            None
        },
{
    let elite = rank_elite(agents_results, selection_size);
    proof {
        let n = request_order_weight@.len();
        assert(elite@.len() * n <= selection_size * n) by (nonlinear_arith)
            requires
                elite@.len() <= selection_size,
        ;
    }
    learn(agents_results, &elite, selection_weights, request_order_weight, order_max_weight_limit);
    *weight_upper_bound = selection_size;
    let incumbent = if elite.len() > 0 {
        Some(agents_results.swap_remove(elite[0]))
    } else {
        None
    };
    (elite, incumbent)
}

/// A vector of `len` entries, each of them `value`.
fn filled(len: usize, value: usize) -> (v: Vec<usize>)
    ensures
        v@.len() == len,
        forall|i: int| 0 <= i < len ==> v@[i] == value,
{
    let mut v: Vec<usize> = Vec::with_capacity(len);
    let mut i: usize = 0;
    while i < len
        invariant
            i <= len,
            v@.len() == i,
            forall|j: int| 0 <= j < i ==> v@[j] == value,
        decreases len - i,
    {
        v.push(value);
        i += 1;
    }
    v
}

/// The transfers of an answer of the search over valid requests are valid.
pub proof fn lemma_outcome_valid(
    balance: Ledger,
    requests: Seq<Request>,
    txs: Seq<Transaction>,
    ledger: Ledger,
)
    requires
        all_wf(requests),
        search_outcome(balance, requests, txs, ledger),
    ensures
        all_valid(tx_views(txs)),
{
    if txs.len() > 0 {
        let (selected, request_order) = choose|selected: Seq<Vec<bool>>, request_order: Seq<usize>|
            is_candidate(requests, selected, request_order) && tx_views(txs)
                == #[trigger] execution_list(requests, selected, request_order);
        let views = request_views(requests);
        assert forall|r: int| 0 <= r < views.len() implies all_valid(#[trigger] views[r]) by {
            assert(requests[r].wf());
        }
        lemma_schedule_valid(views, mask_views(selected), request_order);
    }
}

/// Feasibility of every answer: replayed in order against the ledger that
/// the search started from, each transfer of the answer goes through in its
/// turn, and after none of them is any balance negative.
pub proof fn lemma_answer_never_overdraws(
    balance: Ledger,
    requests: Seq<Request>,
    txs: Seq<Transaction>,
    ledger: Ledger,
    n: int,
)
    requires
        balance.wf(),
        all_wf(requests),
        search_outcome(balance, requests, txs, ledger),
        0 <= n <= txs.len(),
    ensures
        replay(balance@, tx_views(txs).take(n)) is Some,
        solvent(replay(balance@, tx_views(txs).take(n))->0),
{
    balance.lemma_solvent();
    lemma_outcome_valid(balance, requests, txs, ledger);
    lemma_replay_never_overdraws(balance@, tx_views(txs), n);
}

/// Fee monotonicity of every answer: the system account ends with what it
/// had and the fees of the answer, so never with less than it had.
pub proof fn lemma_answer_collects_fees(
    balance: Ledger,
    requests: Seq<Request>,
    txs: Seq<Transaction>,
    ledger: Ledger,
)
    requires
        all_wf(requests),
        search_outcome(balance, requests, txs, ledger),
    ensures
        balance_of(ledger@, system_key()) == balance_of(balance@, system_key()) + total_fees(
            tx_views(txs),
        ),
        balance_of(ledger@, system_key()) >= balance_of(balance@, system_key()),
{
    lemma_outcome_valid(balance, requests, txs, ledger);
    lemma_replay_collects_fees(balance@, tx_views(txs));
}

/// The weights that the first generation is drawn from: every transfer of
/// every request has inclusion weight one under a ceiling of two, and every
/// request has order weight one under a ceiling of two.
pub open spec fn is_initial_state(
    requests: Seq<Request>,
    selection_weights: Seq<Vec<usize>>,
    weight_upper_bound: usize,
    request_order_weight: Seq<usize>,
    order_max_weight_limit: usize,
) -> bool {
    &&& selection_weights.len() == requests.len()
    &&& forall|r: int|
        0 <= r < requests.len() ==> (#[trigger] selection_weights[r])@.len() == requests[r]@.len()
    &&& forall|r: int, t: int|
        0 <= r < requests.len() && 0 <= t < selection_weights[r]@.len() ==> (
        #[trigger] selection_weights[r]@[t]) == 1
    &&& weight_upper_bound == 2
    &&& request_order_weight.len() == requests.len()
    &&& forall|q: int| 0 <= q < requests.len() ==> (#[trigger] request_order_weight[q]) == 1
    &&& order_max_weight_limit == 2
}

/// The state in which the search starts: the inclusion weights and their
/// ceiling, the order weights and their ceiling.
pub fn initial_state(requests: &[Request]) -> (r: (Vec<Vec<usize>>, usize, Vec<usize>, usize))
    ensures
        is_initial_state(requests@, r.0@, r.1, r.2@, r.3),
{
    let n = requests.len();
    let mut selection_weights: Vec<Vec<usize>> = Vec::with_capacity(n);
    let mut k: usize = 0;
    while k < n
        invariant
            k <= n,
            n == requests@.len(),
            selection_weights@.len() == k,
            forall|r: int|
                0 <= r < k ==> (#[trigger] selection_weights@[r])@.len() == requests@[r]@.len(),
            forall|r: int, t: int|
                0 <= r < k && 0 <= t < selection_weights@[r]@.len() ==> (
                #[trigger] selection_weights@[r]@[t]) == 1,
        decreases n - k,
    {
        selection_weights.push(filled(requests[k].len(), 1));
        k += 1;
    }
    (selection_weights, 2, filled(n, 1), 2)
}

/// The search: `num_generation` generations of `population_size` agents
/// each. After each generation the best `selection_size` candidates teach
/// the weights, and the best of them becomes the incumbent, whatever the
/// incumbent before it was worth. The answer is that of the last incumbent.
pub fn maximize_fee(
    balance: &Ledger,
    requests: &[Request],
    population_size: usize,
    selection_size: usize,
    num_generation: usize,
) -> (r: (Vec<Transaction>, Ledger))
    requires
        balance.wf(),
        all_wf(requests@),
        population_size >= selection_size,
        num_generation == 0 || selection_size * requests@.len() <= usize::MAX,
    ensures
        search_outcome(*balance, requests@, r.0@, r.1),
        all_valid(tx_views(r.0@)),
        solvent(r.1@),
        balance_of(r.1@, system_key()) == balance_of(balance@, system_key()) + total_fees(
            tx_views(r.0@),
        ),
        balance_of(r.1@, system_key()) >= balance_of(balance@, system_key()),
        num_generation == 0 || selection_size == 0 ==> r.0@.len() == 0 && r.1@ == balance@
            && r.1.keys() == balance.keys(),
{
    let n = requests.len();
    let (
        mut selection_weights,
        mut weight_upper_bound,
        mut request_order_weight,
        mut order_max_weight_limit,
    ) = initial_state(requests);
    let mut current_best_result: Option<Candidate> = None;
    let mut agents_results: Vec<Candidate> = Vec::new();
    let mut generation: usize = 0;
    while generation < num_generation
        invariant
            generation <= num_generation,
            n == requests@.len(),
            balance.wf(),
            all_wf(requests@),
            population_size >= selection_size,
            num_generation == 0 || selection_size * n <= usize::MAX,
            selection_weights@.len() == n,
            forall|r: int|
                0 <= r < n ==> (#[trigger] selection_weights@[r])@.len() == requests@[r]@.len(),
            request_order_weight@.len() == n,
            generation == 0 || selection_size == 0 ==> current_best_result is None,
            current_best_result matches Some(c) ==> scored(*balance, requests@, c) && is_candidate(
                requests@,
                c.2@,
                c.3@,
            ),
        decreases num_generation - generation,
    {
        let ghost shape = selection_weights@;
        let ghost order_weights = request_order_weight@;
        spawn_population(
            balance,
            requests,
            selection_weights.as_slice(),
            weight_upper_bound,
            &request_order_weight,
            order_max_weight_limit,
            population_size,
            &mut agents_results,
        );
        let ghost scored_list = agents_results@;
        proof {
            assert forall|i: int| 0 <= i < scored_list.len() implies is_permutation(
                (#[trigger] scored_list[i]).3@,
                n as nat,
            ) by {
                assert(agent_outcome(
                    *balance,
                    requests@,
                    shape,
                    weight_upper_bound,
                    order_weights,
                    scored_list[i],
                ));
            }
        }
        let ghost ceiling = weight_upper_bound;
        let (elite, incumbent) = close_generation(
            &mut agents_results,
            selection_size,
            &mut selection_weights,
            &mut weight_upper_bound,
            &mut request_order_weight,
            &mut order_max_weight_limit,
        );
        proof {
            if elite@.len() > 0 {
                let best = scored_list[elite@[0] as int];
                assert(agent_outcome(
                    *balance,
                    requests@,
                    shape,
                    ceiling,
                    order_weights,
                    best,
                ));
            }
        }
        current_best_result = incumbent;
        generation += 1;
    }
    let ghost incumbent = current_best_result;
    let r = conclude(balance, requests, current_best_result);
    proof {
        match incumbent {
            Some((Some(ledger), _, selected, request_order)) => {
                assert(is_candidate(requests@, selected@, request_order@));
                assert(tx_views(r.0@) == execution_list(requests@, selected@, request_order@));
            },
            _ => {
                assert(tx_views(r.0@) =~= Seq::<TxView>::empty());
            },
        }
        lemma_outcome_valid(*balance, requests@, r.0@, r.1);
        lemma_answer_collects_fees(*balance, requests@, r.0@, r.1);
        r.1.lemma_solvent();
    }
    r
}

} // verus!
