//! The learning rule: how the survivors of a generation set the weights
//! that the next generation is drawn from.

use vstd::prelude::*;
use crate::candidate::Candidate;
use crate::generator::is_permutation;

verus! {

/// What one survivor adds to the inclusion weight of transfer `t` of
/// request `r`: one where its mask includes the transfer.
pub open spec fn vote(mask: Seq<Vec<bool>>, r: int, t: int) -> int {
    if 0 <= r < mask.len() && 0 <= t < mask[r]@.len() && mask[r]@[t] {
        1
    } else {
        0
    }
}

/// What the first `upto` places of an order add to the order weight of
/// request `q`: for each place that holds `q`, the number of places behind
/// it.
pub open spec fn reward(order: Seq<usize>, upto: int, q: int) -> int
    decreases upto,
{
    if upto <= 0 {
        0
    } else {
        reward(order, upto - 1, q) + if order[upto - 1] == q {
            order.len() - upto
        } else {
            0
        }
    }
}

/// The ceiling of the order weights: their maximum, and at least one.
pub open spec fn ceiling_of(weights: Seq<usize>) -> int
    decreases weights.len(),
{
    if weights.len() == 0 {
        1
    } else {
        let rest = ceiling_of(weights.drop_last());
        if weights.last() > rest {
            weights.last() as int
        } else {
            rest
        }
    }
}

/// The inclusion weights keep their shape.
pub open spec fn same_shape(before: Seq<Vec<usize>>, after: Seq<Vec<usize>>) -> bool {
    &&& after.len() == before.len()
    &&& forall|r: int| 0 <= r < before.len() ==> (#[trigger] after[r])@.len() == before[r]@.len()
}

/// What the places of an order earn a request never shrinks as more places
/// are counted.
proof fn lemma_reward_grows(order: Seq<usize>, from: int, upto: int, q: int)
    requires
        0 <= from <= upto <= order.len(),
    ensures
        0 <= reward(order, from, q) <= reward(order, upto, q),
    decreases upto,
{
    if from < upto {
        lemma_reward_grows(order, from, upto - 1, q);
    } else if from > 0 {
        lemma_reward_grows(order, from - 1, from - 1, q);
    }
}

/// In an order that holds no request twice, a request earns at most once.
proof fn lemma_reward_bound(order: Seq<usize>, upto: int, q: int)
    requires
        0 <= upto <= order.len(),
        order.no_duplicates(),
    ensures
        0 <= reward(order, upto, q) <= order.len(),
        (forall|i: int| 0 <= i < upto ==> order[i] != q) ==> reward(order, upto, q) == 0,
    decreases upto,
{
    if upto > 0 {
        lemma_reward_bound(order, upto - 1, q);
    }
}

/// Learns from one survivor: each transfer that it included gains one, and
/// the request at each place of its order gains the number of places behind
/// that place. The ceiling of the order weights is brought up to date.
pub fn update_global_states(
    selection_weights: &mut Vec<Vec<usize>>,
    request_order_weight: &mut Vec<usize>,
    order_max_weight_limit: &mut usize,
    selected: &[Vec<bool>],
    request_order: &[usize],
)
    requires
        forall|k: int|
            0 <= k < request_order@.len() ==> (#[trigger] request_order@[k]) < old(request_order_weight)@.len(),
        forall|r: int, t: int|
            0 <= r < old(selection_weights)@.len() && 0 <= t < old(selection_weights)@[r]@.len()
                ==> (#[trigger] old(selection_weights)@[r]@[t]) + vote(selected@, r, t)
                <= usize::MAX,
        forall|q: int|
            0 <= q < old(request_order_weight)@.len() ==> (#[trigger] old(request_order_weight)@[q]) + reward(request_order@, request_order@.len() as int, q) <= usize::MAX,
    ensures
        same_shape(old(selection_weights)@, final(selection_weights)@),
        forall|r: int, t: int|
            0 <= r < old(selection_weights)@.len() && 0 <= t < old(selection_weights)@[r]@.len()
                ==> (#[trigger] final(selection_weights)@[r]@[t]) == old(selection_weights)@[r]@[t] + vote(selected@, r, t),
        final(request_order_weight)@.len() == old(request_order_weight)@.len(),
        forall|q: int|
            0 <= q < old(request_order_weight)@.len() ==> (#[trigger] final(request_order_weight)@[q]) == old(request_order_weight)@[q] + reward(
                request_order@,
                request_order@.len() as int,
                q,
            ),
        *final(order_max_weight_limit) == ceiling_of(final(request_order_weight)@),
{
    let ghost sw0 = selection_weights@;
    let ghost ow0 = request_order_weight@;
    let mut r: usize = 0;
    while r < selected.len() && r < selection_weights.len()
        invariant
            sw0 == old(selection_weights)@,
            same_shape(sw0, selection_weights@),
            forall|a: int, t: int|
                0 <= a < sw0.len() && 0 <= t < sw0[a]@.len() ==> (#[trigger] sw0[a]@[t]) + vote(
                    selected@,
                    a,
                    t,
                ) <= usize::MAX,
            forall|a: int, t: int|
                0 <= a < sw0.len() && 0 <= t < sw0[a]@.len() ==> (
                #[trigger] selection_weights@[a]@[t]) == sw0[a]@[t] + if a < r {
                    vote(selected@, a, t)
                } else {
                    0
                },
        decreases selected@.len() - r,
    {
        let mut t: usize = 0;
        while t < selected[r].len() && t < selection_weights[r].len()
            invariant
                r < selected@.len(),
                r < sw0.len(),
                same_shape(sw0, selection_weights@),
                forall|a: int, b: int|
                    0 <= a < sw0.len() && 0 <= b < sw0[a]@.len() ==> (#[trigger] sw0[a]@[b])
                        + vote(selected@, a, b) <= usize::MAX,
                forall|a: int, b: int|
                    0 <= a < sw0.len() && 0 <= b < sw0[a]@.len() ==> (
                    #[trigger] selection_weights@[a]@[b]) == sw0[a]@[b] + if a < r || (a == r && b
                        < t) {
                        vote(selected@, a, b)
                    } else {
                        0
                    },
            decreases selected@[r as int]@.len() - t,
        {
            if selected[r][t] {
                let ghost rows = selection_weights@;
                assert(sw0[r as int]@[t as int] + vote(selected@, r as int, t as int)
                    <= usize::MAX);
                assert(rows[r as int]@[t as int] == sw0[r as int]@[t as int]);
                selection_weights[r][t] += 1;
                assert forall|a: int, b: int|
                    0 <= a < sw0.len() && 0 <= b < sw0[a]@.len() implies (
                #[trigger] selection_weights@[a]@[b]) == sw0[a]@[b] + if a < r || (a == r && b < t
                    + 1) {
                    vote(selected@, a, b)
                } else {
                    0
                } by {
                    assert(rows[a]@[b] == sw0[a]@[b] + if a < r || (a == r && b < t) {
                        vote(selected@, a, b)
                    } else {
                        0
                    });
                }
            }
            t += 1;
        }
        r += 1;
    }
    let total_requests = request_order.len();
    let mut i: usize = 0;
    while i < total_requests
        invariant
            i <= total_requests,
            total_requests == request_order@.len(),
            ow0 == old(request_order_weight)@,
            request_order_weight@.len() == ow0.len(),
            forall|k: int| 0 <= k < request_order@.len() ==> (#[trigger] request_order@[k]) < ow0.len(),
            forall|q: int|
                0 <= q < ow0.len() ==> (#[trigger] ow0[q]) + reward(
                    request_order@,
                    request_order@.len() as int,
                    q,
                ) <= usize::MAX,
            forall|q: int|
                0 <= q < ow0.len() ==> (#[trigger] request_order_weight@[q]) == ow0[q] + reward(
                    request_order@,
                    i as int,
                    q,
                ),
        decreases total_requests - i,
    {
        let req = request_order[i];
        let ghost weights = request_order_weight@;
        proof {
            lemma_reward_grows(request_order@, i + 1, total_requests as int, req as int);
            assert(weights[req as int] == ow0[req as int] + reward(
                request_order@,
                i as int,
                req as int,
            ));
        }
        request_order_weight[req] += total_requests - i - 1;
        proof {
            assert forall|q: int| 0 <= q < ow0.len() implies (
            #[trigger] request_order_weight@[q]) == ow0[q] + reward(request_order@, i + 1, q) by {
                assert(weights[q] == ow0[q] + reward(request_order@, i as int, q));
            }
        }
        i += 1;
    }
    *order_max_weight_limit = ceiling(request_order_weight.as_slice());
}

/// The maximum of the order weights, and at least one.
pub fn ceiling(weights: &[usize]) -> (limit: usize)
    ensures
        limit == ceiling_of(weights@),
{
    let mut limit: usize = 1;
    let mut k: usize = 0;
    while k < weights.len()
        invariant
            k <= weights@.len(),
            limit == ceiling_of(weights@.take(k as int)),
        decreases weights@.len() - k,
    {
        proof {
            assert(weights@.take(k + 1).drop_last() =~= weights@.take(k as int));
        }
        if weights[k] > limit {
            limit = weights[k];
        }
        k += 1;
    }
    proof {
        assert(weights@.take(k as int) =~= weights@);
    }
    limit
}

/// The inclusion weight that the first `upto` of the elite give to transfer
/// `t` of request `r`: the number of feasible ones among them that include
/// it.
pub open spec fn votes(
    candidates: Seq<Candidate>,
    elite: Seq<usize>,
    upto: int,
    r: int,
    t: int,
) -> int
    decreases upto,
{
    if upto <= 0 {
        0
    } else {
        let survivor = candidates[elite[upto - 1] as int];
        votes(candidates, elite, upto - 1, r, t) + if survivor.0 is Some {
            vote(survivor.2@, r, t)
        } else {
            0
        }
    }
}

/// The order weight that the first `upto` of the elite give to request `q`:
/// what the orders of the feasible ones among them earn it.
pub open spec fn rewards(candidates: Seq<Candidate>, elite: Seq<usize>, upto: int, q: int) -> int
    decreases upto,
{
    if upto <= 0 {
        0
    } else {
        let survivor = candidates[elite[upto - 1] as int];
        rewards(candidates, elite, upto - 1, q) + if survivor.0 is Some {
            reward(survivor.3@, survivor.3@.len() as int, q)
        } else {
            0
        }
    }
}

/// The ceiling of weights that are all zero is one.
proof fn lemma_ceiling_of_zeros(weights: Seq<usize>)
    requires
        forall|q: int| 0 <= q < weights.len() ==> weights[q] == 0,
    ensures
        ceiling_of(weights) == 1,
    decreases weights.len(),
{
    if weights.len() > 0 {
        lemma_ceiling_of_zeros(weights.drop_last());
    }
}

/// The weights are what the elite teaches: the inclusion weights keep their
/// shape and each counts the feasible survivors that included the transfer,
/// each order weight sums what the orders of the feasible survivors earn the
/// request, and the ceiling is that of the order weights.
pub open spec fn learned(
    candidates: Seq<Candidate>,
    elite: Seq<usize>,
    shape: Seq<Vec<usize>>,
    requests: nat,
    selection_weights: Seq<Vec<usize>>,
    request_order_weight: Seq<usize>,
    order_max_weight_limit: usize,
) -> bool {
    &&& same_shape(shape, selection_weights)
    &&& forall|r: int, t: int|
        0 <= r < shape.len() && 0 <= t < shape[r]@.len() ==> (
        #[trigger] selection_weights[r]@[t]) == votes(candidates, elite, elite.len() as int, r, t)
    &&& request_order_weight.len() == requests
    &&& forall|q: int|
        0 <= q < requests ==> (#[trigger] request_order_weight[q]) == rewards(
            candidates,
            elite,
            elite.len() as int,
            q,
        )
    &&& order_max_weight_limit == ceiling_of(request_order_weight)
}

/// The learning step of one generation: both weight structures are set to
/// zero and then learn from every feasible survivor, so that afterwards each
/// inclusion weight counts the feasible survivors that included the transfer
/// and each order weight sums what their orders earn the request.
pub fn learn(
    agents_results: &Vec<Candidate>,
    elite: &Vec<usize>,
    selection_weights: &mut Vec<Vec<usize>>,
    request_order_weight: &mut Vec<usize>,
    order_max_weight_limit: &mut usize,
)
    requires
        forall|j: int| 0 <= j < elite@.len() ==> (#[trigger] elite@[j]) < agents_results@.len(),
        forall|j: int|
            0 <= j < elite@.len() ==> is_permutation(
                agents_results@[(#[trigger] elite@[j]) as int].3@,
                old(request_order_weight)@.len(),
            ),
        elite@.len() * old(request_order_weight)@.len() <= usize::MAX,
    ensures
        learned(
            agents_results@,
            elite@,
            old(selection_weights)@,
            old(request_order_weight)@.len(),
            final(selection_weights)@,
            final(request_order_weight)@,
            *final(order_max_weight_limit),
        ),
{
    let ghost sw0 = selection_weights@;
    let ghost n = request_order_weight@.len();
    let mut r: usize = 0;
    while r < selection_weights.len()
        invariant
            r <= selection_weights@.len(),
            same_shape(sw0, selection_weights@),
            forall|a: int, t: int|
                0 <= a < r && 0 <= t < sw0[a]@.len() ==> (#[trigger] selection_weights@[a]@[t])
                    == 0,
        decreases selection_weights@.len() - r,
    {
        let mut t: usize = 0;
        while t < selection_weights[r].len()
            invariant
                r < selection_weights@.len(),
                t <= selection_weights@[r as int]@.len(),
                same_shape(sw0, selection_weights@),
                forall|a: int, b: int|
                    0 <= a < r && 0 <= b < sw0[a]@.len() ==> (
                    #[trigger] selection_weights@[a]@[b]) == 0,
                forall|b: int| 0 <= b < t ==> (#[trigger] selection_weights@[r as int]@[b]) == 0,
            decreases selection_weights@[r as int]@.len() - t,
        {
            selection_weights[r][t] = 0;
            t += 1;
        }
        r += 1;
    }
    let mut q: usize = 0;
    while q < request_order_weight.len()
        invariant
            q <= request_order_weight@.len(),
            request_order_weight@.len() == n,
            forall|a: int| 0 <= a < q ==> (#[trigger] request_order_weight@[a]) == 0,
        decreases request_order_weight@.len() - q,
    {
        request_order_weight[q] = 0;
        q += 1;
    }
    *order_max_weight_limit = 1;
    proof {
        lemma_ceiling_of_zeros(request_order_weight@);
    }
    let mut e: usize = 0;
    while e < elite.len()
        invariant
            e <= elite@.len(),
            n == old(request_order_weight)@.len(),
            sw0 == old(selection_weights)@,
            forall|j: int| 0 <= j < elite@.len() ==> (#[trigger] elite@[j]) < agents_results@.len(),
            forall|j: int|
                0 <= j < elite@.len() ==> is_permutation(
                    agents_results@[(#[trigger] elite@[j]) as int].3@,
                    n,
                ),
            elite@.len() * n <= usize::MAX,
            same_shape(sw0, selection_weights@),
            request_order_weight@.len() == n,
            forall|a: int, t: int|
                0 <= a < sw0.len() && 0 <= t < sw0[a]@.len() ==> (
                #[trigger] selection_weights@[a]@[t]) == votes(
                    agents_results@,
                    elite@,
                    e as int,
                    a,
                    t,
                ) && selection_weights@[a]@[t] <= e,
            forall|a: int|
                0 <= a < n ==> (#[trigger] request_order_weight@[a]) == rewards(
                    agents_results@,
                    elite@,
                    e as int,
                    a,
                ) && request_order_weight@[a] <= e * n,
            *order_max_weight_limit == ceiling_of(request_order_weight@),
        decreases elite@.len() - e,
    {
        let survivor = &agents_results[elite[e]];
        proof {
            assert((e + 1) * n == e * n + n) by (nonlinear_arith);
            assert((e + 1) * n <= elite@.len() * n) by (nonlinear_arith)
                requires
                    e + 1 <= elite@.len(),
            ;
        }
        if survivor.0.is_some() {
            let ghost rows = selection_weights@;
            let ghost weights = request_order_weight@;
            proof {
                assert(is_permutation(survivor.3@, n));
                assert forall|a: int| 0 <= a < n implies (#[trigger] weights[a]) + reward(
                    survivor.3@,
                    survivor.3@.len() as int,
                    a,
                ) <= usize::MAX by {
                    lemma_reward_bound(survivor.3@, survivor.3@.len() as int, a);
                }
            }
            update_global_states(
                selection_weights,
                request_order_weight,
                order_max_weight_limit,
                survivor.2.as_slice(),
                survivor.3.as_slice(),
            );
            proof {
                assert forall|a: int, t: int|
                    0 <= a < sw0.len() && 0 <= t < sw0[a]@.len() implies (
                #[trigger] selection_weights@[a]@[t]) == votes(
                    agents_results@,
                    elite@,
                    e + 1,
                    a,
                    t,
                ) && selection_weights@[a]@[t] <= e + 1 by {
                    assert(selection_weights@[a]@[t] == rows[a]@[t] + vote(survivor.2@, a, t));
                }
                assert forall|a: int| 0 <= a < n implies (#[trigger] request_order_weight@[a])
                    == rewards(agents_results@, elite@, e + 1, a) && request_order_weight@[a] <= (e
                    + 1) * n by {
                    lemma_reward_bound(survivor.3@, survivor.3@.len() as int, a);
                    assert(request_order_weight@[a] == weights[a] + reward(
                        survivor.3@,
                        survivor.3@.len() as int,
                        a,
                    ));
                }
            }
        }
        e += 1;
    }
}

} // verus!
