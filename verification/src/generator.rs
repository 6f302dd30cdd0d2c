//! Random candidates: which transfers of each request to include, and in
//! which order to run the requests.

use vstd::prelude::*;
use fastrand::Rng;
use crate::random::draw;

verus! {

/// How many draws the weighted pick makes at most before it stops drawing.
pub const MAX_DRAWS: u64 = 4_294_967_296;

/// A mask has the shape of the weights, leaves out every transfer of weight
/// zero, and includes every transfer whose positive weight reaches the
/// ceiling.
pub open spec fn mask_follows(weights: Seq<Vec<usize>>, ceiling: usize, mask: Seq<Vec<bool>>) -> bool {
    &&& mask.len() == weights.len()
    &&& forall|r: int| 0 <= r < mask.len() ==> (#[trigger] mask[r])@.len() == weights[r]@.len()
    &&& forall|r: int, t: int|
        0 <= r < mask.len() && 0 <= t < mask[r]@.len() ==> (#[trigger] mask[r]@[t]) == draw_outcome(
            weights[r]@[t],
            ceiling,
            mask[r]@[t],
        )
}

/// What is fixed of a draw against `weight` under `ceiling`: weight zero
/// never passes, and a positive weight that reaches the ceiling always does.
/// In between, the draw decides and `passed` stands as it came out.
pub open spec fn draw_outcome(weight: usize, ceiling: usize, passed: bool) -> bool {
    if weight == 0 {
        false
    } else if weight >= ceiling {
        true
    } else {
        passed
    }
}

/// An order of `n` requests: each of the indices below `n`, once.
pub open spec fn is_permutation(order: Seq<usize>, n: nat) -> bool {
    &&& order.len() == n
    &&& forall|i: int| 0 <= i < n ==> (#[trigger] order[i]) < n
    &&& order.no_duplicates()
}

/// No request of weight zero runs before a request of positive weight.
pub open spec fn zero_weights_last(weights: Seq<usize>, order: Seq<usize>) -> bool {
    forall|a: int, b: int|
        0 <= a < b < order.len() && weights[(#[trigger] order[a]) as int] == 0 ==> weights[(
        #[trigger] order[b]) as int] == 0
}

/// Whether a number drawn uniformly below the ceiling lets a weight pass:
/// the weight passes with probability `weight / ceiling`, and always once it
/// reaches the ceiling.
pub fn passes(weight: usize, drawn: usize) -> (r: bool)
    ensures
        r == (drawn < weight),
{
    drawn < weight
}

/// One draw against `weight` under `ceiling`. A ceiling of zero lets every
/// positive weight pass.
fn chance(weight: usize, ceiling: usize, rng: &Rng) -> (r: bool)
    ensures
        r == draw_outcome(weight, ceiling, r),
{
    if weight == 0 {
        false
    } else if ceiling == 0 {
        true
    } else {
        let drawn = draw(rng, 0, ceiling);
        passes(weight, drawn)
    }
}

/// Draws the inclusion mask: each transfer on its own, with probability
/// `min(weight / ceiling, 1)`.
pub fn random_selection(weights: &[Vec<usize>], weight_upper_bound: usize, rng: &Rng) -> (selection:
    Vec<Vec<bool>>)
    ensures
        mask_follows(weights@, weight_upper_bound, selection@),
{
    let mut selection: Vec<Vec<bool>> = Vec::with_capacity(weights.len());
    let mut r: usize = 0;
    while r < weights.len()
        invariant
            r <= weights@.len(),
            mask_follows(weights@.take(r as int), weight_upper_bound, selection@),
        decreases weights@.len() - r,
    {
        let weight = &weights[r];
        let mut tx_selected: Vec<bool> = Vec::with_capacity(weight.len());
        let mut t: usize = 0;
        while t < weight.len()
            invariant
                t <= weight@.len(),
                tx_selected@.len() == t,
                forall|k: int|
                    0 <= k < t ==> (#[trigger] tx_selected@[k]) == draw_outcome(
                        weight@[k],
                        weight_upper_bound,
                        tx_selected@[k],
                    ),
            decreases weight@.len() - t,
        {
            let included = chance(weight[t], weight_upper_bound, rng);
            tx_selected.push(included);
            t += 1;
        }
        selection.push(tx_selected);
        r += 1;
    }
    assert(weights@.take(r as int) =~= weights@);
    selection
}

/// Whether any weight from `start` on is positive.
pub open spec fn some_weight(data: Seq<usize>, start: int) -> bool {
    exists|k: int| start <= k < data.len() && data[k] != 0
}

/// The first position from `start` on that holds a positive weight.
fn first_weight(data: &[usize], start: usize) -> (r: Option<usize>)
    requires
        start <= data@.len(),
    ensures
        match r {
            Some(k) => start <= k < data@.len() && data@[k as int] != 0,
            None => !some_weight(data@, start as int),
        },
{
    let mut k: usize = start;
    while k < data.len()
        invariant
            start <= k <= data@.len(),
            forall|j: int| start <= j < k ==> data@[j] == 0,
        decreases data@.len() - k,
    {
        if data[k] != 0 {
            return Some(k);
        }
        k += 1;
    }
    None
}

/// Picks a position from `start` on, a position of larger weight more
/// likely: a position is drawn uniformly and kept with probability
/// `weight / max_weight_limit`, and drawn again otherwise. A position of
/// weight zero is never kept while a positive weight is left. Where none is
/// left the pick is uniform, and after [`MAX_DRAWS`] draws without a keep the
/// first positive weight is taken.
pub fn roulette_wheel_selection(
    data: &[usize],
    start: usize,
    max_weight_limit: usize,
    rng: &Rng,
) -> (r_index: usize)
    requires
        start < data@.len(),
    ensures
        start <= r_index < data@.len(),
        some_weight(data@, start as int) ==> data@[r_index as int] != 0,
{
    match first_weight(data, start) {
        None => draw(rng, start, data.len()),
        Some(first) => {
            let mut draws: u64 = 0;
            while draws < MAX_DRAWS
                invariant
                    start < data@.len(),
                    draws <= MAX_DRAWS,
                decreases MAX_DRAWS - draws,
            {
                let r_index = draw(rng, start, data.len());
                if chance(data[r_index], max_weight_limit, rng) {
                    return r_index;
                }
                draws += 1;
            }
            first
        },
    }
}

/// The placing step of the shuffle: the request drawn at `r_index` changes
/// places with the one at `i`, in the weights and in the order alike, and
/// nothing else moves.
pub fn place(weights: &mut Vec<usize>, order: &mut Vec<usize>, i: usize, r_index: usize)
    requires
        i < old(weights)@.len(),
        r_index < old(weights)@.len(),
        old(order)@.len() == old(weights)@.len(),
    ensures
        final(weights)@ == old(weights)@.update(i as int, old(weights)@[r_index as int]).update(
            r_index as int,
            old(weights)@[i as int],
        ),
        final(order)@ == old(order)@.update(i as int, old(order)@[r_index as int]).update(
            r_index as int,
            old(order)@[i as int],
        ),
{
    let w_i = weights[i];
    let w_r = weights[r_index];
    weights.set(i, w_r);
    weights.set(r_index, w_i);
    let o_i = order[i];
    let o_r = order[r_index];
    order.set(i, o_r);
    order.set(r_index, o_i);
}

/// Orders the requests at random, a request of larger weight more likely
/// early: each position but the last is filled, first to last, by a weighted
/// pick among the requests not yet placed.
pub fn prioritized_left_shuffling(data: Vec<usize>, max_weight_limit: usize) -> (order: Vec<usize>)
    ensures
        is_permutation(order@, data@.len()),
        zero_weights_last(data@, order@),
{
    let rng = Rng::new();
    let mut weights = data;
    let n = weights.len();
    let mut order: Vec<usize> = Vec::with_capacity(n);
    let mut k: usize = 0;
    while k < n
        invariant
            k <= n,
            order@.len() == k,
            forall|j: int| 0 <= j < k ==> order@[j] == j,
        decreases n - k,
    {
        order.push(k);
        k += 1;
    }
    if n == 0 {
        return order;
    }
    let mut i: usize = 0;
    while i < n - 1
        invariant
            n >= 1,
            i <= n - 1,
            n == data@.len(),
            weights@.len() == n,
            is_permutation(order@, n as nat),
            forall|j: int| 0 <= j < n ==> weights@[j] == data@[(#[trigger] order@[j]) as int],
            forall|a: int, b: int|
                #![trigger weights@[a], weights@[b]]
                0 <= a < i && a < b < n && weights@[a] == 0 ==> weights@[b] == 0,
        decreases n - 1 - i,
    {
        let r_index = roulette_wheel_selection(weights.as_slice(), i, max_weight_limit, &rng);
        let ghost before = weights@;
        let ghost order_before = order@;
        place(&mut weights, &mut order, i, r_index);
        proof {
            assert forall|a: int, b: int|
                #![trigger weights@[a], weights@[b]]
                0 <= a < i + 1 && a < b < n && weights@[a] == 0 implies weights@[b] == 0 by {
                if a < i {
                    let src = if b == i as int {
                        r_index as int
                    } else if b == r_index as int {
                        i as int
                    } else {
                        b
                    };
                    assert(weights@[b] == before[src]);
                    assert(before[a] == 0);
                    assert(before[src] == 0);
                } else {
                    let src = if b == r_index as int {
                        i as int
                    } else {
                        b
                    };
                    assert(weights@[b] == before[src]);
                    if before[src] != 0 {
                        assert(some_weight(before, i as int));
                    }
                }
            }
            assert forall|x: int, y: int|
                0 <= x < n && 0 <= y < n && x != y implies order@[x] != order@[y] by {
                let sx = if x == i as int {
                    r_index as int
                } else if x == r_index as int {
                    i as int
                } else {
                    x
                };
                let sy = if y == i as int {
                    r_index as int
                } else if y == r_index as int {
                    i as int
                } else {
                    y
                };
                assert(order@[x] == order_before[sx]);
                assert(order@[y] == order_before[sy]);
            }
        }
        i += 1;
    }
    proof {
        assert forall|a: int, b: int|
            0 <= a < b < order@.len() && data@[(#[trigger] order@[a]) as int] == 0 implies data@[(
        #[trigger] order@[b]) as int] == 0 by {
            assert(weights@[a] == data@[order@[a] as int]);
            assert(weights@[b] == data@[order@[b] as int]);
        }
    }
    order
}

} // verus!
