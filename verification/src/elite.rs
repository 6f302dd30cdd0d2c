//! Truncation selection: which candidates of a generation survive.

use vstd::prelude::*;
use crate::candidate::{fitnesses, Candidate};

verus! {

/// `elite` ranks the best `size` of the first `seen` candidates, best first:
/// as many as there are where there are fewer, none of them twice, and none
/// left out that is better than one of them.
pub open spec fn ranks(fitness: Seq<i64>, seen: int, size: usize, elite: Seq<usize>) -> bool {
    &&& elite.len() == if size <= seen {
        size as int
    } else {
        seen
    }
    &&& forall|j: int| 0 <= j < elite.len() ==> (#[trigger] elite[j]) < seen
    &&& elite.no_duplicates()
    &&& forall|a: int, b: int|
        0 <= a < b < elite.len() ==> fitness[(#[trigger] elite[a]) as int] >= fitness[(
        #[trigger] elite[b]) as int]
    &&& forall|x: usize, j: int|
        x < seen && !elite.contains(x) && 0 <= j < elite.len()
            ==> #[trigger] fitness[x as int] <= fitness[(#[trigger] elite[j]) as int]
}

/// `elite` lists the best `size` candidates by fitness, best first. Among
/// equal fitness any may come first.
pub open spec fn is_elite(fitness: Seq<i64>, size: usize, elite: Seq<usize>) -> bool {
    ranks(fitness, fitness.len() as int, size, elite)
}

/// While the ranking is not full, nobody seen so far is left out of it.
spec fn holds_all(seen: int, size: usize, elite: Seq<usize>) -> bool {
    elite.len() < size ==> forall|x: usize| x < seen ==> #[trigger] elite.contains(x)
}

/// A sequence with one more entry holds that entry and what it held before.
proof fn lemma_insert_contains(before: Seq<usize>, p: int, v: usize)
    requires
        0 <= p <= before.len(),
    ensures
        forall|x: usize|
            #[trigger] before.insert(p, v).contains(x) <==> (x == v || before.contains(x)),
{
    let grown = before.insert(p, v);
    assert forall|x: usize| #[trigger] grown.contains(x) <==> (x == v || before.contains(x)) by {
        if grown.contains(x) {
            let j = grown.index_of(x);
            if j < p {
                assert(before[j] == x);
            } else if j > p {
                assert(before[j - 1] == x);
            }
        }
        if x == v {
            assert(grown[p] == v);
        }
        if before.contains(x) {
            let j = before.index_of(x);
            if j < p {
                assert(grown[j] == x);
            } else {
                assert(grown[j + 1] == x);
            }
        }
    }
}

/// A candidate that does not beat the last of a full ranking leaves the
/// ranking as it is.
proof fn lemma_rank_skip(fitness: Seq<i64>, i: int, size: usize, elite: Seq<usize>)
    requires
        0 <= i < fitness.len(),
        size > 0,
        ranks(fitness, i, size, elite),
        elite.len() == size,
        fitness[elite.last() as int] >= fitness[i],
    ensures
        ranks(fitness, i + 1, size, elite),
{
    assert forall|x: usize, j: int|
        x < i + 1 && !elite.contains(x) && 0 <= j < elite.len() implies #[trigger] fitness[x as int]
        <= fitness[(#[trigger] elite[j]) as int] by {
        if x == i {
            let last = elite.len() - 1;
            if j < last {
                assert(fitness[elite[j] as int] >= fitness[elite[last] as int]);
            }
        }
    }
}

/// A candidate put into a ranking at its place by fitness leaves a ranking
/// of the candidates seen so far and itself, one longer than before.
#[verifier::spinoff_prover]
proof fn lemma_rank_grow(fitness: Seq<i64>, i: int, size: usize, before: Seq<usize>, p: int)
    requires
        0 <= i < fitness.len(),
        i <= usize::MAX,
        ranks(fitness, i, size, before),
        0 <= p <= before.len(),
        forall|j: int| 0 <= j < p ==> fitness[(#[trigger] before[j]) as int] >= fitness[i],
        forall|j: int|
            p <= j < before.len() ==> fitness[(#[trigger] before[j]) as int] < fitness[i],
        p == before.len() ==> forall|x: usize| x < i ==> #[trigger] before.contains(x),
    ensures
        ({
            let grown = before.insert(p, i as usize);
            &&& grown.len() == before.len() + 1
            &&& forall|j: int| 0 <= j < grown.len() ==> (#[trigger] grown[j]) < i + 1
            &&& grown.no_duplicates()
            &&& forall|a: int, b: int|
                0 <= a < b < grown.len() ==> fitness[(#[trigger] grown[a]) as int] >= fitness[(
                #[trigger] grown[b]) as int]
            &&& forall|x: usize, j: int|
                x < i + 1 && !grown.contains(x) && 0 <= j < grown.len()
                    ==> #[trigger] fitness[x as int] <= fitness[(#[trigger] grown[j]) as int]
            &&& (forall|x: usize| x < i ==> #[trigger] before.contains(x))
                ==> forall|x: usize| x < i + 1 ==> #[trigger] grown.contains(x)
        }),
{
    let grown = before.insert(p, i as usize);
    lemma_insert_contains(before, p, i as usize);
    assert forall|j: int| 0 <= j < grown.len() implies (#[trigger] grown[j]) < i + 1 by {
        if j < p {
            assert(grown[j] == before[j]);
        } else if j > p {
            assert(grown[j] == before[j - 1]);
        }
    }
    assert forall|a: int, b: int| 0 <= a < b < grown.len() implies grown[a] != grown[b]
        && fitness[(#[trigger] grown[a]) as int] >= fitness[(#[trigger] grown[b]) as int] by {
        let sa = if a < p {
            a
        } else {
            a - 1
        };
        let sb = if b < p {
            b
        } else {
            b - 1
        };
        if a != p {
            assert(grown[a] == before[sa]);
            assert(before[sa] < i);
        }
        if b != p {
            assert(grown[b] == before[sb]);
            assert(before[sb] < i);
        }
        if a != p && b != p {
            assert(fitness[before[sa] as int] >= fitness[before[sb] as int]);
        }
    }
    assert forall|x: usize, j: int|
        x < i + 1 && !grown.contains(x) && 0 <= j < grown.len() implies #[trigger] fitness[x as int]
        <= fitness[(#[trigger] grown[j]) as int] by {
        assert(x != i);
        assert(!before.contains(x));
        if j < p {
            assert(grown[j] == before[j]);
        } else if j > p {
            assert(grown[j] == before[j - 1]);
        } else {
            assert(grown[j] == i);
            if p < before.len() {
                assert(fitness[x as int] <= fitness[before[p] as int]);
            } else {
                assert(before.contains(x));
            }
        }
    }
}

/// A ranking that has grown by one beyond its size is cut back to its size
/// by dropping its last.
#[verifier::spinoff_prover]
proof fn lemma_rank_trim(fitness: Seq<i64>, seen: int, size: usize, grown: Seq<usize>)
    requires
        size > 0,
        0 < seen <= fitness.len(),
        grown.len() == 1 + if size <= seen - 1 {
            size as int
        } else {
            seen - 1
        },
        forall|j: int| 0 <= j < grown.len() ==> (#[trigger] grown[j]) < seen,
        grown.no_duplicates(),
        forall|a: int, b: int|
            0 <= a < b < grown.len() ==> fitness[(#[trigger] grown[a]) as int] >= fitness[(
            #[trigger] grown[b]) as int],
        forall|x: usize, j: int|
            x < seen && !grown.contains(x) && 0 <= j < grown.len()
                ==> #[trigger] fitness[x as int] <= fitness[(#[trigger] grown[j]) as int],
    ensures
        ranks(
            fitness,
            seen,
            size,
            if grown.len() > size {
                grown.drop_last()
            } else {
                grown
            },
        ),
{
    if grown.len() > size {
        let kept = grown.drop_last();
        let last = grown.len() - 1;
        assert forall|a: int, b: int| 0 <= a < b < kept.len() implies kept[a] != kept[b]
            && fitness[(#[trigger] kept[a]) as int] >= fitness[(#[trigger] kept[b]) as int] by {
            assert(kept[a] == grown[a]);
            assert(kept[b] == grown[b]);
        }
        assert forall|x: usize, j: int|
            x < seen && !kept.contains(x) && 0 <= j < kept.len() implies #[trigger] fitness[x as int]
            <= fitness[(#[trigger] kept[j]) as int] by {
            assert(kept[j] == grown[j]);
            if grown.contains(x) {
                let g = grown.index_of(x);
                if g < last {
                    assert(kept[g] == grown[g]);
                }
                assert(fitness[grown[j] as int] >= fitness[grown[last] as int]);
            }
        }
    }
}

/// Truncation selection: the positions of the best `selection_size`
/// candidates, best first.
pub fn rank_elite(agents_results: &Vec<Candidate>, selection_size: usize) -> (elite: Vec<usize>)
    ensures
        is_elite(fitnesses(agents_results@), selection_size, elite@),
{
    let ghost fitness = fitnesses(agents_results@);
    let n = agents_results.len();
    let mut elite: Vec<usize> = Vec::new();
    if selection_size == 0 {
        return elite;
    }
    let mut i: usize = 0;
    while i < n
        invariant
            i <= n,
            n == agents_results@.len(),
            selection_size > 0,
            fitness == fitnesses(agents_results@),
            ranks(fitness, i as int, selection_size, elite@),
            holds_all(i as int, selection_size, elite@),
        decreases n - i,
    {
        let ghost before = elite@;
        let score = agents_results[i].1;
        let full = elite.len() == selection_size;
        if full && agents_results[elite[elite.len() - 1]].1 >= score {
            proof {
                lemma_rank_skip(fitness, i as int, selection_size, before);
            }
        } else {
            let mut p: usize = elite.len();
            while p > 0 && agents_results[elite[p - 1]].1 < score
                invariant
                    p <= elite@.len(),
                    elite@ == before,
                    i < n,
                    n == agents_results@.len(),
                    fitness == fitnesses(agents_results@),
                    score == fitness[i as int],
                    forall|j: int| 0 <= j < before.len() ==> (#[trigger] before[j]) < i,
                    forall|j: int|
                        p <= j < before.len() ==> fitness[(#[trigger] before[j]) as int] < score,
                decreases p,
            {
                p -= 1;
            }
            proof {
                assert forall|j: int| 0 <= j < p implies fitness[(#[trigger] before[j]) as int]
                    >= fitness[i as int] by {
                    if j < p - 1 {
                        assert(fitness[before[j] as int] >= fitness[before[p - 1] as int]);
                    }
                }
                lemma_rank_grow(fitness, i as int, selection_size, before, p as int);
                lemma_rank_trim(
                    fitness,
                    i + 1,
                    selection_size,
                    before.insert(p as int, i),
                );
            }
            elite.insert(p, i);
            if elite.len() > selection_size {
                elite.pop();
            }
            proof {
                let grown = before.insert(p as int, i);
                if grown.len() > selection_size {
                    assert(elite@ =~= grown.drop_last());
                }
            }
        }
        i += 1;
    }
    elite
}

} // verus!
