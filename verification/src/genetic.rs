use vstd::prelude::*;

verus! {

/// `p` is the first place after `after` in the individual that holds a node
/// not yet visited.
pub open spec fn is_first_unvisited_after(
    individual: Seq<usize>,
    visited: Seq<bool>,
    after: int,
    p: int,
) -> bool {
    &&& after < p < individual.len()
    &&& !visited[individual[p] as int]
    &&& forall|q: int| after < q < p ==> visited[(#[trigger] individual[q]) as int]
}

/// `k` is the first place in the individual that holds the node `fst`.
pub open spec fn is_first_occurrence(individual: Seq<usize>, fst: usize, k: int) -> bool {
    &&& 0 <= k < individual.len()
    &&& individual[k] == fst
    &&& forall|q: int| 0 <= q < k ==> #[trigger] individual[q] != fst
}

/// The individual holds an unvisited node somewhere after its first `fst`.
pub open spec fn has_successor(individual: Seq<usize>, visited: Seq<bool>, fst: usize) -> bool {
    exists|k: int, p: int|
        is_first_occurrence(individual, fst, k) && #[trigger] is_first_unvisited_after(
            individual,
            visited,
            k,
            p,
        )
}

/// `n` is the unvisited node with the least number.
pub open spec fn is_least_unvisited(visited: Seq<bool>, n: usize) -> bool {
    &&& n < visited.len()
    &&& !visited[n as int]
    &&& forall|j: int| 0 <= j < n ==> #[trigger] visited[j]
}

/// The legitimate node after `fst` in a crossover: the first unvisited node
/// that comes after `fst` in the individual, or, where there is none, the
/// unvisited node with the least number.
pub fn legitimate(fst: usize, visited: &[bool], individual: &[usize]) -> (node: usize)
    requires
        forall|k: int| 0 <= k < individual@.len() ==> (#[trigger] individual@[k]) < visited@.len(),
        exists|j: int| 0 <= j < visited@.len() && !visited@[j],
    ensures
        has_successor(individual@, visited@, fst) ==> forall|k: int, p: int|
            is_first_occurrence(individual@, fst, k) && #[trigger] is_first_unvisited_after(
                individual@,
                visited@,
                k,
                p,
            ) ==> node == individual@[p],
        !has_successor(individual@, visited@, fst) ==> is_least_unvisited(visited@, node),
{
    let len = individual.len();
    let mut k: usize = 0;
    while k < len && individual[k] != fst
        invariant
            k <= len,
            len == individual@.len(),
            forall|q: int| 0 <= q < k ==> #[trigger] individual@[q] != fst,
        decreases len - k,
    {
        k += 1;
    }
    if k < len {
        assert(is_first_occurrence(individual@, fst, k as int));
        let mut p: usize = k + 1;
        while p < len
            invariant
                k < p <= len,
                len == individual@.len(),
                is_first_occurrence(individual@, fst, k as int),
                forall|k: int| 0 <= k < individual@.len() ==> (#[trigger] individual@[k])
                    < visited@.len(),
                forall|q: int| k < q < p ==> visited@[(#[trigger] individual@[q]) as int],
            decreases len - p,
        {
            if !visited[individual[p]] {
                proof {
                    assert(is_first_unvisited_after(individual@, visited@, k as int, p as int));
                    assert forall|k_other: int, p_other: int|
                        is_first_occurrence(individual@, fst, k_other) && #[trigger] is_first_unvisited_after(
                            individual@,
                            visited@,
                            k_other,
                            p_other,
                        ) implies individual@[p_other] == individual@[p as int] by {
                        assert(k_other == k) by {
                            if k_other < k {
                                assert(individual@[k_other] != fst);
                            }
                            if k < k_other {
                                assert(individual@[k as int] != fst);
                            }
                        }
                        if p_other < p {
                            assert(visited@[individual@[p_other] as int]);
                        }
                        if p < p_other {
                            assert(visited@[individual@[p as int] as int]);
                        }
                    }
                }
                return individual[p];
            }
            p += 1;
        }
        proof {
            assert forall|k_other: int, p_other: int| is_first_occurrence(individual@, fst, k_other) implies !(
            #[trigger] is_first_unvisited_after(individual@, visited@, k_other, p_other)) by {
                if k_other < k {
                    assert(individual@[k_other] != fst);
                }
                if k < k_other {
                    assert(individual@[k as int] != fst);
                }
                if is_first_unvisited_after(individual@, visited@, k_other, p_other) {
                    assert(visited@[individual@[p_other] as int]);
                }
            }
        }
    } else {
        assert forall|k_other: int| !is_first_occurrence(individual@, fst, k_other) by {
            if 0 <= k_other < len {
                assert(individual@[k_other] != fst);
            }
        }
    }
    assert(!has_successor(individual@, visited@, fst));
    let nodes = visited.len();
    let mut n: usize = 0;
    while n < nodes
        invariant
            n <= nodes,
            nodes == visited@.len(),
            !has_successor(individual@, visited@, fst),
            exists|j: int| 0 <= j < visited@.len() && !visited@[j],
            forall|j: int| 0 <= j < n ==> #[trigger] visited@[j],
        decreases nodes - n,
    {
        if !visited[n] {
            return n;
        }
        n += 1;
    }
    assert(false);
    0
}

/// `rand::random_range` over `0..bound`: a number below `bound`, which
/// differs from call to call.
#[verifier::external_body]
fn random_below(bound: usize) -> (r: usize)
    requires
        bound > 0,
    ensures
        r < bound,
{
    rand::random_range(0..bound)
}

/// The individual with the nodes at `pos` and `pos + 1` exchanged.
pub open spec fn swapped_at(individual: Seq<usize>, pos: int) -> Seq<usize> {
    individual.update(pos, individual[pos + 1]).update(pos + 1, individual[pos])
}

/// Exchanges the nodes at `pos` and `pos + 1`.
pub fn swap_adjacent(individual: &mut Vec<usize>, pos: usize)
    requires
        pos + 1 < old(individual)@.len(),
    ensures
        final(individual)@ == swapped_at(old(individual)@, pos as int),
{
    let len = individual.len();
    let a = individual[pos];
    let b = individual[pos + 1];
    individual.set(pos, b);
    individual.set(pos + 1, a);
}

/// Mutates an individual: exchanges two neighbouring nodes, at a place
/// chosen at random.
pub fn mutate(individual: &mut Vec<usize>)
    requires
        old(individual)@.len() >= 2,
    ensures
        exists|pos: int|
            0 <= pos < old(individual)@.len() - 1 && final(individual)@ == #[trigger] swapped_at(
                old(individual)@,
                pos,
            ),
{
    let pos = random_below(individual.len() - 1);
    swap_adjacent(individual, pos);
    assert(individual@ == swapped_at(old(individual)@, pos as int));
}

} // verus!
