use vstd::prelude::*;

verus! {

/// The cost that stands for "no edge": the largest number.
pub const MAX: usize = usize::MAX;

/// A cost matrix as a mathematical value: `m[i][j]` is the cost of going
/// from `i` to `j`.
pub open spec fn matrix_of(graph: &Vec<Vec<usize>>) -> Seq<Seq<usize>> {
    graph@.map_values(|row: Vec<usize>| row@)
}

/// Every row is as long as the matrix.
pub open spec fn is_square(m: Seq<Seq<usize>>) -> bool {
    forall|i: int| 0 <= i < m.len() ==> (#[trigger] m[i]).len() == m.len()
}

/// There is an edge between any two different nodes.
pub open spec fn is_complete(m: Seq<Seq<usize>>) -> bool {
    forall|i: int, j: int|
        0 <= i < m.len() && 0 <= j < m.len() && i != j ==> (#[trigger] m[i][j]) < MAX
}

/// `j` is the node nearest to `from` among those outside `seen`; of several
/// at the same cost, the one with the least number.
pub open spec fn is_nearest(m: Seq<Seq<usize>>, from: usize, seen: Seq<usize>, j: usize) -> bool {
    &&& j < m.len()
    &&& !seen.contains(j)
    &&& forall|k: usize|
        k < m.len() && !seen.contains(k) ==> m[from as int][j as int] <= m[from as int][k as int]
    &&& forall|k: usize|
        k < j && !seen.contains(k) ==> m[from as int][j as int] < m[from as int][k as int]
}

/// The node nearest to `from` among those outside `seen`.
pub open spec fn nearest(m: Seq<Seq<usize>>, from: usize, seen: Seq<usize>) -> usize {
    choose|j: usize| is_nearest(m, from, seen, j)
}

/// The path that starts at `start` and goes `steps` times to the nearest
/// node that it has not been to.
pub open spec fn nearest_path(m: Seq<Seq<usize>>, start: usize, steps: nat) -> Seq<usize>
    decreases steps,
{
    if steps == 0 {
        seq![start]
    } else {
        let path = nearest_path(m, start, (steps - 1) as nat);
        path.push(nearest(m, path.last(), path))
    }
}

/// The cost of the edges along a path.
pub open spec fn path_cost(m: Seq<Seq<usize>>, path: Seq<usize>) -> int
    decreases path.len(),
{
    if path.len() <= 1 {
        0
    } else {
        path_cost(m, path.drop_last()) + m[path[path.len() - 2] as int][path.last() as int]
    }
}

/// The cost of a path and of the edge from its end back to its start.
pub open spec fn tour_cost(m: Seq<Seq<usize>>, path: Seq<usize>) -> int {
    path_cost(m, path) + m[path.last() as int][path[0] as int]
}

/// The tour of the nearest-neighbour heuristic from `start`: through all
/// nodes, each time to the nearest one not yet on the path.
pub open spec fn nearest_neighbour_path(m: Seq<Seq<usize>>, start: usize) -> Seq<usize> {
    nearest_path(m, start, (m.len() - 1) as nat)
}

/// At most one node is the nearest.
pub proof fn lemma_nearest_unique(m: Seq<Seq<usize>>, from: usize, seen: Seq<usize>, j: usize)
    requires
        is_nearest(m, from, seen, j),
    ensures
        nearest(m, from, seen) == j,
{
    let other = nearest(m, from, seen);
    assert(is_nearest(m, from, seen, other));
    if other < j {
        assert(m[from as int][j as int] < m[from as int][other as int]);
        assert(m[from as int][other as int] <= m[from as int][j as int]);
    }
    if j < other {
        assert(m[from as int][other as int] < m[from as int][j as int]);
        assert(m[from as int][j as int] <= m[from as int][other as int]);
    }
}

/// A path of `steps` steps has `steps + 1` nodes and begins at `start`.
pub proof fn lemma_nearest_path_len(m: Seq<Seq<usize>>, start: usize, steps: nat)
    ensures
        nearest_path(m, start, steps).len() == steps + 1,
        nearest_path(m, start, steps)[0] == start,
    decreases steps,
{
    if steps > 0 {
        lemma_nearest_path_len(m, start, (steps - 1) as nat);
    }
}

/// A path costs no more than a longer path that begins with it.
pub proof fn lemma_path_cost_grows(m: Seq<Seq<usize>>, start: usize, a: nat, b: nat)
    requires
        a <= b,
    ensures
        0 <= path_cost(m, nearest_path(m, start, a)) <= path_cost(m, nearest_path(m, start, b)),
    decreases b,
{
    if b == 0 {
    } else {
        let shorter = nearest_path(m, start, (b - 1) as nat);
        let longer = nearest_path(m, start, b);
        lemma_nearest_path_len(m, start, (b - 1) as nat);
        assert(longer.drop_last() =~= shorter);
        if a < b {
            lemma_path_cost_grows(m, start, a, (b - 1) as nat);
        } else {
            lemma_path_cost_grows(m, start, (b - 1) as nat, (b - 1) as nat);
        }
    }
}

/// Fewer than `n` different numbers below `n` leave one of them out.
pub proof fn lemma_one_left(path: Seq<usize>, n: usize)
    requires
        path.no_duplicates(),
        path.len() < n,
        forall|i: int| 0 <= i < path.len() ==> path[i] < n,
    ensures
        exists|j: usize| j < n && !path.contains(j),
{
    if forall|j: usize| j < n ==> path.contains(j) {
        let all = Set::new(|j: usize| j < n);
        let there = path.to_set();
        path.unique_seq_to_set();
        vstd::seq_lib::seq_to_set_is_finite(path);
        lemma_below_len(n);
        assert(all.subset_of(there));
        vstd::set_lib::lemma_len_subset(all, there);
    }
}

/// There are `n` numbers below `n`.
pub proof fn lemma_below_len(n: usize)
    ensures
        Set::new(|j: usize| j < n).finite(),
        Set::new(|j: usize| j < n).len() == n,
    decreases n,
{
    let s = Set::new(|j: usize| j < n);
    if n == 0 {
        assert(s =~= Set::empty());
    } else {
        let less = Set::new(|j: usize| j < (n - 1) as usize);
        lemma_below_len((n - 1) as usize);
        assert(s =~= less.insert((n - 1) as usize));
    }
}

/// Among the first `i` nodes, one is the nearest to `from` outside `seen`,
/// unless `seen` holds them all.
pub proof fn lemma_nearest_among(m: Seq<Seq<usize>>, from: usize, seen: Seq<usize>, i: usize) -> (b:
    Option<usize>)
    requires
        i <= m.len(),
    ensures
        b is None ==> forall|k: usize| k < i ==> seen.contains(k),
        b matches Some(j) ==> j < i && !seen.contains(j) && (forall|k: usize|
            k < i && !seen.contains(k) ==> m[from as int][j as int] <= m[from as int][k as int])
            && (forall|k: usize|
            k < j && !seen.contains(k) ==> m[from as int][j as int] < m[from as int][k as int]),
    decreases i,
{
    if i == 0 {
        None
    } else {
        let last = (i - 1) as usize;
        let before = lemma_nearest_among(m, from, seen, last);
        if seen.contains(last) {
            before
        } else if before is None {
            Some(last)
        } else if m[from as int][last as int] < m[from as int][before->0 as int] {
            Some(last)
        } else {
            before
        }
    }
}

/// A path of the nearest-neighbour heuristic that has not been to every
/// node holds each node at most once, holds nodes of the matrix only, and
/// goes on to a node that it has not been to.
pub proof fn lemma_nearest_path_nodes(m: Seq<Seq<usize>>, start: usize, steps: nat)
    requires
        start < m.len(),
        m.len() <= usize::MAX,
        steps < m.len(),
    ensures
        nearest_path(m, start, steps).no_duplicates(),
        nearest_path(m, start, steps).len() == steps + 1,
        nearest_path(m, start, steps)[0] == start,
        forall|i: int|
            0 <= i <= steps ==> (#[trigger] nearest_path(m, start, steps)[i]) < m.len(),
    decreases steps,
{
    let path = nearest_path(m, start, steps);
    if steps > 0 {
        let before = nearest_path(m, start, (steps - 1) as nat);
        lemma_nearest_path_nodes(m, start, (steps - 1) as nat);
        let n = m.len() as usize;
        lemma_one_left(before, n);
        let found = lemma_nearest_among(m, before.last(), before, n);
        let free = choose|j: usize| j < n && !before.contains(j);
        assert(found is Some);
        assert(is_nearest(m, before.last(), before, found->0));
        lemma_nearest_unique(m, before.last(), before, found->0);
        let next = nearest(m, before.last(), before);
        assert(path == before.push(next));
        assert forall|i: int, j: int| 0 <= i < path.len() && 0 <= j < path.len() && i != j implies path[i]
            != path[j] by {
            if i < before.len() {
                assert(before.contains(path[i]));
            }
            if j < before.len() {
                assert(before.contains(path[j]));
            }
        }
    }
}

/// The tour of the nearest-neighbour heuristic costs at most as many times
/// `bound` as there are nodes, where no edge between two nodes costs more
/// than `bound`: so it fits the numbers where that product does.
pub proof fn lemma_bounded_tour_fits(m: Seq<Seq<usize>>, start: usize, bound: nat)
    requires
        start < m.len(),
        m.len() <= usize::MAX,
        forall|i: int, j: int|
            0 <= i < m.len() && 0 <= j < m.len() && i != j ==> (#[trigger] m[i][j]) <= bound,
        m.len() * bound <= MAX,
    ensures
        tour_cost(m, nearest_neighbour_path(m, start)) <= MAX,
{
    let steps = (m.len() - 1) as nat;
    let path = nearest_neighbour_path(m, start);
    lemma_nearest_path_nodes(m, start, steps);
    lemma_path_cost_bound(m, start, steps, bound);
    if steps > 0 {
        assert(path[steps as int] != path[0]);
        assert(path[steps as int] < m.len());
        assert(m[path[steps as int] as int][path[0] as int] <= bound);
        assert((steps + 1) * bound == steps * bound + bound) by (nonlinear_arith);
    }
}

/// A path of the nearest-neighbour heuristic costs at most as many times
/// `bound` as it has edges, where no edge between two nodes costs more than
/// `bound`.
pub proof fn lemma_path_cost_bound(m: Seq<Seq<usize>>, start: usize, steps: nat, bound: nat)
    requires
        start < m.len(),
        m.len() <= usize::MAX,
        steps < m.len(),
        forall|i: int, j: int|
            0 <= i < m.len() && 0 <= j < m.len() && i != j ==> (#[trigger] m[i][j]) <= bound,
    ensures
        path_cost(m, nearest_path(m, start, steps)) <= steps * bound,
    decreases steps,
{
    if steps > 0 {
        let before = nearest_path(m, start, (steps - 1) as nat);
        let path = nearest_path(m, start, steps);
        lemma_path_cost_bound(m, start, (steps - 1) as nat, bound);
        lemma_nearest_path_nodes(m, start, steps);
        lemma_nearest_path_nodes(m, start, (steps - 1) as nat);
        assert(path.drop_last() =~= before);
        let from = path[path.len() - 2];
        let to = path.last();
        assert(from != to);
        assert(path[steps - 1] < m.len() && path[steps as int] < m.len());
        assert(m[from as int][to as int] <= bound);
        assert(steps * bound == (steps - 1) * bound + bound) by (nonlinear_arith);
    }
}

/// The nearest-neighbour heuristic for the travelling salesman: from `start`,
/// go each time to the nearest node not yet visited. Returns the path, which
/// holds every node once and does not repeat the start at its end, and the
/// cost of the tour, the edge back to the start included.
pub fn nearest_neighbour(graph: Vec<Vec<usize>>, start: usize) -> (r: (Vec<usize>, usize))
    requires
        is_square(matrix_of(&graph)),
        is_complete(matrix_of(&graph)),
        start < graph.len(),
        tour_cost(matrix_of(&graph), nearest_neighbour_path(matrix_of(&graph), start)) <= MAX,
    ensures
        r.0@ == nearest_neighbour_path(matrix_of(&graph), start),
        r.1 == tour_cost(matrix_of(&graph), r.0@),
        r.0@.len() == graph.len(),
        r.0@.no_duplicates(),
        forall|i: int| 0 <= i < r.0@.len() ==> r.0@[i] < graph.len(),
{
    let ghost m = matrix_of(&graph);
    let n = graph.len();
    let mut visited: Vec<bool> = Vec::new();
    let mut i: usize = 0;
    while i < n
        invariant
            i <= n,
            visited@.len() == i,
            forall|j: int| 0 <= j < i ==> !visited@[j],
        decreases n - i,
    {
        visited.push(false);
        i += 1;
    }
    let mut path: Vec<usize> = Vec::new();
    path.push(start);
    let mut cost: usize = 0;
    let mut current_node = start;
    visited.set(current_node, true);
    let mut visited_count: usize = 1;
    proof {
        assert(path@ =~= nearest_path(m, start, 0));
        assert forall|j: usize| j < n implies (visited@[j as int] <==> path@.contains(j)) by {
            if j == start {
                assert(path@[0] == j);
            }
        }
    }
    while visited_count != n
        invariant
            n == graph.len(),
            m == matrix_of(&graph),
            is_square(m),
            is_complete(m),
            start < n,
            1 <= visited_count <= n,
            visited@.len() == n,
            path@.len() == visited_count,
            path@ == nearest_path(m, start, (visited_count - 1) as nat),
            path@.no_duplicates(),
            path@.last() == current_node,
            forall|i: int| 0 <= i < path@.len() ==> path@[i] < n,
            forall|j: usize| j < n ==> (visited@[j as int] <==> path@.contains(j)),
            cost == path_cost(m, path@),
            tour_cost(m, nearest_neighbour_path(m, start)) <= MAX,
        decreases n - visited_count,
    {
        let mut better_cost = MAX;
        let mut next_on_path: Option<usize> = None;
        let row = &graph[current_node];
        assert(row@ == m[current_node as int]);
        assert(path@.contains(current_node));
        let mut i: usize = 0;
        while i < n
            invariant
                i <= n,
                n == visited@.len(),
                row@.len() == n,
                current_node < n,
                visited@[current_node as int],
                next_on_path is None ==> better_cost == MAX,
                next_on_path is None ==> forall|k: usize|
                    k < i && !visited@[k as int] ==> row@[k as int] == MAX,
                next_on_path matches Some(b) ==> {
                    &&& b < i
                    &&& !visited@[b as int]
                    &&& better_cost == row@[b as int]
                    &&& better_cost < MAX
                    &&& forall|k: usize|
                        k < i && !visited@[k as int] ==> row@[b as int] <= row@[k as int]
                    &&& forall|k: usize|
                        k < b && !visited@[k as int] ==> row@[b as int] < row@[k as int]
                },
            decreases n - i,
        {
            if !visited[i] && current_node != i {
                if row[i] < better_cost {
                    better_cost = row[i];
                    next_on_path = Some(i);
                }
            }
            i += 1;
        }
        proof {
            lemma_one_left(path@, n);
            let free = choose|j: usize| j < n && !path@.contains(j);
            assert(!visited@[free as int]);
            assert(path@[path@.len() - 1] == current_node);
            assert(free != current_node);
            assert(m[current_node as int][free as int] < MAX);
        }
        match next_on_path {
            Some(next) => {
                proof {
                    assert(is_nearest(m, current_node, path@, next));
                    lemma_nearest_unique(m, current_node, path@, next);
                    let longer = path@.push(next);
                    assert(longer == nearest_path(m, start, visited_count as nat));
                    assert(longer.drop_last() =~= path@);
                    lemma_path_cost_grows(m, start, visited_count as nat, (n - 1) as nat);
                    lemma_nearest_path_len(m, start, (n - 1) as nat);
                }
                let ghost before = path@;
                path.push(next);
                cost += better_cost;
                current_node = next;
                visited.set(next, true);
                visited_count += 1;
                proof {
                    assert forall|j: usize| j < n implies (visited@[j as int] <==> path@.contains(
                        j,
                    )) by {
                        if before.contains(j) {
                            let at = choose|at: int| 0 <= at < before.len() && before[at] == j;
                            assert(path@[at] == j);
                        }
                        if j == next {
                            assert(path@[before.len() as int] == j);
                        }
                    }
                }
            },
            None => {
                assert(false);
            },
        }
    }
    proof {
        lemma_nearest_path_len(m, start, (n - 1) as nat);
    }
    let back = graph[current_node][start];
    cost += back;
    (path, cost)
}

/// The least cost of an edge from `v` to one of the nodes `joined`.
pub open spec fn dist_to(m: Seq<Seq<usize>>, v: usize, joined: Seq<usize>) -> usize
    decreases joined.len(),
{
    if joined.len() == 0 {
        MAX
    } else {
        let rest = dist_to(m, v, joined.drop_last());
        let last = m[v as int][joined.last() as int];
        if last < rest {
            last
        } else {
            rest
        }
    }
}

/// `r` is the node outside `joined` that is nearest to one of them; of
/// several at the same distance, the one with the least number.
pub open spec fn is_next_to_join(m: Seq<Seq<usize>>, joined: Seq<usize>, r: usize) -> bool {
    &&& r < m.len()
    &&& !joined.contains(r)
    &&& forall|v: usize|
        v < m.len() && !joined.contains(v) ==> dist_to(m, r, joined) <= #[trigger] dist_to(
            m,
            v,
            joined,
        )
    &&& forall|v: usize|
        v < r && !joined.contains(v) ==> dist_to(m, r, joined) < #[trigger] dist_to(m, v, joined)
}

/// The node that joins the cycle next.
pub open spec fn next_to_join(m: Seq<Seq<usize>>, joined: Seq<usize>) -> usize {
    choose|r: usize| is_next_to_join(m, joined, r)
}

/// What the cycle grows by when `r` goes between its nodes `i` and `i + 1`:
/// the two new edges less the edge they replace, each step kept within the
/// range of the numbers.
pub open spec fn extra_cost(m: Seq<Seq<usize>>, cycle: Seq<usize>, r: usize, i: int) -> usize {
    let u = cycle[i] as int;
    let v = cycle[i + 1] as int;
    m[u][r as int].saturating_add(m[r as int][v]).saturating_sub(m[u][v])
}

/// `i` is the place in the cycle where `r` costs the least; of several at
/// the same cost, the first.
pub open spec fn is_best_position(m: Seq<Seq<usize>>, cycle: Seq<usize>, r: usize, i: int) -> bool {
    &&& 0 <= i < cycle.len() - 1
    &&& forall|k: int|
        0 <= k < cycle.len() - 1 ==> extra_cost(m, cycle, r, i) <= #[trigger] extra_cost(
            m,
            cycle,
            r,
            k,
        )
    &&& forall|k: int|
        0 <= k < i ==> extra_cost(m, cycle, r, i) < #[trigger] extra_cost(m, cycle, r, k)
}

/// The place in the cycle where `r` goes.
pub open spec fn best_position(m: Seq<Seq<usize>>, cycle: Seq<usize>, r: usize) -> int {
    choose|i: int| is_best_position(m, cycle, r, i)
}

/// The nodes of the cycle in the order in which they joined it, once
/// `joins` nodes have joined the start.
pub open spec fn insertion_joined(m: Seq<Seq<usize>>, start: usize, joins: nat) -> Seq<usize>
    decreases joins,
{
    if joins <= 1 {
        seq![start, nearest(m, start, seq![start])]
    } else {
        let joined = insertion_joined(m, start, (joins - 1) as nat);
        joined.push(next_to_join(m, joined))
    }
}

/// The cycle of the nearest-insertion heuristic once `joins` nodes have
/// joined the start: it begins with the start, its nearest node and the
/// start again, and each further node goes where it costs the least.
pub open spec fn insertion_cycle(m: Seq<Seq<usize>>, start: usize, joins: nat) -> Seq<usize>
    decreases joins,
{
    if joins <= 1 {
        seq![start, nearest(m, start, seq![start]), start]
    } else {
        let cycle = insertion_cycle(m, start, (joins - 1) as nat);
        let r = next_to_join(m, insertion_joined(m, start, (joins - 1) as nat));
        cycle.insert(best_position(m, cycle, r) + 1, r)
    }
}

/// At most one node is next to join.
pub proof fn lemma_next_to_join_unique(m: Seq<Seq<usize>>, joined: Seq<usize>, r: usize)
    requires
        is_next_to_join(m, joined, r),
    ensures
        next_to_join(m, joined) == r,
{
    let other = next_to_join(m, joined);
    assert(is_next_to_join(m, joined, other));
    if other < r {
        assert(dist_to(m, r, joined) < dist_to(m, other, joined));
        assert(dist_to(m, other, joined) <= dist_to(m, r, joined));
    }
    if r < other {
        assert(dist_to(m, other, joined) < dist_to(m, r, joined));
        assert(dist_to(m, r, joined) <= dist_to(m, other, joined));
    }
}

/// At most one place is the best.
pub proof fn lemma_best_position_unique(m: Seq<Seq<usize>>, cycle: Seq<usize>, r: usize, i: int)
    requires
        is_best_position(m, cycle, r, i),
    ensures
        best_position(m, cycle, r) == i,
{
    let other = best_position(m, cycle, r);
    assert(is_best_position(m, cycle, r, other));
    if other < i {
        assert(extra_cost(m, cycle, r, i) < extra_cost(m, cycle, r, other));
        assert(extra_cost(m, cycle, r, other) <= extra_cost(m, cycle, r, i));
    }
    if i < other {
        assert(extra_cost(m, cycle, r, other) < extra_cost(m, cycle, r, i));
        assert(extra_cost(m, cycle, r, i) <= extra_cost(m, cycle, r, other));
    }
}

/// The distance to a set of nodes is at most the cost of the edge to each.
pub proof fn lemma_dist_to_bound(m: Seq<Seq<usize>>, v: usize, joined: Seq<usize>, i: int)
    requires
        0 <= i < joined.len(),
    ensures
        dist_to(m, v, joined) <= m[v as int][joined[i] as int],
    decreases joined.len(),
{
    if i < joined.len() - 1 {
        lemma_dist_to_bound(m, v, joined.drop_last(), i);
    }
}

/// A sequence without repetition stays so when a new item goes into it.
pub proof fn lemma_insert_fresh(s: Seq<usize>, at: int, r: usize)
    requires
        s.no_duplicates(),
        !s.contains(r),
        0 <= at <= s.len(),
    ensures
        s.insert(at, r).no_duplicates(),
        forall|x: usize| s.insert(at, r).contains(x) <==> (s.contains(x) || x == r),
{
    let t = s.insert(at, r);
    assert forall|i: int, j: int| 0 <= i < t.len() && 0 <= j < t.len() && i != j implies t[i]
        != t[j] by {
        let a = if i < at {
            i
        } else {
            i - 1
        };
        let b = if j < at {
            j
        } else {
            j - 1
        };
        if i != at && j != at {
            assert(t[i] == s[a]);
            assert(t[j] == s[b]);
        } else if i == at {
            assert(t[j] == s[b]);
            assert(s.contains(s[b]));
        } else {
            assert(t[i] == s[a]);
            assert(s.contains(s[a]));
        }
    }
    assert forall|x: usize| t.contains(x) <==> (s.contains(x) || x == r) by {
        if t.contains(x) {
            let i = choose|i: int| 0 <= i < t.len() && t[i] == x;
            if i < at {
                assert(s[i] == x);
            } else if i > at {
                assert(s[i - 1] == x);
            }
        }
        if s.contains(x) {
            let i = choose|i: int| 0 <= i < s.len() && s[i] == x;
            if i < at {
                assert(t[i] == x);
            } else {
                assert(t[i + 1] == x);
            }
        }
        if x == r {
            assert(t[at] == x);
        }
    }
}

/// The nearest-insertion heuristic for the travelling salesman: the cycle
/// begins with `start` and its nearest node; then, until every node is in
/// it, the node nearest to the cycle joins it where it adds the least cost.
/// Returns the cycle, which begins and ends with `start` and holds every
/// other node once.
pub fn nearest_insertion(graph: &Vec<Vec<usize>>, start: usize) -> (cycle: Vec<usize>)
    requires
        is_square(matrix_of(graph)),
        is_complete(matrix_of(graph)),
        start < graph.len(),
        graph.len() >= 2,
    ensures
        cycle@ == insertion_cycle(matrix_of(graph), start, (graph.len() - 1) as nat),
        cycle@.len() == graph.len() + 1,
        cycle@[0] == start,
        cycle@.last() == start,
        cycle@.drop_last().no_duplicates(),
        forall|i: int| 0 <= i < cycle@.len() ==> cycle@[i] < graph.len(),
{
    let ghost m = matrix_of(graph);
    let n = graph.len();
    let mut in_cycle: Vec<bool> = Vec::new();
    let mut min_dist: Vec<usize> = Vec::new();
    let mut i: usize = 0;
    while i < n
        invariant
            i <= n,
            in_cycle@.len() == i,
            min_dist@.len() == i,
            forall|j: int| 0 <= j < i ==> !in_cycle@[j],
        decreases n - i,
    {
        in_cycle.push(false);
        min_dist.push(MAX);
        i += 1;
    }
    in_cycle.set(start, true);

    let mut first: Option<usize> = None;
    let mut best = MAX;
    let row = &graph[start];
    assert(row@ == m[start as int]);
    let mut i: usize = 0;
    while i < n
        invariant
            i <= n,
            row@.len() == n,
            start < n,
            first is None ==> best == MAX,
            first is None ==> forall|k: usize| k < i && k != start ==> row@[k as int] == MAX,
            first matches Some(b) ==> {
                &&& b < i
                &&& b != start
                &&& best == row@[b as int]
                &&& forall|k: usize| k < i && k != start ==> row@[b as int] <= row@[k as int]
                &&& forall|k: usize| k < b && k != start ==> row@[b as int] < row@[k as int]
            },
        decreases n - i,
    {
        if i != start && row[i] < best {
            best = row[i];
            first = Some(i);
        }
        i += 1;
    }
    let ghost only_start = seq![start];
    proof {
        let other: usize = if start == 0 {
            1
        } else {
            0
        };
        assert(m[start as int][other as int] < MAX);
    }
    let first = match first {
        Some(first) => first,
        None => {
            assert(false);
            start
        },
    };
    proof {
        assert(only_start[0] == start);
        assert forall|k: usize| k < n && !only_start.contains(k) implies row@[first as int]
            <= row@[k as int] by {}
        assert(is_nearest(m, start, only_start, first));
        lemma_nearest_unique(m, start, only_start, first);
    }
    in_cycle.set(first, true);
    let mut cycle: Vec<usize> = Vec::new();
    cycle.push(start);
    cycle.push(first);
    cycle.push(start);
    let ghost mut joined: Seq<usize> = seq![start, first];
    proof {
        assert(cycle@ =~= insertion_cycle(m, start, 1));
        assert(joined =~= insertion_joined(m, start, 1));
        assert(cycle@.drop_last() =~= joined);
    }
    let mut v: usize = 0;
    while v < n
        invariant
            v <= n,
            n == graph.len(),
            m == matrix_of(graph),
            is_square(m),
            start < n,
            first < n,
            in_cycle@.len() == n,
            min_dist@.len() == n,
            joined == seq![start, first],
            forall|k: usize| k < n ==> (in_cycle@[k as int] <==> k == start || k == first),
            forall|k: usize|
                k < v && !in_cycle@[k as int] ==> min_dist@[k as int] == dist_to(m, k, joined),
        decreases n - v,
    {
        if !in_cycle[v] {
            assert(graph@[v as int]@ == m[v as int]);
            let a = graph[v][start];
            let b = graph[v][first];
            let d = if a <= b {
                a
            } else {
                b
            };
            min_dist.set(v, d);
            proof {
                assert(joined.drop_last() =~= seq![start]);
                assert(seq![start].drop_last() =~= Seq::<usize>::empty());
                assert(dist_to(m, v, Seq::<usize>::empty()) == MAX);
                assert(dist_to(m, v, seq![start]) == a);
                assert(dist_to(m, v, joined) == d);
            }
        }
        v += 1;
    }
    proof {
        assert forall|k: usize| k < n implies (in_cycle@[k as int] <==> joined.contains(k)) by {
            if k == start {
                assert(joined[0] == k);
            }
            if k == first {
                assert(joined[1] == k);
            }
        }
    }

    let mut count_in_cycle: usize = 2;
    while count_in_cycle < n
        invariant
            n == graph.len(),
            m == matrix_of(graph),
            is_square(m),
            is_complete(m),
            start < n,
            2 <= count_in_cycle <= n,
            in_cycle@.len() == n,
            min_dist@.len() == n,
            cycle@.len() == count_in_cycle + 1,
            joined.len() == count_in_cycle,
            cycle@ == insertion_cycle(m, start, (count_in_cycle - 1) as nat),
            joined == insertion_joined(m, start, (count_in_cycle - 1) as nat),
            joined.no_duplicates(),
            joined[0] == start,
            forall|i: int| 0 <= i < joined.len() ==> joined[i] < n,
            cycle@[0] == start,
            cycle@.last() == start,
            cycle@.drop_last().no_duplicates(),
            forall|i: int| 0 <= i < cycle@.len() ==> cycle@[i] < n,
            forall|k: usize| k < n ==> (in_cycle@[k as int] <==> joined.contains(k)),
            forall|k: usize| cycle@.drop_last().contains(k) <==> joined.contains(k),
            forall|k: usize|
                k < n && !in_cycle@[k as int] ==> min_dist@[k as int] == dist_to(m, k, joined),
        decreases n - count_in_cycle,
    {
        let mut r_star: Option<usize> = None;
        let mut best_dist = MAX;
        let mut v: usize = 0;
        while v < n
            invariant
                v <= n,
                in_cycle@.len() == n,
                min_dist@.len() == n,
                r_star is None ==> best_dist == MAX,
                r_star is None ==> forall|k: usize|
                    k < v && !in_cycle@[k as int] ==> min_dist@[k as int] == MAX,
                r_star matches Some(b) ==> {
                    &&& b < v
                    &&& !in_cycle@[b as int]
                    &&& best_dist == min_dist@[b as int]
                    &&& forall|k: usize|
                        k < v && !in_cycle@[k as int] ==> min_dist@[b as int] <= min_dist@[k as int]
                    &&& forall|k: usize|
                        k < b && !in_cycle@[k as int] ==> min_dist@[b as int] < min_dist@[k as int]
                },
            decreases n - v,
        {
            if !in_cycle[v] && min_dist[v] < best_dist {
                best_dist = min_dist[v];
                r_star = Some(v);
            }
            v += 1;
        }
        proof {
            lemma_one_left(joined, n);
            let free = choose|j: usize| j < n && !joined.contains(j);
            lemma_dist_to_bound(m, free, joined, 0);
            assert(free != start);
            assert(m[free as int][start as int] < MAX);
            assert(min_dist@[free as int] < MAX);
        }
        let r_star = match r_star {
            Some(r) => r,
            None => {
                assert(false);
                start
            },
        };
        proof {
            assert(is_next_to_join(m, joined, r_star));
            lemma_next_to_join_unique(m, joined, r_star);
        }
        let mut best_extra = MAX;
        let mut best_pos: usize = 0;
        let mut i: usize = 0;
        let last = cycle.len() - 1;
        while i < last
            invariant
                i <= last,
                last == cycle@.len() - 1,
                last >= 2,
                n == graph.len(),
                m == matrix_of(graph),
                is_square(m),
                r_star < n,
                forall|i: int| 0 <= i < cycle@.len() ==> cycle@[i] < n,
                best_pos < last,
                i == 0 ==> best_extra == MAX && best_pos == 0,
                i > 0 ==> best_pos < i,
                i > 0 ==> best_extra == extra_cost(m, cycle@, r_star, best_pos as int),
                forall|k: int|
                    0 <= k < i ==> extra_cost(m, cycle@, r_star, best_pos as int) <= #[trigger] extra_cost(
                        m,
                        cycle@,
                        r_star,
                        k,
                    ),
                forall|k: int|
                    0 <= k < best_pos ==> extra_cost(m, cycle@, r_star, best_pos as int) < #[trigger] extra_cost(
                        m,
                        cycle@,
                        r_star,
                        k,
                    ),
            decreases last - i,
        {
            let u = cycle[i];
            let w = cycle[i + 1];
            assert(cycle@[i as int] < n && cycle@[i + 1] < n);
            assert(graph@[u as int]@ == m[u as int]);
            assert(graph@[r_star as int]@ == m[r_star as int]);
            let du = graph[u][r_star];
            let dv = graph[r_star][w];
            let uv = graph[u][w];
            let extra = du.saturating_add(dv).saturating_sub(uv);
            assert(extra == extra_cost(m, cycle@, r_star, i as int));
            if extra < best_extra {
                best_extra = extra;
                best_pos = i;
            } else if i == 0 {
                assert(extra == MAX);
            }
            i += 1;
        }
        proof {
            assert(is_best_position(m, cycle@, r_star, best_pos as int));
            lemma_best_position_unique(m, cycle@, r_star, best_pos as int);
            let body = cycle@.drop_last();
            assert(!body.contains(r_star));
            lemma_insert_fresh(body, best_pos + 1, r_star);
            assert(cycle@.insert(best_pos + 1, r_star).drop_last() =~= body.insert(
                best_pos + 1,
                r_star,
            ));
        }
        let ghost old_joined = joined;
        let ghost old_cycle = cycle@;
        cycle.insert(best_pos + 1, r_star);
        in_cycle.set(r_star, true);
        count_in_cycle += 1;
        proof {
            joined = old_joined.push(r_star);
            assert(joined.drop_last() =~= old_joined);
            assert forall|i: int, j: int|
                0 <= i < joined.len() && 0 <= j < joined.len() && i != j implies joined[i]
                != joined[j] by {
                if i < old_joined.len() {
                    assert(old_joined.contains(joined[i]));
                }
                if j < old_joined.len() {
                    assert(old_joined.contains(joined[j]));
                }
            }
            assert forall|k: usize| joined.contains(k) <==> (old_joined.contains(k) || k
                == r_star) by {
                if joined.contains(k) {
                    let i = choose|i: int| 0 <= i < joined.len() && joined[i] == k;
                    if i < old_joined.len() {
                        assert(old_joined[i] == k);
                    }
                }
                if old_joined.contains(k) {
                    let i = choose|i: int| 0 <= i < old_joined.len() && old_joined[i] == k;
                    assert(joined[i] == k);
                }
                if k == r_star {
                    assert(joined[old_joined.len() as int] == k);
                }
            }
            assert forall|i: int| 0 <= i < cycle@.len() implies cycle@[i] < n by {
                if i < best_pos + 1 {
                    assert(cycle@[i] == old_cycle[i]);
                } else if i > best_pos + 1 {
                    assert(cycle@[i] == old_cycle[i - 1]);
                }
            }
        }
        let mut v: usize = 0;
        while v < n
            invariant
                v <= n,
                n == graph.len(),
                m == matrix_of(graph),
                is_square(m),
                r_star < n,
                in_cycle@.len() == n,
                min_dist@.len() == n,
                joined == old_joined.push(r_star),
                forall|k: usize| k < n ==> (in_cycle@[k as int] <==> joined.contains(k)),
                forall|k: usize|
                    k < v && !in_cycle@[k as int] ==> min_dist@[k as int] == dist_to(m, k, joined),
                forall|k: usize|
                    v <= k < n && !in_cycle@[k as int] ==> min_dist@[k as int] == dist_to(
                        m,
                        k,
                        old_joined,
                    ),
            decreases n - v,
        {
            if !in_cycle[v] {
                assert(graph@[v as int]@ == m[v as int]);
                let d = graph[v][r_star];
                proof {
                    assert(joined.drop_last() =~= old_joined);
                }
                if d < min_dist[v] {
                    min_dist.set(v, d);
                }
            }
            v += 1;
        }
    }
    cycle
}

} // verus!
