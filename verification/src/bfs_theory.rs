use crate::graph::{edge, neighbor_seq, Node};
use crate::reach::{
    lemma_reaches_last_edge, lemma_reaches_self, lemma_reaches_step, reaches, reaches_in,
};
use crate::traversal::{bfs_init, bfs_scan, bfs_step, BfsState};
use vstd::prelude::*;

verus! {

/// `d` is the number of edges of the shortest walk from `a` to `b`.
pub open spec fn is_distance<N>(adj: Map<N, Seq<N>>, a: N, b: N, d: nat) -> bool {
    reaches_in(adj, a, b, d) && forall|e: nat| e < d ==> !reaches_in(adj, a, b, e)
}

/// The distance from `a` to `b`: the number of edges of the shortest walk
/// between them, where there is a walk.
pub open spec fn distance<N>(adj: Map<N, Seq<N>>, a: N, b: N) -> nat {
    choose|d: nat| is_distance(adj, a, b, d)
}

/// Where a walk of `d` edges leads from `a` to `b`, some walk is the shortest.
pub proof fn lemma_shortest_exists<N>(adj: Map<N, Seq<N>>, a: N, b: N, d: nat)
    requires
        reaches_in(adj, a, b, d),
    ensures
        is_distance(adj, a, b, distance(adj, a, b)),
        distance(adj, a, b) <= d,
    decreases d,
{
    if exists|e: nat| e < d && reaches_in(adj, a, b, e) {
        let e = choose|e: nat| e < d && reaches_in(adj, a, b, e);
        lemma_shortest_exists(adj, a, b, e);
    } else {
        assert(is_distance(adj, a, b, d));
        let least = distance(adj, a, b);
        if least > d {
            assert(!reaches_in(adj, a, b, d));
        }
    }
}

/// The node was seen and has left the queue.
pub open spec fn is_done<N>(s: BfsState<N>, v: N) -> bool {
    s.visited.contains(v) && !s.queue.contains(v)
}

/// The nodes are in the order of their distance from `start`.
pub open spec fn by_distance<N>(adj: Map<N, Seq<N>>, start: N, nodes: Seq<N>) -> bool {
    forall|i: int, j: int|
        0 <= i <= j < nodes.len() ==> distance(adj, start, #[trigger] nodes[i]) <= distance(
            adj,
            start,
            #[trigger] nodes[j],
        )
}

/// What holds of a walk while it looks at the neighbours of the node `u`
/// that it took from the queue, and, with `u` left out, between two pulls:
/// every node seen is reached from `start`; the queue holds nodes seen, each
/// once, in the order of their distance, none nearer than `u` and none more
/// than one edge farther; the nodes that have left the queue are no farther
/// than `u`, and, but for `u`, every neighbour of theirs is seen.
pub open spec fn scan_inv<N: Node>(
    adj: Map<N, Seq<N>>,
    start: N,
    s: BfsState<N>,
    u: N,
    taken: Seq<N>,
) -> bool {
    &&& s.visited.contains(start)
    &&& is_done(s, u)
    &&& forall|v: N| #[trigger] s.visited.contains(v) ==> reaches(adj, start, v)
    &&& forall|i: int| 0 <= i < s.queue.len() ==> s.visited.contains(#[trigger] s.queue[i])
    &&& s.queue.no_duplicates()
    &&& forall|v: N, m: N|
        is_done(s, v) && v != u && #[trigger] edge(adj, v, m) ==> s.visited.contains(m)
    &&& by_distance(adj, start, s.queue)
    &&& forall|i: int|
        0 <= i < s.queue.len() ==> distance(adj, start, u) <= distance(
            adj,
            start,
            #[trigger] s.queue[i],
        ) <= distance(adj, start, u) + 1
    &&& forall|v: N| #[trigger] is_done(s, v) ==> distance(adj, start, v) <= distance(adj, start, u)
    &&& forall|i: int| 0 <= i < taken.len() ==> is_done(s, #[trigger] taken[i])
    &&& by_distance(adj, start, taken)
}

/// What holds of a walk between two pulls, with the nodes it has taken from
/// the queue so far.
pub open spec fn bfs_inv<N: Node>(
    adj: Map<N, Seq<N>>,
    start: N,
    s: BfsState<N>,
    taken: Seq<N>,
) -> bool {
    &&& s.visited.contains(start)
    &&& forall|v: N| #[trigger] s.visited.contains(v) ==> reaches(adj, start, v)
    &&& forall|i: int| 0 <= i < s.queue.len() ==> s.visited.contains(#[trigger] s.queue[i])
    &&& s.queue.no_duplicates()
    &&& forall|v: N, m: N| is_done(s, v) && #[trigger] edge(adj, v, m) ==> s.visited.contains(m)
    &&& by_distance(adj, start, s.queue)
    &&& s.queue.len() > 0 ==> distance(adj, start, s.queue.last()) <= distance(
        adj,
        start,
        s.queue[0],
    ) + 1
    &&& forall|v: N, i: int|
        #[trigger] is_done(s, v) && 0 <= i < s.queue.len() ==> distance(adj, start, v) <= distance(
            adj,
            start,
            #[trigger] s.queue[i],
        )
    &&& forall|i: int| 0 <= i < taken.len() ==> is_done(s, #[trigger] taken[i])
    &&& by_distance(adj, start, taken)
}

/// While the walk looks at the neighbours of `u`, every node nearer to
/// `start` than `u`, or as near, has been seen.
pub proof fn lemma_near_nodes_seen<N: Node>(
    adj: Map<N, Seq<N>>,
    start: N,
    s: BfsState<N>,
    u: N,
    taken: Seq<N>,
    x: N,
    e: nat,
)
    requires
        scan_inv(adj, start, s, u, taken),
        reaches_in(adj, start, x, e),
        e <= distance(adj, start, u),
    ensures
        s.visited.contains(x),
    decreases e,
{
    if e == 0 {
        let walk = choose|walk: Seq<N>|
            #[trigger] crate::reach::is_walk(adj, walk) && walk.len() == e + 1 && walk[0] == start
                && walk.last() == x;
        assert(x == start);
    } else {
        let y = lemma_reaches_last_edge(adj, start, x, e);
        lemma_near_nodes_seen(adj, start, s, u, taken, y, (e - 1) as nat);
        lemma_shortest_exists(adj, start, y, (e - 1) as nat);
        assert(distance(adj, start, y) < distance(adj, start, u));
        if s.queue.contains(y) {
            let i = choose|i: int| 0 <= i < s.queue.len() && s.queue[i] == y;
            assert(distance(adj, start, u) <= distance(adj, start, s.queue[i]));
        }
        assert(is_done(s, y) && y != u);
        assert(edge(adj, y, x));
    }
}

/// A neighbour of `u` that has not been seen is one edge farther from
/// `start` than `u`.
pub proof fn lemma_new_node_distance<N: Node>(
    adj: Map<N, Seq<N>>,
    start: N,
    s: BfsState<N>,
    u: N,
    taken: Seq<N>,
    n: N,
)
    requires
        scan_inv(adj, start, s, u, taken),
        edge(adj, u, n),
        !s.visited.contains(n),
    ensures
        reaches(adj, start, n),
        distance(adj, start, n) == distance(adj, start, u) + 1,
{
    let du = distance(adj, start, u);
    assert(reaches(adj, start, u));
    let d = choose|d: nat| reaches_in(adj, start, u, d);
    lemma_shortest_exists(adj, start, u, d);
    lemma_reaches_step(adj, start, u, n, du);
    lemma_shortest_exists(adj, start, n, (du + 1) as nat);
    let dn = distance(adj, start, n);
    if dn <= du {
        lemma_near_nodes_seen(adj, start, s, u, taken, n, dn);
    }
}

/// Looking at one more neighbour of `u` keeps `scan_inv`.
pub proof fn lemma_scan_inv<N: Node>(
    adj: Map<N, Seq<N>>,
    start: N,
    s0: BfsState<N>,
    u: N,
    taken: Seq<N>,
    k: int,
)
    requires
        scan_inv(adj, start, s0, u, taken),
        0 <= k <= neighbor_seq(adj, u).len(),
    ensures
        scan_inv(adj, start, bfs_scan(s0, u, neighbor_seq(adj, u), k).state, u, taken),
        forall|j: int|
            0 <= j < k ==> bfs_scan(s0, u, neighbor_seq(adj, u), k).state.visited.contains(
                #[trigger] neighbor_seq(adj, u)[j],
            ),
    decreases k,
{
    let nbrs = neighbor_seq(adj, u);
    if k > 0 {
        lemma_scan_inv(adj, start, s0, u, taken, k - 1);
        let prev = bfs_scan(s0, u, nbrs, k - 1).state;
        let next = bfs_scan(s0, u, nbrs, k).state;
        let n = nbrs[k - 1];
        assert(edge(adj, u, n));
        if !prev.visited.contains(n) {
            lemma_new_node_distance(adj, start, prev, u, taken, n);
            assert(next.queue == prev.queue.push(n));
            assert(next.visited == prev.visited.insert(n));
            lemma_scan_push(adj, start, prev, u, taken, n, next);
        } else {
            assert(next.queue == prev.queue);
            assert(next.visited == prev.visited);
        }
        assert forall|j: int| 0 <= j < k implies next.visited.contains(#[trigger] nbrs[j]) by {
            if j < k - 1 {
                assert(prev.visited.contains(nbrs[j]));
            }
        }
    }
}

/// Adding a new node, one edge farther than `u`, to the end of the queue
/// keeps `scan_inv`.
pub proof fn lemma_scan_push<N: Node>(
    adj: Map<N, Seq<N>>,
    start: N,
    s: BfsState<N>,
    u: N,
    taken: Seq<N>,
    n: N,
    t: BfsState<N>,
)
    requires
        scan_inv(adj, start, s, u, taken),
        !s.visited.contains(n),
        reaches(adj, start, n),
        distance(adj, start, n) == distance(adj, start, u) + 1,
        t.queue == s.queue.push(n),
        t.visited == s.visited.insert(n),
    ensures
        scan_inv(adj, start, t, u, taken),
{
    {
        assert(!s.queue.contains(n)) by {
            if s.queue.contains(n) {
                let i = choose|i: int| 0 <= i < s.queue.len() && s.queue[i] == n;
                assert(s.visited.contains(s.queue[i]));
            }
        }
        crate::dfs_theory::lemma_push_fresh(s.queue, n);
        assert forall|v: N| is_done(t, v) <==> is_done(s, v) by {
            assert(t.queue.contains(v) <==> s.queue.contains(v) || v == n);
        }
        assert forall|i: int| 0 <= i < t.queue.len() implies t.visited.contains(
            #[trigger] t.queue[i],
        ) by {
            if i < s.queue.len() {
                assert(s.visited.contains(s.queue[i]));
            }
        }
        assert forall|i: int| 0 <= i < t.queue.len() implies distance(adj, start, u) <= distance(
            adj,
            start,
            #[trigger] t.queue[i],
        ) <= distance(adj, start, u) + 1 by {
            if i < s.queue.len() {
                assert(t.queue[i] == s.queue[i]);
            }
        }
        assert forall|i: int, j: int| 0 <= i <= j < t.queue.len() implies distance(
            adj,
            start,
            #[trigger] t.queue[i],
        ) <= distance(adj, start, #[trigger] t.queue[j]) by {
            if j < s.queue.len() {
                assert(t.queue[i] == s.queue[i]);
                assert(t.queue[j] == s.queue[j]);
            } else if i < s.queue.len() {
                assert(t.queue[i] == s.queue[i]);
            }
        }
        assert forall|v: N, m: N| is_done(t, v) && v != u && #[trigger] edge(
            adj,
            v,
            m,
        ) implies t.visited.contains(m) by {
            assert(is_done(s, v));
        }
        assert forall|i: int| 0 <= i < taken.len() implies is_done(t, #[trigger] taken[i]) by {
            assert(is_done(s, taken[i]));
        }
        assert forall|v: N| #[trigger] is_done(t, v) implies distance(adj, start, v) <= distance(
            adj,
            start,
            u,
        ) by {
            assert(is_done(s, v));
        }
    }
}

/// The nodes that the pulls took from the queue, oldest first, with the
/// state that the walk is in after them.
pub open spec fn bfs_run<N: Node>(adj: Map<N, Seq<N>>, s: BfsState<N>, pulls: nat) -> (
    BfsState<N>,
    Seq<N>,
)
    decreases pulls,
{
    if pulls == 0 {
        (s, Seq::empty())
    } else {
        let (before, taken) = bfs_run(adj, s, (pulls - 1) as nat);
        (
            bfs_step(adj, before).0,
            if before.queue.len() > 0 {
                taken.push(before.queue[0])
            } else {
                taken
            },
        )
    }
}

/// A new walk from `start` is in a state of which `bfs_inv` holds.
pub proof fn lemma_bfs_inv_init<N: Node>(adj: Map<N, Seq<N>>, start: N)
    ensures
        bfs_inv(adj, start, bfs_init(start), Seq::empty()),
{
    let s = bfs_init(start);
    lemma_reaches_self(adj, start);
    assert(s.queue[0] == start);
    assert forall|v: N| !is_done(s, v) by {
        if s.visited.contains(v) {
            assert(s.queue[0] == v);
        }
    }
}

/// A pull keeps `bfs_inv`, with the node that it took from the queue.
pub proof fn lemma_bfs_inv_step<N: Node>(
    adj: Map<N, Seq<N>>,
    start: N,
    s: BfsState<N>,
    taken: Seq<N>,
)
    requires
        bfs_inv(adj, start, s, taken),
        s.queue.len() > 0,
    ensures
        bfs_inv(adj, start, bfs_step(adj, s).0, taken.push(s.queue[0])),
{
    let u = s.queue[0];
    let nbrs = neighbor_seq(adj, u);
    let s0 = BfsState { queue: s.queue.skip(1), ..s };
    let later = taken.push(u);
    assert(s.visited.contains(s.queue[0]));
    assert forall|v: N| s0.queue.contains(v) <==> s.queue.contains(v) && v != u by {
        if s0.queue.contains(v) {
            let i = choose|i: int| 0 <= i < s0.queue.len() && s0.queue[i] == v;
            assert(s.queue[i + 1] == v);
        }
        if s.queue.contains(v) && v != u {
            let i = choose|i: int| 0 <= i < s.queue.len() && s.queue[i] == v;
            assert(s0.queue[i - 1] == v);
        }
    }
    assert forall|i: int| 0 <= i < s0.queue.len() implies s0.queue[i] == s.queue[i + 1] by {}
    assert forall|i: int| 0 <= i < s0.queue.len() implies distance(adj, start, u) <= distance(
        adj,
        start,
        #[trigger] s0.queue[i],
    ) <= distance(adj, start, u) + 1 by {
        assert(s0.queue[i] == s.queue[i + 1]);
        assert(distance(adj, start, s.queue[0]) <= distance(adj, start, s.queue[i + 1]));
        assert(distance(adj, start, s.queue[i + 1]) <= distance(
            adj,
            start,
            s.queue[s.queue.len() - 1],
        ));
    }
    assert forall|i: int, j: int| 0 <= i <= j < s0.queue.len() implies distance(
        adj,
        start,
        #[trigger] s0.queue[i],
    ) <= distance(adj, start, #[trigger] s0.queue[j]) by {
        assert(distance(adj, start, s.queue[i + 1]) <= distance(adj, start, s.queue[j + 1]));
    }
    assert forall|i: int, j: int| 0 <= i < s0.queue.len() && 0 <= j < s0.queue.len() && i
        != j implies s0.queue[i] != s0.queue[j] by {
        assert(s.queue[i + 1] != s.queue[j + 1]);
    }
    assert forall|i: int| 0 <= i < s0.queue.len() implies s0.visited.contains(
        #[trigger] s0.queue[i],
    ) by {
        assert(s.visited.contains(s.queue[i + 1]));
    }
    assert forall|v: N| #[trigger] is_done(s0, v) implies distance(adj, start, v) <= distance(
        adj,
        start,
        u,
    ) by {
        if v != u {
            assert(is_done(s, v));
        }
    }
    assert forall|i: int| 0 <= i < later.len() implies is_done(s0, #[trigger] later[i]) by {
        if i < taken.len() {
            assert(is_done(s, taken[i]));
        }
    }
    assert forall|i: int, j: int| 0 <= i <= j < later.len() implies distance(
        adj,
        start,
        #[trigger] later[i],
    ) <= distance(adj, start, #[trigger] later[j]) by {
        if j < taken.len() {
            assert(later[i] == taken[i] && later[j] == taken[j]);
        } else if i < taken.len() {
            assert(is_done(s, taken[i]));
            assert(later[i] == taken[i]);
        }
    }
    assert forall|v: N, m: N| is_done(s0, v) && v != u && #[trigger] edge(
        adj,
        v,
        m,
    ) implies s0.visited.contains(m) by {
        assert(is_done(s, v));
    }
    assert(scan_inv(adj, start, s0, u, later));
    lemma_scan_inv(adj, start, s0, u, later, nbrs.len() as int);
    let t = bfs_step(adj, s).0;
    assert(t == bfs_scan(s0, u, nbrs, nbrs.len() as int).state);
    assert forall|v: N, m: N| is_done(t, v) && #[trigger] edge(adj, v, m) implies t.visited.contains(
        m,
    ) by {
        if v == u {
            let j = choose|j: int| 0 <= j < nbrs.len() && nbrs[j] == m;
            assert(t.visited.contains(nbrs[j]));
        }
    }
    if t.queue.len() > 0 {
        assert(distance(adj, start, u) <= distance(adj, start, t.queue[0]));
        assert(distance(adj, start, t.queue[t.queue.len() - 1]) <= distance(adj, start, u) + 1);
    }
    assert forall|v: N, i: int| #[trigger] is_done(t, v) && 0 <= i < t.queue.len() implies distance(
        adj,
        start,
        v,
    ) <= distance(adj, start, #[trigger] t.queue[i]) by {
        assert(distance(adj, start, u) <= distance(adj, start, t.queue[i]));
    }
}

/// Every state that a new walk from `start` reaches, with the nodes taken
/// from the queue up to it, meets `bfs_inv`.
pub proof fn lemma_bfs_run_inv<N: Node>(adj: Map<N, Seq<N>>, start: N, pulls: nat)
    ensures
        bfs_inv(
            adj,
            start,
            bfs_run(adj, bfs_init(start), pulls).0,
            bfs_run(adj, bfs_init(start), pulls).1,
        ),
    decreases pulls,
{
    if pulls == 0 {
        lemma_bfs_inv_init(adj, start);
    } else {
        lemma_bfs_run_inv(adj, start, (pulls - 1) as nat);
        let (before, taken) = bfs_run(adj, bfs_init(start), (pulls - 1) as nat);
        if before.queue.len() > 0 {
            lemma_bfs_inv_step(adj, start, before, taken);
        }
    }
}

/// A breadth-first walk takes up the nodes in the order of their distance
/// from `start`: of two nodes that it takes from the queue, each of which
/// `start` reaches, the earlier is no farther from `start` than the later.
pub proof fn law_breadth_first_order<N: Node>(
    adj: Map<N, Seq<N>>,
    start: N,
    pulls: nat,
    i: int,
    j: int,
)
    requires
        0 <= i <= j < bfs_run(adj, bfs_init(start), pulls).1.len(),
    ensures
        ({
            let taken = bfs_run(adj, bfs_init(start), pulls).1;
            &&& reaches(adj, start, taken[i])
            &&& reaches(adj, start, taken[j])
            &&& distance(adj, start, taken[i]) <= distance(adj, start, taken[j])
        }),
{
    lemma_bfs_run_inv(adj, start, pulls);
    let (s, taken) = bfs_run(adj, bfs_init(start), pulls);
    assert(is_done(s, taken[i]));
    assert(is_done(s, taken[j]));
}

/// A pull is determined by the neighbours of the nodes: in two graphs in
/// which every node has the same neighbours in the same order, a walk takes
/// the same step from the same state.
pub proof fn lemma_bfs_step_determined<N: Node>(
    first: Map<N, Seq<N>>,
    second: Map<N, Seq<N>>,
    s: BfsState<N>,
)
    requires
        forall|n: N| #[trigger] neighbor_seq(first, n) == neighbor_seq(second, n),
    ensures
        bfs_step(first, s) == bfs_step(second, s),
{
    if s.queue.len() > 0 {
        assert(neighbor_seq(first, s.queue[0]) == neighbor_seq(second, s.queue[0]));
    }
}

/// A breadth-first walk is determined by the graph and the start node: two
/// walks from the same start node, over graphs in which every node has the
/// same neighbours in the same order, reach the same state and take up the
/// same nodes in the same order.
pub proof fn law_breadth_first_determined<N: Node>(
    first: Map<N, Seq<N>>,
    second: Map<N, Seq<N>>,
    start: N,
    pulls: nat,
)
    requires
        forall|n: N| #[trigger] neighbor_seq(first, n) == neighbor_seq(second, n),
    ensures
        bfs_run(first, bfs_init(start), pulls) == bfs_run(second, bfs_init(start), pulls),
    decreases pulls,
{
    if pulls > 0 {
        law_breadth_first_determined(first, second, start, (pulls - 1) as nat);
        lemma_bfs_step_determined(first, second, bfs_run(first, bfs_init(start), (pulls - 1) as nat).0);
    }
}

} // verus!
