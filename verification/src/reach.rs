use crate::graph::edge;
use vstd::prelude::*;

verus! {

/// The node at the place `i` of `walk` has the next one as a neighbour.
pub open spec fn is_step<N>(adj: Map<N, Seq<N>>, walk: Seq<N>, i: int) -> bool {
    edge(adj, walk[i], walk[i + 1])
}

/// Each node of `walk` but the last has the next one as a neighbour.
pub open spec fn is_walk<N>(adj: Map<N, Seq<N>>, walk: Seq<N>) -> bool {
    forall|i: int| 0 <= i < walk.len() - 1 ==> #[trigger] is_step(adj, walk, i)
}

/// A walk of `d` edges leads from `a` to `b`.
pub open spec fn reaches_in<N>(adj: Map<N, Seq<N>>, a: N, b: N, d: nat) -> bool {
    exists|walk: Seq<N>|
        #[trigger] is_walk(adj, walk) && walk.len() == d + 1 && walk[0] == a && walk.last() == b
}

/// Some walk leads from `a` to `b`.
pub open spec fn reaches<N>(adj: Map<N, Seq<N>>, a: N, b: N) -> bool {
    exists|d: nat| reaches_in(adj, a, b, d)
}

/// The nodes that a walk from `a` leads to, `a` among them.
pub open spec fn reachable<N>(adj: Map<N, Seq<N>>, a: N) -> Set<N> {
    Set::new(|b: N| reaches(adj, a, b))
}

/// The nodes that a walk from one of `roots` leads to.
pub open spec fn reachable_from<N>(adj: Map<N, Seq<N>>, roots: Set<N>) -> Set<N> {
    Set::new(|b: N| exists|a: N| roots.contains(a) && #[trigger] reaches(adj, a, b))
}

/// Every node reaches itself, by the walk without edges.
pub proof fn lemma_reaches_self<N>(adj: Map<N, Seq<N>>, a: N)
    ensures
        reaches_in(adj, a, a, 0),
        reaches(adj, a, a),
{
    let walk = seq![a];
    assert(is_walk(adj, walk) && walk.len() == 1 && walk[0] == a && walk.last() == a);
    assert(reaches_in(adj, a, a, 0nat));
}

/// A walk goes on by one edge.
pub proof fn lemma_reaches_step<N>(adj: Map<N, Seq<N>>, a: N, b: N, c: N, d: nat)
    requires
        reaches_in(adj, a, b, d),
        edge(adj, b, c),
    ensures
        reaches_in(adj, a, c, (d + 1) as nat),
        reaches(adj, a, c),
{
    let walk = choose|walk: Seq<N>|
        #[trigger] is_walk(adj, walk) && walk.len() == d + 1 && walk[0] == a && walk.last() == b;
    let longer = walk.push(c);
    assert forall|i: int| 0 <= i < longer.len() - 1 implies #[trigger] is_step(
        adj,
        longer,
        i,
    ) by {
        if i < walk.len() - 1 {
            assert(is_step(adj, walk, i));
        }
    }
    assert(is_walk(adj, longer) && longer.len() == d + 2 && longer[0] == a && longer.last() == c);
    assert(reaches_in(adj, a, c, (d + 1) as nat));
}

/// A walk of at least one edge ends with an edge from a node that a walk
/// shorter by one leads to.
pub proof fn lemma_reaches_last_edge<N>(adj: Map<N, Seq<N>>, a: N, c: N, d: nat) -> (b: N)
    requires
        reaches_in(adj, a, c, d),
        d > 0,
    ensures
        reaches_in(adj, a, b, (d - 1) as nat),
        edge(adj, b, c),
{
    let walk = choose|walk: Seq<N>|
        #[trigger] is_walk(adj, walk) && walk.len() == d + 1 && walk[0] == a && walk.last() == c;
    let shorter = walk.drop_last();
    assert forall|i: int| 0 <= i < shorter.len() - 1 implies #[trigger] is_step(
        adj,
        shorter,
        i,
    ) by {
        assert(is_step(adj, walk, i));
    }
    assert(is_walk(adj, shorter) && shorter.len() == d && shorter[0] == a && shorter.last()
        == walk[d - 1]);
    assert(is_step(adj, walk, d - 1));
    walk[d - 1]
}

/// A set that holds `a` and, with each node, its neighbours, holds every
/// node that `a` reaches.
pub proof fn lemma_closed_set_holds_reachable<N>(
    adj: Map<N, Seq<N>>,
    closed: Set<N>,
    a: N,
    b: N,
    d: nat,
)
    requires
        closed.contains(a),
        forall|n: N, m: N| closed.contains(n) && #[trigger] edge(adj, n, m) ==> closed.contains(m),
        reaches_in(adj, a, b, d),
    ensures
        closed.contains(b),
    decreases d,
{
    if d > 0 {
        let before = lemma_reaches_last_edge(adj, a, b, d);
        lemma_closed_set_holds_reachable(adj, closed, a, before, (d - 1) as nat);
        assert(edge(adj, before, b));
    } else {
        let walk = choose|walk: Seq<N>|
            #[trigger] is_walk(adj, walk) && walk.len() == d + 1 && walk[0] == a && walk.last()
                == b;
    }
}

} // verus!
