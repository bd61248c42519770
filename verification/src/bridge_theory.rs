use crate::components_theory::{
    apart, components_emitted, components_run, covered, distinct_pairs, flat, is_simple_undirected,
    lemma_advance_records, lemma_partition_advance, lemma_partition_init, pair_ok, partition_inv,
    pushed_edge, recorded, records_advance, times_inv, walked, with_component, with_new_component,
};
use crate::dfs_theory::{finished, lemma_step_stack, looked_at};
use crate::edges_theory::{
    is_ancestor, is_chain, is_descent, is_frame_link, is_link, lemma_chain_ancestor,
};
use crate::graph::{edge, neighbor_seq, Node};
use crate::reach::{is_step, is_walk};
use crate::traversal::{
    components_advance, components_event, components_init, components_inv, components_next,
    dfs_step, frames_total, joins, least, lemma_dfs_step_measure, on_stack, pending_count,
    split_component, unseen, ComponentsState, DfsEvent,
};
use vstd::prelude::*;

verus! {

/// The step from the place `i` of the walk goes along the edge between
/// `u` and `v`.
pub open spec fn step_along<N>(walk: Seq<N>, i: int, u: N, v: N) -> bool {
    joins((walk[i], walk[i + 1]), u, v)
}

/// No step of the walk goes along the edge between `u` and `v`.
pub open spec fn avoids<N>(walk: Seq<N>, u: N, v: N) -> bool {
    forall|i: int| 0 <= i < walk.len() - 1 ==> !#[trigger] step_along(walk, i, u, v)
}

/// A walk leads from `u` to `v` without a step along the edge between them.
pub open spec fn connected_without<N>(adj: Map<N, Seq<N>>, u: N, v: N) -> bool {
    exists|walk: Seq<N>|
        #[trigger] is_walk(adj, walk) && walk.len() > 0 && walk[0] == u && walk.last() == v
            && avoids(walk, u, v)
}

/// The edge between `u` and `v` is a bridge: without it, no walk leads from
/// the one to the other.
pub open spec fn is_bridge<N>(adj: Map<N, Seq<N>>, u: N, v: N) -> bool {
    edge(adj, u, v) && !connected_without(adj, u, v)
}

/// Every parent is discovered before its child.
pub open spec fn parents_rise<N>(par: Map<N, N>, disc: Map<N, nat>) -> bool {
    forall|n: N| #[trigger] par.dom().contains(n) ==> disc[par[n]] < disc[n]
}

/// Every node is an ancestor of itself.
pub proof fn lemma_ancestor_self<N>(par: Map<N, N>, n: N)
    ensures
        is_ancestor(par, n, n),
{
    reveal(is_ancestor);
    let chain = seq![n];
    assert(is_descent(par, chain) && chain.len() > 0 && chain[0] == n && chain.last() == n);
}

/// An ancestor of a parent is an ancestor of the child.
pub proof fn lemma_ancestor_child<N>(par: Map<N, N>, a: N, q: N, x: N)
    requires
        is_ancestor(par, a, q),
        par.dom().contains(x),
        par[x] == q,
    ensures
        is_ancestor(par, a, x),
{
    reveal(is_ancestor);
    let chain = choose|chain: Seq<N>| #[trigger]
        is_descent(par, chain) && chain.len() > 0 && chain[0] == a && chain.last() == q;
    let longer = chain.push(x);
    assert forall|j: int| 0 < j < longer.len() implies #[trigger] is_link(par, longer, j) by {
        if j < chain.len() {
            assert(longer[j] == chain[j]);
            assert(is_link(par, chain, j));
        }
    }
    assert(is_descent(par, longer) && longer.len() > 0 && longer[0] == a && longer.last() == x);
}

/// A proper ancestor of a node is an ancestor of its parent.
pub proof fn lemma_ancestor_up<N>(par: Map<N, N>, v: N, u: N)
    requires
        is_ancestor(par, v, u),
        v != u,
    ensures
        par.dom().contains(u),
        is_ancestor(par, v, par[u]),
{
    reveal(is_ancestor);
    let chain = choose|chain: Seq<N>| #[trigger]
        is_descent(par, chain) && chain.len() > 0 && chain[0] == v && chain.last() == u;
    let last = chain.len() - 1;
    assert(is_link(par, chain, last));
    let shorter = chain.drop_last();
    assert forall|j: int| 0 < j < shorter.len() implies #[trigger] is_link(par, shorter, j) by {
        assert(shorter[j] == chain[j]);
        assert(is_link(par, chain, j));
    }
    assert(is_descent(par, shorter) && shorter.len() > 0 && shorter[0] == v && shorter.last()
        == par[u]);
}

/// A proper ancestor of a node has a child that is an ancestor of the node.
pub proof fn lemma_ancestor_down<N>(par: Map<N, N>, v: N, u: N) -> (c: N)
    requires
        is_ancestor(par, v, u),
        v != u,
    ensures
        par.dom().contains(c),
        par[c] == v,
        is_ancestor(par, c, u),
{
    reveal(is_ancestor);
    let chain = choose|chain: Seq<N>| #[trigger]
        is_descent(par, chain) && chain.len() > 0 && chain[0] == v && chain.last() == u;
    assert(is_link(par, chain, 1));
    let shorter = chain.skip(1);
    assert forall|j: int| 0 < j < shorter.len() implies #[trigger] is_link(par, shorter, j) by {
        assert(shorter[j] == chain[j + 1]);
        assert(is_link(par, chain, j + 1));
    }
    assert(is_descent(par, shorter) && shorter.len() > 0 && shorter[0] == chain[1]
        && shorter.last() == u);
    chain[1]
}

/// An ancestor of an ancestor is an ancestor.
pub proof fn lemma_ancestor_trans<N>(par: Map<N, N>, a: N, b: N, c: N)
    requires
        is_ancestor(par, a, b),
        is_ancestor(par, b, c),
    ensures
        is_ancestor(par, a, c),
{
    reveal(is_ancestor);
    let first = choose|chain: Seq<N>| #[trigger]
        is_descent(par, chain) && chain.len() > 0 && chain[0] == a && chain.last() == b;
    let second = choose|chain: Seq<N>| #[trigger]
        is_descent(par, chain) && chain.len() > 0 && chain[0] == b && chain.last() == c;
    let whole = first + second.skip(1);
    assert forall|j: int| 0 < j < whole.len() implies #[trigger] is_link(par, whole, j) by {
        if j < first.len() {
            assert(whole[j] == first[j]);
            assert(is_link(par, first, j));
        } else {
            let k = j - first.len() + 1;
            assert(whole[j] == second[k]);
            assert(is_link(par, second, k));
            if k == 1 {
                assert(whole[j - 1] == first[first.len() - 1]);
            } else {
                assert(whole[j - 1] == second[k - 1]);
            }
        }
    }
    assert(is_descent(par, whole) && whole.len() > 0 && whole[0] == a && whole.last() == c);
}

/// Along a chain of parents and children the discovery times rise.
pub proof fn lemma_descent_rises<N>(par: Map<N, N>, disc: Map<N, nat>, chain: Seq<N>)
    requires
        is_descent(par, chain),
        parents_rise(par, disc),
        chain.len() > 0,
    ensures
        disc[chain[0]] + chain.len() - 1 <= disc[chain.last()],
    decreases chain.len(),
{
    if chain.len() > 1 {
        let last = chain.len() - 1;
        let shorter = chain.drop_last();
        assert(is_link(par, chain, last));
        assert forall|j: int| 0 < j < shorter.len() implies #[trigger] is_link(par, shorter, j) by {
            assert(shorter[j] == chain[j]);
            assert(is_link(par, chain, j));
        }
        lemma_descent_rises(par, disc, shorter);
    }
}

/// An ancestor is discovered no later than its descendant, and earlier
/// than a proper one.
pub proof fn lemma_ancestor_earlier<N>(par: Map<N, N>, disc: Map<N, nat>, v: N, u: N)
    requires
        is_ancestor(par, v, u),
        parents_rise(par, disc),
    ensures
        disc[v] <= disc[u],
        v != u ==> disc[v] < disc[u],
{
    reveal(is_ancestor);
    let chain = choose|chain: Seq<N>| #[trigger]
        is_descent(par, chain) && chain.len() > 0 && chain[0] == v && chain.last() == u;
    lemma_descent_rises(par, disc, chain);
}

/// Two chains that end at the same node agree from their ends.
pub proof fn lemma_chains_agree<N>(par: Map<N, N>, first: Seq<N>, second: Seq<N>, k: int)
    requires
        is_descent(par, first),
        is_descent(par, second),
        first.len() > 0,
        second.len() > 0,
        first.last() == second.last(),
        0 <= k < first.len(),
        k < second.len(),
    ensures
        first[first.len() - 1 - k] == second[second.len() - 1 - k],
    decreases k,
{
    if k > 0 {
        lemma_chains_agree(par, first, second, k - 1);
        let i = first.len() - k;
        let j = second.len() - k;
        assert(is_link(par, first, i));
        assert(is_link(par, second, j));
    }
}

/// Of two ancestors of a node, one is an ancestor of the other.
pub proof fn lemma_ancestors_comparable<N>(par: Map<N, N>, m: N, n: N, a: N)
    requires
        is_ancestor(par, m, a),
        is_ancestor(par, n, a),
    ensures
        is_ancestor(par, m, n) || is_ancestor(par, n, m),
{
    reveal(is_ancestor);
    let first = choose|chain: Seq<N>| #[trigger]
        is_descent(par, chain) && chain.len() > 0 && chain[0] == m && chain.last() == a;
    let second = choose|chain: Seq<N>| #[trigger]
        is_descent(par, chain) && chain.len() > 0 && chain[0] == n && chain.last() == a;
    if first.len() >= second.len() {
        lemma_chain_head(par, first, second);
    } else {
        lemma_chain_head(par, second, first);
    }
}

/// Where the longer of two chains that end at the same node reaches the
/// beginning of the shorter, its beginning is an ancestor of that node.
pub proof fn lemma_chain_head<N>(par: Map<N, N>, longer: Seq<N>, shorter: Seq<N>)
    requires
        is_descent(par, longer),
        is_descent(par, shorter),
        shorter.len() > 0,
        longer.len() >= shorter.len(),
        longer.last() == shorter.last(),
    ensures
        is_ancestor(par, longer[0], shorter[0]),
{
    reveal(is_ancestor);
    let at = longer.len() - shorter.len();
    lemma_chains_agree(par, longer, shorter, shorter.len() - 1);
    let head = longer.take(at + 1);
    assert forall|j: int| 0 < j < head.len() implies #[trigger] is_link(par, head, j) by {
        assert(head[j] == longer[j]);
        assert(is_link(par, longer, j));
    }
    assert(is_descent(par, head) && head.len() > 0 && head[0] == longer[0] && head.last()
        == shorter[0]);
}

/// Going up a chain of parents and children is a walk, where each child
/// has its parent as a neighbour; it avoids an edge that none of its steps
/// goes along.
pub proof fn lemma_climb<N>(adj: Map<N, Seq<N>>, par: Map<N, N>, chain: Seq<N>, u: N, v: N)
    requires
        is_descent(par, chain),
        chain.len() > 0,
        forall|z: N| #[trigger] par.dom().contains(z) ==> edge(adj, z, par[z]),
        forall|j: int| 0 < j < chain.len() ==> !joins((#[trigger] chain[j], par[chain[j]]), u, v),
    ensures
        is_walk(adj, chain.reverse()),
        avoids(chain.reverse(), u, v),
        chain.reverse().len() == chain.len(),
        chain.reverse()[0] == chain.last(),
        chain.reverse().last() == chain[0],
{
    let up = chain.reverse();
    assert forall|i: int| 0 <= i < up.len() - 1 implies #[trigger] is_step(adj, up, i) by {
        let j = chain.len() - 1 - i;
        assert(up[i] == chain[j]);
        assert(up[i + 1] == chain[j - 1]);
        assert(is_link(par, chain, j));
    }
    assert forall|i: int| 0 <= i < up.len() - 1 implies !#[trigger] step_along(up, i, u, v) by {
        let j = chain.len() - 1 - i;
        assert(up[i] == chain[j]);
        assert(up[i + 1] == chain[j - 1]);
        assert(is_link(par, chain, j));
        assert(!joins((chain[j], par[chain[j]]), u, v));
    }
}

/// Two walks, with an edge from the end of the first to the beginning of
/// the second, make one walk; it avoids an edge that the two walks and the
/// edge between them avoid.
pub proof fn lemma_join_walks<N>(adj: Map<N, Seq<N>>, first: Seq<N>, second: Seq<N>, u: N, v: N)
    requires
        is_walk(adj, first),
        is_walk(adj, second),
        first.len() > 0,
        second.len() > 0,
        edge(adj, first.last(), second[0]),
        avoids(first, u, v),
        avoids(second, u, v),
        !joins((first.last(), second[0]), u, v),
    ensures
        is_walk(adj, first + second),
        avoids(first + second, u, v),
        (first + second)[0] == first[0],
        (first + second).last() == second.last(),
{
    let whole = first + second;
    assert forall|i: int| 0 <= i < whole.len() - 1 implies #[trigger] is_step(adj, whole, i) by {
        if i < first.len() - 1 {
            assert(whole[i] == first[i] && whole[i + 1] == first[i + 1]);
            assert(is_step(adj, first, i));
        } else if i == first.len() - 1 {
            assert(whole[i] == first[i] && whole[i + 1] == second[0]);
        } else {
            let k = i - first.len();
            assert(whole[i] == second[k] && whole[i + 1] == second[k + 1]);
            assert(is_step(adj, second, k));
        }
    }
    assert forall|i: int| 0 <= i < whole.len() - 1 implies !#[trigger] step_along(whole, i, u, v) by {
        if i < first.len() - 1 {
            assert(whole[i] == first[i] && whole[i + 1] == first[i + 1]);
            assert(!step_along(first, i, u, v));
        } else if i == first.len() - 1 {
            assert(whole[i] == first[i] && whole[i + 1] == second[0]);
        } else {
            let k = i - first.len();
            assert(whole[i] == second[k] && whole[i + 1] == second[k + 1]);
            assert(!step_along(second, k, u, v));
        }
    }
}

/// The end of a recorded edge that was discovered later.
pub open spec fn deeper<N>(disc: Map<N, nat>, e: (N, N)) -> N {
    if disc[e.0] < disc[e.1] {
        e.1
    } else {
        e.0
    }
}

/// The end of a recorded edge that was discovered earlier.
pub open spec fn shallower<N>(disc: Map<N, nat>, e: (N, N)) -> N {
    if disc[e.0] < disc[e.1] {
        e.0
    } else {
        e.1
    }
}

/// The edge leads from a parent to its child.
pub open spec fn is_tree_edge<N>(par: Map<N, N>, e: (N, N)) -> bool {
    par.dom().contains(e.1) && par[e.1] == e.0
}

/// A chain of parents and children stays one when new nodes get a parent.
pub proof fn lemma_ancestor_stable<N>(par: Map<N, N>, more: Map<N, N>, v: N, u: N)
    requires
        is_ancestor(par, v, u),
        forall|n: N| #[trigger] par.dom().contains(n) ==> more.dom().contains(n) && more[n] == par[n],
    ensures
        is_ancestor(more, v, u),
{
    reveal(is_ancestor);
    let chain = choose|chain: Seq<N>| #[trigger]
        is_descent(par, chain) && chain.len() > 0 && chain[0] == v && chain.last() == u;
    assert forall|j: int| 0 < j < chain.len() implies #[trigger] is_link(more, chain, j) by {
        assert(is_link(par, chain, j));
    }
    assert(is_descent(more, chain) && chain.len() > 0 && chain[0] == v && chain.last() == u);
}

/// What holds of the tree that an extractor builds from `start`: the
/// frames of the stack are a chain of parents and children, `start` is an
/// ancestor of every visited node and was discovered at time zero, and a
/// neighbour of a finished node that is on the stack was discovered before
/// that node.
pub open spec fn shape_inv<N: Node>(adj: Map<N, Seq<N>>, start: N, c: ComponentsState<N>) -> bool {
    &&& is_chain(c.marks.parents, c.dfs.stack)
    &&& forall|x: N| #[trigger] c.dfs.visited.contains(x) ==> is_ancestor(c.marks.parents, start, x)
    &&& c.dfs.visited.contains(start) ==> c.marks.discovery[start] == 0
    &&& forall|y: N, x: N|
        finished(c.dfs, y) && on_stack(c.dfs.stack, x) && #[trigger] edge(adj, y, x)
            ==> c.marks.discovery[x] < c.marks.discovery[y]
}

/// How recording an event changes the parents and the discovery times:
/// the node discovered gets its parent and its time, and those of the
/// nodes visited before stay.
pub proof fn lemma_parents_grow<N: Node>(adj: Map<N, Seq<N>>, c: ComponentsState<N>)
    requires
        components_inv(adj, c),
    ensures
        forall|n: N| #[trigger]
            c.marks.parents.dom().contains(n) ==> components_advance(
                adj,
                c,
            ).marks.parents.dom().contains(n) && components_advance(adj, c).marks.parents[n]
                == c.marks.parents[n],
        forall|n: N| #[trigger]
            c.dfs.visited.contains(n) ==> components_advance(adj, c).marks.discovery[n]
                == c.marks.discovery[n],
{
    let (dfs, event) = dfs_step(adj, c.dfs);
    match event {
        Some(DfsEvent::Discover(x, _)) => {
            assert(!c.dfs.visited.contains(x));
        },
        _ => {},
    }
}

/// Recording an event keeps the frames of the stack a chain of parents and
/// children.
pub proof fn lemma_advance_stack_chain<N: Node>(adj: Map<N, Seq<N>>, c: ComponentsState<N>)
    requires
        components_inv(adj, c),
        is_chain(c.marks.parents, c.dfs.stack),
        c.dfs.pending is Some ==> c.dfs.stack.len() == 0,
    ensures
        is_chain(components_advance(adj, c).marks.parents, components_advance(adj, c).dfs.stack),
{
    let s = c.dfs;
    let m = c.marks;
    let t = components_advance(adj, c);
    let (dfs, event) = dfs_step(adj, s);
    let top = s.stack.len() - 1;
    match event {
        None => {},
        Some(DfsEvent::Discover(x, None)) => {
            assert(dfs.stack.len() == 1);
        },
        Some(DfsEvent::Discover(x, Some(from))) => {
            assert(s.stack[top].0 == from);
            assert forall|j: int| 0 < j < dfs.stack.len() implies #[trigger] is_frame_link(
                t.marks.parents,
                dfs.stack,
                j,
            ) by {
                if j <= top {
                    assert(is_frame_link(m.parents, s.stack, j));
                    assert(dfs.stack[j].0 == s.stack[j].0);
                    assert(dfs.stack[j - 1].0 == s.stack[j - 1].0);
                    assert(m.parents.dom().contains(s.stack[j].0));
                    assert(s.visited.contains(s.stack[j].0));
                } else {
                    assert(dfs.stack[j - 1].0 == from);
                }
            }
        },
        Some(DfsEvent::Finish(x)) => {
            assert forall|j: int| 0 < j < dfs.stack.len() implies #[trigger] is_frame_link(
                t.marks.parents,
                dfs.stack,
                j,
            ) by {
                assert(is_frame_link(m.parents, s.stack, j));
                assert(dfs.stack[j] == s.stack[j]);
                assert(dfs.stack[j - 1] == s.stack[j - 1]);
                assert(m.parents.dom().contains(s.stack[j].0));
            }
        },
        Some(DfsEvent::NonTreeEdge(u, w)) => {
            assert forall|j: int| 0 < j < dfs.stack.len() implies #[trigger] is_frame_link(
                t.marks.parents,
                dfs.stack,
                j,
            ) by {
                assert(is_frame_link(m.parents, s.stack, j));
                assert(dfs.stack[j].0 == s.stack[j].0);
                assert(dfs.stack[j - 1].0 == s.stack[j - 1].0);
                assert(m.parents.dom().contains(s.stack[j].0));
            }
        },
    }
}

/// Recording an event keeps `start` an ancestor of every visited node,
/// discovered at time zero.
pub proof fn lemma_advance_root<N: Node>(adj: Map<N, Seq<N>>, start: N, c: ComponentsState<N>)
    requires
        components_inv(adj, c),
        forall|x: N| #[trigger] c.dfs.visited.contains(x) ==> is_ancestor(c.marks.parents, start, x),
        c.dfs.visited.contains(start) ==> c.marks.discovery[start] == 0,
        c.dfs.pending is Some ==> c.dfs.visited == Set::<N>::empty() && c.dfs.pending == Some(
            start,
        ),
        c.dfs.pending is None ==> c.dfs.visited.contains(start),
    ensures
        forall|x: N| #[trigger]
            components_advance(adj, c).dfs.visited.contains(x) ==> is_ancestor(
                components_advance(adj, c).marks.parents,
                start,
                x,
            ),
        components_advance(adj, c).dfs.visited.contains(start) ==> components_advance(
            adj,
            c,
        ).marks.discovery[start] == 0,
{
    let s = c.dfs;
    let m = c.marks;
    let t = components_advance(adj, c);
    let (dfs, event) = dfs_step(adj, s);
    let top = s.stack.len() - 1;
    lemma_parents_grow(adj, c);
    assert forall|x: N| #[trigger] s.visited.contains(x) implies is_ancestor(
        t.marks.parents,
        start,
        x,
    ) by {
        lemma_ancestor_stable(m.parents, t.marks.parents, start, x);
    }
    match event {
        Some(DfsEvent::Discover(x, None)) => {
            lemma_ancestor_self(t.marks.parents, x);
            assert(m.time == 0);
        },
        Some(DfsEvent::Discover(x, Some(from))) => {
            assert(s.stack[top].0 == from);
            assert(s.visited.contains(s.stack[top].0));
            lemma_ancestor_child(t.marks.parents, start, from, x);
            assert(!s.visited.contains(x));
        },
        _ => {},
    }
}

/// Recording an event keeps this: a neighbour of a finished node that is
/// on the stack was discovered before that node.
pub proof fn lemma_advance_neighbours<N: Node>(adj: Map<N, Seq<N>>, c: ComponentsState<N>)
    requires
        components_inv(adj, c),
        times_inv(c),
        forall|n: N, k: N| finished(c.dfs, n) && #[trigger] edge(adj, n, k) ==> c.dfs.visited.contains(k),
        forall|y: N, x: N|
            finished(c.dfs, y) && on_stack(c.dfs.stack, x) && #[trigger] edge(adj, y, x)
                ==> c.marks.discovery[x] < c.marks.discovery[y],
    ensures
        forall|y: N, x: N|
            finished(components_advance(adj, c).dfs, y) && on_stack(
                components_advance(adj, c).dfs.stack,
                x,
            ) && #[trigger] edge(adj, y, x) ==> components_advance(adj, c).marks.discovery[x]
                < components_advance(adj, c).marks.discovery[y],
{
    let s = c.dfs;
    let m = c.marks;
    let t = components_advance(adj, c);
    let (dfs, event) = dfs_step(adj, s);
    let top = s.stack.len() - 1;
    lemma_parents_grow(adj, c);
    lemma_step_stack(adj, s);
    assert forall|y: N, z: N|
        finished(dfs, y) && on_stack(dfs.stack, z) && #[trigger] edge(
            adj,
            y,
            z,
        ) implies t.marks.discovery[z] < t.marks.discovery[y] by {
        match event {
            None => {
                assert(finished(s, y));
            },
            Some(DfsEvent::Discover(x, _)) => {
                assert(y != x);
                assert(finished(s, y));
                assert(s.visited.contains(z));
                assert(z != x);
                assert(on_stack(s.stack, z));
            },
            Some(DfsEvent::Finish(x)) => {
                assert(on_stack(s.stack, z));
                assert(s.stack[top].0 == x);
                if y == x {
                    let i = choose|i: int| 0 <= i < s.stack.len() && (#[trigger] s.stack[i]).0 == z;
                    assert(i < top);
                    assert(m.discovery[s.stack[i].0] < m.discovery[s.stack[top].0]);
                } else {
                    assert(finished(s, y));
                }
                assert(s.visited.contains(y));
                assert(s.visited.contains(s.stack[top].0));
            },
            Some(DfsEvent::NonTreeEdge(_, _)) => {
                assert(finished(s, y));
                assert(on_stack(s.stack, z));
            },
        }
    }
}

/// Recording an event keeps `shape_inv`.
pub proof fn lemma_advance_shape<N: Node>(
    adj: Map<N, Seq<N>>,
    start: N,
    c: ComponentsState<N>,
    given: Seq<(N, N)>,
)
    requires
        partition_inv(adj, start, c, given),
        shape_inv(adj, start, c),
    ensures
        shape_inv(adj, start, components_advance(adj, c)),
{
    lemma_advance_stack_chain(adj, c);
    lemma_advance_root(adj, start, c);
    lemma_advance_neighbours(adj, c);
}

/// What holds of a recorded edge, without the walk: it is an edge between
/// visited nodes discovered at different times, and it leads to the node
/// discovered later exactly when it leads from a parent to its child.
pub open spec fn pair_kind<N: Node>(adj: Map<N, Seq<N>>, c: ComponentsState<N>, e: (N, N)) -> bool {
    &&& c.dfs.visited.contains(e.0)
    &&& c.dfs.visited.contains(e.1)
    &&& edge(adj, e.0, e.1)
    &&& c.marks.discovery[e.0] != c.marks.discovery[e.1]
    &&& c.marks.discovery[e.0] < c.marks.discovery[e.1] <==> is_tree_edge(c.marks.parents, e)
}

/// The part of `partition_inv` that the low-link values are measured by.
pub open spec fn core_inv<N: Node>(
    adj: Map<N, Seq<N>>,
    start: N,
    c: ComponentsState<N>,
    given: Seq<(N, N)>,
) -> bool {
    &&& components_inv(adj, c)
    &&& times_inv(c)
    &&& forall|n: N|
        #![trigger c.marks.parents.dom().contains(n)]
        c.marks.parents.dom().contains(n) <==> c.dfs.visited.contains(n) && n != start
    &&& c.dfs.stack.len() > 0 ==> c.dfs.stack[0].0 == start
    &&& c.dfs.pending is Some ==> c.dfs.stack.len() == 0 && c.dfs.visited == Set::<N>::empty()
        && c.dfs.pending == Some(start)
    &&& c.dfs.pending is None ==> c.dfs.visited.contains(start)
    &&& forall|n: N| #[trigger]
        c.marks.parents.dom().contains(n) ==> edge(adj, n, c.marks.parents[n]) && edge(
            adj,
            c.marks.parents[n],
            n,
        )
    &&& forall|n: N, k: N| finished(c.dfs, n) && #[trigger] edge(adj, n, k) ==> c.dfs.visited.contains(k)
    &&& distinct_pairs(given)
    &&& distinct_pairs(c.marks.edge_stack)
    &&& apart(given, c.marks.edge_stack)
    &&& forall|e: (N, N)| #[trigger] recorded(given, c.marks.edge_stack, e) ==> pair_kind(adj, c, e)
    &&& c.dfs.stack.len() == 0 ==> c.marks.edge_stack.len() == 0
}

/// `partition_inv` gives `core_inv`.
pub proof fn lemma_core<N: Node>(
    adj: Map<N, Seq<N>>,
    start: N,
    c: ComponentsState<N>,
    given: Seq<(N, N)>,
)
    requires
        is_simple_undirected(adj),
        partition_inv(adj, start, c, given),
    ensures
        core_inv(adj, start, c, given),
{
    assert forall|n: N| #[trigger] c.marks.parents.dom().contains(n) implies edge(
        adj,
        n,
        c.marks.parents[n],
    ) && edge(adj, c.marks.parents[n], n) by {
        assert(walked(adj, c.dfs, c.marks.parents[n], n));
    }
    assert forall|e: (N, N)| #[trigger] recorded(given, c.marks.edge_stack, e) implies pair_kind(
        adj,
        c,
        e,
    ) by {
        assert(pair_ok(adj, c, e));
        assert(e.0 != e.1);
    }
}

/// An ancestor of a node on the stack is on the stack.
pub proof fn lemma_open_ancestors<N>(par: Map<N, N>, stack: Seq<(N, Seq<N>)>, a: N, j: int)
    requires
        is_chain(par, stack),
        0 <= j < stack.len(),
        !par.dom().contains(stack[0].0),
        is_ancestor(par, a, stack[j].0),
    ensures
        on_stack(stack, a),
{
    reveal(is_ancestor);
    let chain = choose|chain: Seq<N>| #[trigger]
        is_descent(par, chain) && chain.len() > 0 && chain[0] == a && chain.last() == stack[j].0;
    let frames = Seq::new((j + 1) as nat, |k: int| stack[k].0);
    assert forall|k: int| 0 < k < frames.len() implies #[trigger] is_link(par, frames, k) by {
        assert(is_frame_link(par, stack, k));
    }
    if chain.len() <= frames.len() {
        lemma_chains_agree(par, chain, frames, chain.len() - 1);
        let at = frames.len() - chain.len();
        assert(stack[at].0 == a);
    } else {
        lemma_chains_agree(par, chain, frames, frames.len() - 1);
        let at = chain.len() - frames.len();
        assert(chain[at] == stack[0].0);
        assert(is_link(par, chain, at));
    }
}

/// A proper descendant of the node on top of the stack is finished.
pub proof fn lemma_below_top_finished<N: Node>(
    adj: Map<N, Seq<N>>,
    start: N,
    c: ComponentsState<N>,
    given: Seq<(N, N)>,
    a: N,
)
    requires
        core_inv(adj, start, c, given),
        is_chain(c.marks.parents, c.dfs.stack),
        c.dfs.stack.len() > 0,
        is_ancestor(c.marks.parents, c.dfs.stack.last().0, a),
        a != c.dfs.stack.last().0,
        c.dfs.visited.contains(a),
    ensures
        finished(c.dfs, a),
{
    let s = c.dfs;
    let top = s.stack.len() - 1;
    if on_stack(s.stack, a) {
        let i = choose|i: int| 0 <= i < s.stack.len() && (#[trigger] s.stack[i]).0 == a;
        lemma_chain_ancestor(c.marks.parents, s.stack, i);
        lemma_ancestor_earlier(c.marks.parents, c.marks.discovery, a, s.stack[top].0);
        lemma_ancestor_earlier(c.marks.parents, c.marks.discovery, s.stack[top].0, a);
    }
}

/// What holds of the recorded edges in the tree: each leads between a node
/// and an ancestor of it, and is the edge from a parent to its child or
/// joins no child with its parent.
pub open spec fn links_inv<N: Node>(c: ComponentsState<N>, given: Seq<(N, N)>) -> bool {
    forall|e: (N, N)| #[trigger]
        recorded(given, c.marks.edge_stack, e) ==> is_link_edge(c, e)
}

/// The edge leads between a node and an ancestor of it, and is the edge
/// from a parent to its child or joins no child with its parent.
pub open spec fn is_link_edge<N: Node>(c: ComponentsState<N>, e: (N, N)) -> bool {
    &&& is_ancestor(
        c.marks.parents,
        shallower(c.marks.discovery, e),
        deeper(c.marks.discovery, e),
    )
    &&& is_tree_edge(c.marks.parents, e) || !(c.marks.parents.dom().contains(e.0)
        && c.marks.parents[e.0] == e.1)
}

/// An edge to a node discovered earlier leads to a node on the stack.
pub proof fn lemma_back_target_open<N: Node>(
    adj: Map<N, Seq<N>>,
    start: N,
    c: ComponentsState<N>,
    given: Seq<(N, N)>,
    u: N,
    w: N,
)
    requires
        is_simple_undirected(adj),
        core_inv(adj, start, c, given),
        shape_inv(adj, start, c),
        dfs_step(adj, c.dfs).1 == Some(DfsEvent::NonTreeEdge(u, w)),
        c.marks.discovery[w] < c.marks.discovery[u],
    ensures
        c.dfs.stack.len() > 0,
        c.dfs.stack.last().0 == u,
        on_stack(c.dfs.stack, w),
        is_ancestor(c.marks.parents, w, u),
        edge(adj, u, w),
        w != u,
{
    let s = c.dfs;
    let top = s.stack.len() - 1;
    let (node, rest) = s.stack.last();
    assert(s.stack[top] == s.stack.last());
    let all = neighbor_seq(adj, node);
    assert(crate::traversal::is_suffix(rest, all));
    assert(all[all.len() - rest.len()] == rest[0]);
    assert(edge(adj, u, w));
    assert(edge(adj, w, u));
    assert(on_stack(s.stack, u));
    assert(s.visited.contains(w));
    if !on_stack(s.stack, w) {
        assert(finished(s, w));
    }
    let i = choose|i: int| 0 <= i < s.stack.len() && (#[trigger] s.stack[i]).0 == w;
    lemma_chain_ancestor(c.marks.parents, s.stack, i);
}

/// Recording an event keeps `links_inv`.
pub proof fn lemma_advance_links<N: Node>(
    adj: Map<N, Seq<N>>,
    start: N,
    c: ComponentsState<N>,
    given: Seq<(N, N)>,
)
    requires
        is_simple_undirected(adj),
        core_inv(adj, start, c, given),
        shape_inv(adj, start, c),
        links_inv(c, given),
        records_advance(adj, c, given),
    ensures
        links_inv(components_advance(adj, c), with_component(given, components_emitted(adj, c))),
{
    let s = c.dfs;
    let m = c.marks;
    let t = components_advance(adj, c);
    let later = with_component(given, components_emitted(adj, c));
    let top = s.stack.len() - 1;
    lemma_parents_grow(adj, c);
    assert forall|e: (N, N)| #[trigger] recorded(later, t.marks.edge_stack, e) implies is_link_edge(
        t,
        e,
    ) by {
        if recorded(given, m.edge_stack, e) {
            assert(pair_kind(adj, c, e));
            assert(is_link_edge(c, e));
            assert(m.parents.dom().contains(e.0) ==> t.marks.parents[e.0] == m.parents[e.0]);
            match dfs_step(adj, s).1 {
                Some(DfsEvent::Discover(x, _)) => {
                    assert(!s.visited.contains(x));
                },
                _ => {},
            }
            lemma_ancestor_stable(
                m.parents,
                t.marks.parents,
                shallower(m.discovery, e),
                deeper(m.discovery, e),
            );
        } else {
            match dfs_step(adj, s).1 {
                Some(DfsEvent::Discover(x, Some(from))) => {
                    assert(s.stack[top].0 == from);
                    assert(s.visited.contains(s.stack[top].0));
                    assert(!s.visited.contains(x));
                    lemma_ancestor_self(t.marks.parents, from);
                    lemma_ancestor_child(t.marks.parents, from, from, x);
                },
                Some(DfsEvent::NonTreeEdge(u, w)) => {
                    lemma_back_target_open(adj, start, c, given, u, w);
                    lemma_ancestor_stable(m.parents, t.marks.parents, w, u);
                    assert(s.visited.contains(u) && s.visited.contains(w)) by {
                        assert(s.stack[top].0 == u);
                        assert(s.visited.contains(s.stack[top].0));
                        let i = choose|i: int|
                            0 <= i < s.stack.len() && (#[trigger] s.stack[i]).0 == w;
                        assert(s.visited.contains(s.stack[i].0));
                    }
                },
                _ => {},
            }
        }
    }
}

/// Some recorded edge that leads from a descendant of `n`, not to its
/// child, ends at the node whose discovery time is the low-link value of `n`.
pub open spec fn low_witness<N: Node>(c: ComponentsState<N>, given: Seq<(N, N)>, n: N) -> bool {
    exists|e: (N, N)|
        #[trigger] recorded(given, c.marks.edge_stack, e) && !is_tree_edge(c.marks.parents, e)
            && is_ancestor(c.marks.parents, n, e.0) && c.marks.discovery[e.1] == c.marks.lowpt[n]
}

/// What holds of the low-link values: that of a node is at most its
/// discovery time, and is that time or the discovery time of the end of a
/// recorded edge from one of its descendants; it is at most the discovery
/// time of the end of each recorded edge that leaves the node and is not
/// the edge to a child; and that of a parent is at most that of a finished
/// child.
pub open spec fn low_inv<N: Node>(c: ComponentsState<N>, given: Seq<(N, N)>) -> bool {
    &&& forall|n: N| #[trigger] c.dfs.visited.contains(n) ==> c.marks.lowpt[n] <= c.marks.discovery[n]
    &&& forall|e: (N, N)| #[trigger]
        recorded(given, c.marks.edge_stack, e) && !is_tree_edge(c.marks.parents, e)
            ==> c.marks.lowpt[e.0] <= c.marks.discovery[e.1]
    &&& forall|n: N| #[trigger]
        c.marks.parents.dom().contains(n) && finished(c.dfs, n) ==> c.marks.lowpt[c.marks.parents[n]]
            <= c.marks.lowpt[n]
    &&& forall|n: N| #[trigger]
        c.dfs.visited.contains(n) ==> c.marks.lowpt[n] == c.marks.discovery[n] || low_witness(
            c,
            given,
            n,
        )
}

/// The node whose low-link value the next event lowers, if it lowers one:
/// the source of an edge that it puts on the edge stack and that is not the
/// edge to a child, or the parent of the node that it finishes.
pub open spec fn lowered<N: Node>(adj: Map<N, Seq<N>>, c: ComponentsState<N>) -> Option<N> {
    match dfs_step(adj, c.dfs).1 {
        Some(DfsEvent::NonTreeEdge(u, w)) => if pushed_edge(adj, c) is Some {
            Some(u)
        } else {
            None
        },
        Some(DfsEvent::Finish(x)) => if c.marks.parents.dom().contains(x) {
            Some(c.marks.parents[x])
        } else {
            None
        },
        _ => None,
    }
}

/// How recording an event changes the low-link values: the node discovered
/// gets its discovery time, the node that `lowered` names gets the smaller
/// of its value and of the other value, is on the stack, and the values of
/// the other visited nodes stay.
pub proof fn lemma_low_change<N: Node>(
    adj: Map<N, Seq<N>>,
    start: N,
    c: ComponentsState<N>,
    given: Seq<(N, N)>,
)
    requires
        core_inv(adj, start, c, given),
        is_chain(c.marks.parents, c.dfs.stack),
    ensures
        forall|n: N| #[trigger]
            c.dfs.visited.contains(n) && lowered(adj, c) != Some(n) ==> components_advance(
                adj,
                c,
            ).marks.lowpt[n] == c.marks.lowpt[n],
        forall|n: N| #[trigger]
            c.dfs.visited.contains(n) ==> components_advance(adj, c).marks.lowpt[n]
                <= c.marks.lowpt[n],
        dfs_step(adj, c.dfs).1 matches Some(DfsEvent::Discover(x, _)) ==> components_advance(
            adj,
            c,
        ).marks.lowpt[x] == components_advance(adj, c).marks.discovery[x] && !c.dfs.visited.contains(
            x,
        ),
        lowered(adj, c) matches Some(n) ==> on_stack(c.dfs.stack, n) && on_stack(
            components_advance(adj, c).dfs.stack,
            n,
        ) && c.dfs.visited.contains(n),
        dfs_step(adj, c.dfs).1 matches Some(DfsEvent::NonTreeEdge(u, w)) ==> (pushed_edge(adj, c)
            is Some ==> components_advance(adj, c).marks.lowpt[u] == least(
            c.marks.lowpt[u],
            c.marks.discovery[w],
        )),
        dfs_step(adj, c.dfs).1 matches Some(DfsEvent::Finish(x)) ==> (
        c.marks.parents.dom().contains(x) ==> components_advance(
            adj,
            c,
        ).marks.lowpt[c.marks.parents[x]] == least(
            c.marks.lowpt[c.marks.parents[x]],
            c.marks.lowpt[x],
        ) && c.marks.parents[x] != x && c.dfs.stack.len() >= 2 && c.dfs.stack[c.dfs.stack.len()
            - 2].0 == c.marks.parents[x]) && c.dfs.stack.len() > 0 && c.dfs.stack.last().0 == x,
{
    let s = c.dfs;
    let m = c.marks;
    let (dfs, event) = dfs_step(adj, s);
    let top = s.stack.len() - 1;
    lemma_step_stack(adj, s);
    match event {
        Some(DfsEvent::NonTreeEdge(u, w)) => {
            assert(s.stack[top].0 == u);
            assert(s.visited.contains(s.stack[top].0));
        },
        Some(DfsEvent::Finish(x)) => {
            assert(s.stack[top].0 == x);
            assert(s.stack[top] == s.stack.last());
            assert(s.visited.contains(s.stack[top].0));
            if m.parents.dom().contains(x) {
                assert(x != start);
                assert(top > 0);
                assert(is_frame_link(m.parents, s.stack, top));
                assert(s.visited.contains(s.stack[top - 1].0));
                assert(s.stack[top - 1].0 != s.stack[top].0);
                assert(on_stack(s.stack, s.stack[top - 1].0));
            }
        },
        Some(DfsEvent::Discover(x, _)) => {
            assert(!s.visited.contains(x));
        },
        None => {},
    }
}

/// Recording an event keeps the first three parts of `low_inv`.
pub proof fn lemma_advance_low_bounds<N: Node>(
    adj: Map<N, Seq<N>>,
    start: N,
    c: ComponentsState<N>,
    given: Seq<(N, N)>,
)
    requires
        core_inv(adj, start, c, given),
        is_chain(c.marks.parents, c.dfs.stack),
        low_inv(c, given),
        records_advance(adj, c, given),
    ensures
        ({
            let t = components_advance(adj, c);
            let later = with_component(given, components_emitted(adj, c));
            &&& forall|n: N| #[trigger]
                t.dfs.visited.contains(n) ==> t.marks.lowpt[n] <= t.marks.discovery[n]
            &&& forall|e: (N, N)| #[trigger]
                recorded(later, t.marks.edge_stack, e) && !is_tree_edge(t.marks.parents, e)
                    ==> t.marks.lowpt[e.0] <= t.marks.discovery[e.1]
            &&& forall|n: N| #[trigger]
                t.marks.parents.dom().contains(n) && finished(t.dfs, n)
                    ==> t.marks.lowpt[t.marks.parents[n]] <= t.marks.lowpt[n]
        }),
{
    let s = c.dfs;
    let m = c.marks;
    let t = components_advance(adj, c);
    let later = with_component(given, components_emitted(adj, c));
    let event = dfs_step(adj, s).1;
    lemma_parents_grow(adj, c);
    lemma_low_change(adj, start, c, given);
    lemma_step_stack(adj, s);
    assert forall|n: N| #[trigger] t.dfs.visited.contains(n) implies t.marks.lowpt[n]
        <= t.marks.discovery[n] by {
        if s.visited.contains(n) {
            assert(m.lowpt[n] <= m.discovery[n]);
        }
    }
    assert forall|e: (N, N)| #[trigger]
        recorded(later, t.marks.edge_stack, e) && !is_tree_edge(
            t.marks.parents,
            e,
        ) implies t.marks.lowpt[e.0] <= t.marks.discovery[e.1] by {
        if recorded(given, m.edge_stack, e) {
            assert(pair_kind(adj, c, e));
            assert(!is_tree_edge(m.parents, e));
            assert(m.lowpt[e.0] <= m.discovery[e.1]);
        } else {
            assert(pushed_edge(adj, c) == Some(e));
        }
    }
    assert forall|n: N| #[trigger]
        t.marks.parents.dom().contains(n) && finished(
            t.dfs,
            n,
        ) implies t.marks.lowpt[t.marks.parents[n]] <= t.marks.lowpt[n] by {
        match event {
            Some(DfsEvent::Discover(x, _)) => {
                assert(on_stack(t.dfs.stack, x));
                assert(n != x);
                assert(finished(s, n));
                assert(m.parents.dom().contains(n));
                assert(s.visited.contains(m.parents[n]));
            },
            Some(DfsEvent::Finish(x)) => {
                if n == x {
                } else {
                    assert(finished(s, n));
                    assert(m.parents.dom().contains(n));
                    assert(s.visited.contains(m.parents[n]));
                }
            },
            Some(DfsEvent::NonTreeEdge(_, _)) => {
                assert(finished(s, n));
                assert(s.visited.contains(m.parents[n]));
            },
            None => {
                assert(finished(s, n));
                assert(s.visited.contains(m.parents[n]));
            },
        }
    }
}

/// Recording an event keeps the last part of `low_inv`.
pub proof fn lemma_advance_low_witness<N: Node>(
    adj: Map<N, Seq<N>>,
    start: N,
    c: ComponentsState<N>,
    given: Seq<(N, N)>,
    n: N,
)
    requires
        core_inv(adj, start, c, given),
        is_chain(c.marks.parents, c.dfs.stack),
        low_inv(c, given),
        records_advance(adj, c, given),
        components_advance(adj, c).dfs.visited.contains(n),
    ensures
        ({
            let t = components_advance(adj, c);
            let later = with_component(given, components_emitted(adj, c));
            t.marks.lowpt[n] == t.marks.discovery[n] || low_witness(t, later, n)
        }),
{
    let s = c.dfs;
    let m = c.marks;
    let t = components_advance(adj, c);
    let later = with_component(given, components_emitted(adj, c));
    let event = dfs_step(adj, s).1;
    lemma_parents_grow(adj, c);
    lemma_low_change(adj, start, c, given);
    if !s.visited.contains(n) {
    } else if t.marks.lowpt[n] == m.lowpt[n] {
        if m.lowpt[n] != m.discovery[n] {
            assert(low_witness(c, given, n));
            let e = choose|e: (N, N)|
                #[trigger] recorded(given, m.edge_stack, e) && !is_tree_edge(m.parents, e)
                    && is_ancestor(m.parents, n, e.0) && m.discovery[e.1] == m.lowpt[n];
            lemma_witness_stays(adj, start, c, given, n, e);
        }
    } else {
        match event {
            Some(DfsEvent::NonTreeEdge(u, w)) => {
                let e = (u, w);
                assert(n == u);
                assert(recorded(later, t.marks.edge_stack, e));
                lemma_ancestor_self(t.marks.parents, u);
                assert(s.visited.contains(w)) by {
                    let top = s.stack.len() - 1;
                    assert(s.stack[top] == s.stack.last());
                }
                assert(!is_tree_edge(t.marks.parents, e));
            },
            Some(DfsEvent::Finish(x)) => {
                let p = m.parents[x];
                assert(n == p);
                assert(m.lowpt[x] < m.lowpt[p]);
                assert(s.visited.contains(x));
                assert(m.lowpt[p] <= m.discovery[p]);
                assert(m.discovery[p] < m.discovery[x]);
                assert(low_witness(c, given, x));
                let e = choose|e: (N, N)|
                    #[trigger] recorded(given, m.edge_stack, e) && !is_tree_edge(m.parents, e)
                        && is_ancestor(m.parents, x, e.0) && m.discovery[e.1] == m.lowpt[x];
                lemma_ancestor_self(m.parents, p);
                lemma_ancestor_child(m.parents, p, p, x);
                lemma_ancestor_trans(m.parents, p, x, e.0);
                lemma_witness_stays(adj, start, c, given, p, e);
            },
            _ => {},
        }
    }
}

/// A recorded edge that shows the low-link value of a node shows it after
/// an event is recorded, where that value has stayed.
pub proof fn lemma_witness_stays<N: Node>(
    adj: Map<N, Seq<N>>,
    start: N,
    c: ComponentsState<N>,
    given: Seq<(N, N)>,
    n: N,
    e: (N, N),
)
    requires
        core_inv(adj, start, c, given),
        records_advance(adj, c, given),
        c.dfs.visited.contains(n),
        recorded(given, c.marks.edge_stack, e),
        !is_tree_edge(c.marks.parents, e),
        is_ancestor(c.marks.parents, n, e.0),
        c.marks.discovery[e.1] == components_advance(adj, c).marks.lowpt[n],
    ensures
        low_witness(
            components_advance(adj, c),
            with_component(given, components_emitted(adj, c)),
            n,
        ),
{
    let t = components_advance(adj, c);
    let later = with_component(given, components_emitted(adj, c));
    lemma_parents_grow(adj, c);
    assert(pair_kind(adj, c, e));
    lemma_ancestor_stable(c.marks.parents, t.marks.parents, n, e.0);
    assert(recorded(later, t.marks.edge_stack, e));
    assert(!is_tree_edge(t.marks.parents, e)) by {
        match dfs_step(adj, c.dfs).1 {
            Some(DfsEvent::Discover(x, _)) => {
                assert(!c.dfs.visited.contains(x));
            },
            _ => {},
        }
    }
}

/// Recording an event keeps `low_inv`.
pub proof fn lemma_advance_low<N: Node>(
    adj: Map<N, Seq<N>>,
    start: N,
    c: ComponentsState<N>,
    given: Seq<(N, N)>,
)
    requires
        core_inv(adj, start, c, given),
        is_chain(c.marks.parents, c.dfs.stack),
        low_inv(c, given),
        records_advance(adj, c, given),
    ensures
        low_inv(components_advance(adj, c), with_component(given, components_emitted(adj, c))),
{
    let t = components_advance(adj, c);
    let later = with_component(given, components_emitted(adj, c));
    lemma_advance_low_bounds(adj, start, c, given);
    assert forall|n: N| #[trigger] t.dfs.visited.contains(n) implies t.marks.lowpt[n]
        == t.marks.discovery[n] || low_witness(t, later, n) by {
        lemma_advance_low_witness(adj, start, c, given, n);
    }
}

/// The place of an edge on the edge stack.
pub open spec fn pos<N>(stack: Seq<(N, N)>, e: (N, N)) -> int {
    choose|i: int| 0 <= i < stack.len() && stack[i] == e
}

/// The edge from the parent of `n` to `n`.
pub open spec fn tree_edge_of<N>(par: Map<N, N>, n: N) -> (N, N) {
    (par[n], n)
}

/// An edge that is on the edge stack at the place `i` has that place.
pub proof fn lemma_pos<N>(stack: Seq<(N, N)>, e: (N, N), i: int)
    requires
        distinct_pairs(stack),
        0 <= i < stack.len(),
        stack[i] == e,
    ensures
        pos(stack, e) == i,
{
    let k = pos(stack, e);
    if k != i {
        assert(joins(stack[i], stack[k].0, stack[k].1));
    }
}

/// What holds of the edge stack: the edge to each node on the stack but the
/// lowest is on it; the edges from that edge upward end, with their later
/// end, at descendants of that node, and those below it at nodes
/// discovered before that node; an edge that ends, with its later end,
/// below a finished node is there because the low-link value of that node
/// is less than the discovery time of its parent; and while the stack of
/// the walk holds one node or none, the edge stack is empty.
pub open spec fn stack_inv<N: Node>(c: ComponentsState<N>) -> bool {
    let st = c.marks.edge_stack;
    let par = c.marks.parents;
    let disc = c.marks.discovery;
    &&& forall|j: int|
        0 < j < c.dfs.stack.len() ==> st.contains(tree_edge_of(par, (#[trigger] c.dfs.stack[j]).0))
    &&& forall|j: int, i: int|
        0 < j < c.dfs.stack.len() && pos(st, tree_edge_of(par, c.dfs.stack[j].0)) <= i < st.len()
            ==> #[trigger] is_ancestor(par, c.dfs.stack[j].0, deeper(disc, st[i]))
    &&& forall|j: int, i: int|
        0 < j < c.dfs.stack.len() && 0 <= i < pos(st, tree_edge_of(par, c.dfs.stack[j].0))
            ==> #[trigger] earlier(disc, deeper(disc, st[i]), c.dfs.stack[j].0)
    &&& forall|i: int, n: N|
        0 <= i < st.len() && par.dom().contains(n) && finished(c.dfs, n) && #[trigger] is_ancestor(
            par,
            n,
            deeper(disc, st[i]),
        ) ==> c.marks.lowpt[n] < disc[par[n]]
    &&& c.dfs.stack.len() <= 1 ==> st.len() == 0
}

/// `a` was discovered before `b`.
pub open spec fn earlier<N>(disc: Map<N, nat>, a: N, b: N) -> bool {
    disc[a] < disc[b]
}

/// A chain of parents and children that does not end at a node without
/// children is a chain without that node's parent.
pub proof fn lemma_ancestor_shrink<N>(par: Map<N, N>, x: N, from: N, v: N, u: N)
    requires
        is_ancestor(par.insert(x, from), v, u),
        u != x,
        forall|n: N| #[trigger] par.dom().contains(n) ==> par[n] != x,
    ensures
        is_ancestor(par, v, u),
{
    reveal(is_ancestor);
    let more = par.insert(x, from);
    let chain = choose|chain: Seq<N>| #[trigger]
        is_descent(more, chain) && chain.len() > 0 && chain[0] == v && chain.last() == u;
    lemma_chain_without(par, x, from, chain, chain.len() - 1);
    assert(is_descent(par, chain));
}

/// The nodes of a chain that does not end at `x` are not `x`, up to the
/// place `k`, and the chain is a chain without the parent of `x`.
pub proof fn lemma_chain_without<N>(par: Map<N, N>, x: N, from: N, chain: Seq<N>, k: int)
    requires
        is_descent(par.insert(x, from), chain),
        chain.len() > 0,
        chain.last() != x,
        forall|n: N| #[trigger] par.dom().contains(n) ==> par[n] != x,
        0 <= k < chain.len(),
    ensures
        forall|j: int| chain.len() - 1 - k <= j < chain.len() ==> #[trigger] chain[j] != x,
        forall|j: int|
            chain.len() - 1 - k < j < chain.len() ==> #[trigger] is_link(par, chain, j),
    decreases k,
{
    if k > 0 {
        lemma_chain_without(par, x, from, chain, k - 1);
        let j = chain.len() - k;
        assert(is_link(par.insert(x, from), chain, j));
        assert(chain[j] != x);
        assert(is_link(par, chain, j));
    }
}

/// The later end of an edge on the edge stack is a visited node with a
/// parent, and stays what it is when an event is recorded.
pub proof fn lemma_stack_edge<N: Node>(
    adj: Map<N, Seq<N>>,
    start: N,
    c: ComponentsState<N>,
    given: Seq<(N, N)>,
    i: int,
)
    requires
        core_inv(adj, start, c, given),
        0 <= i < c.marks.edge_stack.len(),
    ensures
        pair_kind(adj, c, c.marks.edge_stack[i]),
        c.dfs.visited.contains(deeper(c.marks.discovery, c.marks.edge_stack[i])),
        c.dfs.visited.contains(shallower(c.marks.discovery, c.marks.edge_stack[i])),
        deeper(components_advance(adj, c).marks.discovery, c.marks.edge_stack[i]) == deeper(
            c.marks.discovery,
            c.marks.edge_stack[i],
        ),
        shallower(components_advance(adj, c).marks.discovery, c.marks.edge_stack[i]) == shallower(
            c.marks.discovery,
            c.marks.edge_stack[i],
        ),
{
    let e = c.marks.edge_stack[i];
    assert(c.marks.edge_stack.contains(e));
    assert(recorded(given, c.marks.edge_stack, e));
    lemma_parents_grow(adj, c);
}

/// The edge to a node on the stack is on the edge stack, at its place, and
/// is the same edge after an event is recorded.
pub proof fn lemma_frame_edge<N: Node>(
    adj: Map<N, Seq<N>>,
    start: N,
    c: ComponentsState<N>,
    given: Seq<(N, N)>,
    j: int,
)
    requires
        core_inv(adj, start, c, given),
        is_chain(c.marks.parents, c.dfs.stack),
        stack_inv(c),
        0 < j < c.dfs.stack.len(),
    ensures
        ({
            let e = tree_edge_of(c.marks.parents, c.dfs.stack[j].0);
            let at = pos(c.marks.edge_stack, e);
            &&& 0 <= at < c.marks.edge_stack.len()
            &&& c.marks.edge_stack[at] == e
            &&& c.marks.parents.dom().contains(c.dfs.stack[j].0)
            &&& c.marks.parents[c.dfs.stack[j].0] == c.dfs.stack[j - 1].0
            &&& tree_edge_of(components_advance(adj, c).marks.parents, c.dfs.stack[j].0) == e
            &&& deeper(c.marks.discovery, e) == c.dfs.stack[j].0
        }),
{
    let e = tree_edge_of(c.marks.parents, c.dfs.stack[j].0);
    assert(c.marks.edge_stack.contains(e));
    assert(is_frame_link(c.marks.parents, c.dfs.stack, j));
    lemma_parents_grow(adj, c);
}

/// The discovery of a node from another keeps `stack_inv`.
pub proof fn lemma_stack_tree<N: Node>(
    adj: Map<N, Seq<N>>,
    start: N,
    c: ComponentsState<N>,
    given: Seq<(N, N)>,
)
    requires
        core_inv(adj, start, c, given),
        shape_inv(adj, start, c),
        stack_inv(c),
        records_advance(adj, c, given),
        dfs_step(adj, c.dfs).1 matches Some(DfsEvent::Discover(_, Some(_))),
    ensures
        stack_inv(components_advance(adj, c)),
{
    let s = c.dfs;
    let m = c.marks;
    let st = m.edge_stack;
    let t = components_advance(adj, c);
    let x = dfs_step(adj, s).1->0->Discover_0;
    let from = dfs_step(adj, s).1->0->Discover_1->0;
    let top = s.stack.len() - 1;
    let news = t.marks.edge_stack;
    lemma_parents_grow(adj, c);
    assert(s.stack[top].0 == from);
    assert(s.visited.contains(s.stack[top].0));
    assert(!s.visited.contains(x));
    assert(news == st.push((from, x)));
    assert(t.marks.parents == m.parents.insert(x, from));
    assert(t.dfs.stack.len() == s.stack.len() + 1);
    assert(t.dfs.stack[top + 1].0 == x);
    assert forall|j: int| 0 <= j <= top implies (#[trigger] t.dfs.stack[j]).0 == s.stack[j].0 by {}
    assert(deeper(t.marks.discovery, (from, x)) == x);
    lemma_pos(news, (from, x), st.len() as int);
    assert forall|n: N| #[trigger] m.parents.dom().contains(n) implies m.parents[n] != x by {
        assert(s.visited.contains(m.parents[n]));
    }
    assert forall|j: int| 0 < j < t.dfs.stack.len() implies news.contains(
        tree_edge_of(t.marks.parents, (#[trigger] t.dfs.stack[j]).0),
    ) by {
        if j <= top {
            lemma_frame_edge(adj, start, c, given, j);
            let at = pos(st, tree_edge_of(m.parents, s.stack[j].0));
            assert(news[at] == st[at]);
        } else {
            assert(news[st.len() as int] == (from, x));
        }
    }
    assert forall|j: int, i: int|
        0 < j < t.dfs.stack.len() && pos(news, tree_edge_of(t.marks.parents, t.dfs.stack[j].0)) <= i
            < news.len() implies #[trigger] is_ancestor(
        t.marks.parents,
        t.dfs.stack[j].0,
        deeper(t.marks.discovery, news[i]),
    ) by {
        if j <= top {
            lemma_frame_edge(adj, start, c, given, j);
            let at = pos(st, tree_edge_of(m.parents, s.stack[j].0));
            assert(news[at] == st[at]);
            lemma_pos(news, st[at], at);
            if i < st.len() {
                lemma_stack_edge(adj, start, c, given, i);
                assert(news[i] == st[i]);
                assert(is_ancestor(m.parents, s.stack[j].0, deeper(m.discovery, st[i])));
                lemma_ancestor_stable(
                    m.parents,
                    t.marks.parents,
                    s.stack[j].0,
                    deeper(m.discovery, st[i]),
                );
            } else {
                lemma_chain_ancestor(m.parents, s.stack, j);
                assert(s.stack.last() == s.stack[top]);
                lemma_ancestor_stable(m.parents, t.marks.parents, s.stack[j].0, from);
                lemma_ancestor_child(t.marks.parents, s.stack[j].0, from, x);
            }
        } else {
            lemma_ancestor_self(t.marks.parents, x);
            assert(i == st.len());
        }
    }
    assert forall|j: int, i: int|
        0 < j < t.dfs.stack.len() && 0 <= i < pos(
            news,
            tree_edge_of(t.marks.parents, t.dfs.stack[j].0),
        ) implies #[trigger] earlier(
        t.marks.discovery,
        deeper(t.marks.discovery, news[i]),
        t.dfs.stack[j].0,
    ) by {
        if j <= top {
            lemma_frame_edge(adj, start, c, given, j);
            let at = pos(st, tree_edge_of(m.parents, s.stack[j].0));
            assert(news[at] == st[at]);
            lemma_pos(news, st[at], at);
            lemma_stack_edge(adj, start, c, given, i);
            assert(news[i] == st[i]);
            assert(earlier(m.discovery, deeper(m.discovery, st[i]), s.stack[j].0));
            assert(s.visited.contains(s.stack[j].0));
        } else {
            lemma_stack_edge(adj, start, c, given, i);
            assert(news[i] == st[i]);
        }
    }
    assert forall|i: int, n: N|
        0 <= i < news.len() && t.marks.parents.dom().contains(n) && finished(t.dfs, n)
            && #[trigger] is_ancestor(
            t.marks.parents,
            n,
            deeper(t.marks.discovery, news[i]),
        ) implies t.marks.lowpt[n] < t.marks.discovery[t.marks.parents[n]] by {
        lemma_step_stack(adj, s);
        assert(on_stack(t.dfs.stack, x));
        assert(n != x);
        assert(finished(s, n));
        assert(m.parents.dom().contains(n));
        assert(s.visited.contains(m.parents[n]));
        if i < st.len() {
            lemma_stack_edge(adj, start, c, given, i);
            assert(news[i] == st[i]);
            lemma_ancestor_shrink(m.parents, x, from, n, deeper(m.discovery, st[i]));
            assert(is_ancestor(m.parents, n, deeper(m.discovery, st[i])));
        } else {
            lemma_ancestor_up(t.marks.parents, n, x);
            lemma_ancestor_shrink(m.parents, x, from, n, from);
            assert(s.stack[top] == s.stack.last());
            lemma_open_ancestors(m.parents, s.stack, n, top);
        }
    }
}

/// An edge to a visited node keeps `stack_inv`, whether it is put on the
/// edge stack or not.
pub proof fn lemma_stack_back<N: Node>(
    adj: Map<N, Seq<N>>,
    start: N,
    c: ComponentsState<N>,
    given: Seq<(N, N)>,
)
    requires
        is_simple_undirected(adj),
        core_inv(adj, start, c, given),
        shape_inv(adj, start, c),
        stack_inv(c),
        records_advance(adj, c, given),
        dfs_step(adj, c.dfs).1 matches Some(DfsEvent::NonTreeEdge(_, _)),
    ensures
        stack_inv(components_advance(adj, c)),
{
    let s = c.dfs;
    let m = c.marks;
    let st = m.edge_stack;
    let t = components_advance(adj, c);
    let u = dfs_step(adj, s).1->0->NonTreeEdge_0;
    let w = dfs_step(adj, s).1->0->NonTreeEdge_1;
    let top = s.stack.len() - 1;
    let news = t.marks.edge_stack;
    let pushed = pushed_edge(adj, c) is Some;
    lemma_parents_grow(adj, c);
    lemma_low_change(adj, start, c, given);
    lemma_step_stack(adj, s);
    assert(s.stack[top].0 == u);
    assert(s.stack[top] == s.stack.last());
    assert(s.visited.contains(s.stack[top].0));
    assert(t.marks.parents == m.parents);
    assert(t.marks.discovery == m.discovery);
    assert(t.dfs.stack.len() == s.stack.len());
    assert forall|j: int| 0 <= j <= top implies (#[trigger] t.dfs.stack[j]).0 == s.stack[j].0 by {}
    if pushed {
        lemma_back_target_open(adj, start, c, given, u, w);
        assert(news == st.push((u, w)));
        assert(deeper(m.discovery, (u, w)) == u);
        if s.stack.len() <= 1 {
            assert(s.stack[0].0 == start);
        }
    } else {
        assert(news == st);
    }
    assert forall|j: int| 0 < j < t.dfs.stack.len() implies news.contains(
        tree_edge_of(t.marks.parents, (#[trigger] t.dfs.stack[j]).0),
    ) by {
        lemma_frame_edge(adj, start, c, given, j);
        let at = pos(st, tree_edge_of(m.parents, s.stack[j].0));
        assert(news[at] == st[at]);
    }
    assert forall|j: int, i: int|
        0 < j < t.dfs.stack.len() && pos(news, tree_edge_of(t.marks.parents, t.dfs.stack[j].0)) <= i
            < news.len() implies #[trigger] is_ancestor(
        t.marks.parents,
        t.dfs.stack[j].0,
        deeper(t.marks.discovery, news[i]),
    ) by {
        lemma_frame_edge(adj, start, c, given, j);
        let at = pos(st, tree_edge_of(m.parents, s.stack[j].0));
        assert(news[at] == st[at]);
        lemma_pos(news, st[at], at);
        if i < st.len() {
            assert(news[i] == st[i]);
            assert(is_ancestor(m.parents, s.stack[j].0, deeper(m.discovery, st[i])));
        } else {
            lemma_chain_ancestor(m.parents, s.stack, j);
        }
    }
    assert forall|j: int, i: int|
        0 < j < t.dfs.stack.len() && 0 <= i < pos(
            news,
            tree_edge_of(t.marks.parents, t.dfs.stack[j].0),
        ) implies #[trigger] earlier(
        t.marks.discovery,
        deeper(t.marks.discovery, news[i]),
        t.dfs.stack[j].0,
    ) by {
        lemma_frame_edge(adj, start, c, given, j);
        let at = pos(st, tree_edge_of(m.parents, s.stack[j].0));
        assert(news[at] == st[at]);
        lemma_pos(news, st[at], at);
        assert(news[i] == st[i]);
        assert(earlier(m.discovery, deeper(m.discovery, st[i]), s.stack[j].0));
    }
    assert forall|i: int, n: N|
        0 <= i < news.len() && t.marks.parents.dom().contains(n) && finished(t.dfs, n)
            && #[trigger] is_ancestor(
            t.marks.parents,
            n,
            deeper(t.marks.discovery, news[i]),
        ) implies t.marks.lowpt[n] < t.marks.discovery[t.marks.parents[n]] by {
        assert(finished(s, n));
        assert(n != u);
        if i < st.len() {
            assert(news[i] == st[i]);
            assert(is_ancestor(m.parents, n, deeper(m.discovery, st[i])));
        } else {
            lemma_open_ancestors(m.parents, s.stack, n, top);
        }
    }
}

/// An event that leaves the stack and the edge stack as they are keeps
/// `stack_inv`; so does the discovery of `start`.
pub proof fn lemma_stack_quiet<N: Node>(
    adj: Map<N, Seq<N>>,
    start: N,
    c: ComponentsState<N>,
    given: Seq<(N, N)>,
)
    requires
        core_inv(adj, start, c, given),
        stack_inv(c),
        dfs_step(adj, c.dfs).1 is None || dfs_step(adj, c.dfs).1 matches Some(
            DfsEvent::Discover(_, None),
        ),
    ensures
        stack_inv(components_advance(adj, c)),
{
    let s = c.dfs;
    let t = components_advance(adj, c);
    match dfs_step(adj, s).1 {
        None => {
            assert(t.dfs.stack == s.stack);
            assert(t.marks == c.marks);
            assert forall|n: N| finished(t.dfs, n) == finished(s, n) by {}
        },
        Some(DfsEvent::Discover(x, None)) => {
            assert(s.stack.len() == 0);
            assert(t.dfs.stack.len() == 1);
            assert(t.marks.edge_stack.len() == 0);
        },
        _ => {},
    }
}

/// Where the edge between `u` and `v` is on the edge stack at the place
/// `k` and nowhere above it, a component taken for `u` and `v` leaves the
/// first `k` edges on the edge stack.
pub proof fn lemma_split_len<N>(stack: Seq<(N, N)>, u: N, v: N, k: int)
    requires
        0 <= k < stack.len(),
        joins(stack[k], u, v),
        forall|i: int| k < i < stack.len() ==> !joins(#[trigger] stack[i], u, v),
    ensures
        split_component(stack, u, v).0.len() == k,
    decreases stack.len(),
{
    if !joins(stack.last(), u, v) {
        let shorter = stack.drop_last();
        assert(shorter[k] == stack[k]);
        assert forall|i: int| k < i < shorter.len() implies !joins(#[trigger] shorter[i], u, v) by {
            assert(shorter[i] == stack[i]);
        }
        lemma_split_len(shorter, u, v, k);
    } else {
        if k < stack.len() - 1 {
            assert(joins(stack[stack.len() - 1], u, v));
        }
    }
}

/// What the finish of a node with a parent does: the node is on top of the
/// stack above its parent, and where it closes a component, the edge stack
/// keeps the edges below the edge to the node and the component holds that
/// edge and those above it.
pub proof fn lemma_finish_parts<N: Node>(
    adj: Map<N, Seq<N>>,
    start: N,
    c: ComponentsState<N>,
    given: Seq<(N, N)>,
)
    requires
        core_inv(adj, start, c, given),
        is_chain(c.marks.parents, c.dfs.stack),
        stack_inv(c),
        dfs_step(adj, c.dfs).1 matches Some(DfsEvent::Finish(x)) && c.marks.parents.dom().contains(
            x,
        ),
    ensures
        ({
            let x = c.dfs.stack.last().0;
            let p = c.marks.parents[x];
            let st = c.marks.edge_stack;
            let k = pos(st, (p, x));
            let t = components_advance(adj, c);
            &&& c.dfs.stack.len() >= 2
            &&& dfs_step(adj, c.dfs).1 == Some(DfsEvent::Finish(x))
            &&& c.dfs.stack[c.dfs.stack.len() - 2].0 == p
            &&& t.dfs.stack == c.dfs.stack.drop_last()
            &&& 0 <= k < st.len()
            &&& st[k] == (p, x)
            &&& t.marks.parents == c.marks.parents
            &&& t.marks.discovery == c.marks.discovery
            &&& t.marks.lowpt[x] == c.marks.lowpt[x]
            &&& components_emitted(adj, c) is Some <==> c.marks.discovery[p] <= c.marks.lowpt[x]
            &&& components_emitted(adj, c) is Some ==> t.marks.edge_stack == st.take(k)
                && components_emitted(adj, c)->0.len() == st.len() - k && forall|i: int|
                0 <= i < st.len() - k ==> #[trigger] components_emitted(adj, c)->0[i] == st[st.len()
                    - 1 - i]
            &&& components_emitted(adj, c) is None ==> t.marks.edge_stack == st
        }),
{
    let s = c.dfs;
    let m = c.marks;
    let st = m.edge_stack;
    let top = s.stack.len() - 1;
    let x = s.stack.last().0;
    let p = m.parents[x];
    lemma_low_change(adj, start, c, given);
    assert(s.stack[top] == s.stack.last());
    lemma_frame_edge(adj, start, c, given, top);
    let k = pos(st, (p, x));
    assert forall|i: int| k < i < st.len() implies !joins(#[trigger] st[i], p, x) by {
        assert(!joins(st[i], st[k].0, st[k].1));
    }
    lemma_split_len(st, p, x, k);
    crate::components_theory::lemma_split_parts(st, p, x);
    let (rest, taken) = split_component(st, p, x);
    assert(rest =~= st.take(k));
}

/// At the finish of a child of `start`, the edge to it is the lowest edge
/// on the edge stack.
pub proof fn lemma_bottom_edge<N: Node>(
    adj: Map<N, Seq<N>>,
    start: N,
    c: ComponentsState<N>,
    given: Seq<(N, N)>,
)
    requires
        core_inv(adj, start, c, given),
        shape_inv(adj, start, c),
        links_inv(c, given),
        stack_inv(c),
        c.dfs.stack.len() == 2,
    ensures
        pos(c.marks.edge_stack, tree_edge_of(c.marks.parents, c.dfs.stack[1].0)) == 0,
{
    let s = c.dfs;
    let m = c.marks;
    let st = m.edge_stack;
    let x = s.stack[1].0;
    let k = pos(st, tree_edge_of(m.parents, x));
    assert(st.contains(tree_edge_of(m.parents, s.stack[1].0)));
    if k > 0 {
        let e = st[0];
        let d = deeper(m.discovery, e);
        let sh = shallower(m.discovery, e);
        assert(st.contains(e));
        assert(recorded(given, st, e));
        assert(pair_kind(adj, c, e));
        assert(is_link_edge(c, e));
        lemma_ancestor_up(m.parents, sh, d);
        assert(d != start);
        assert(s.visited.contains(d));
        assert(is_ancestor(m.parents, start, d));
        let child = lemma_ancestor_down(m.parents, start, d);
        assert(earlier(m.discovery, deeper(m.discovery, st[0]), s.stack[1].0));
        if child == x {
            lemma_ancestor_earlier(m.parents, m.discovery, x, d);
        } else {
            assert(s.visited.contains(child));
            if on_stack(s.stack, child) {
                let i = choose|i: int| 0 <= i < s.stack.len() && (#[trigger] s.stack[i]).0 == child;
                assert(s.stack[0].0 == start);
            }
            assert(finished(s, child));
            assert(is_ancestor(m.parents, child, deeper(m.discovery, st[0])));
            assert(m.lowpt[child] < m.discovery[m.parents[child]]);
            assert(s.visited.contains(start));
        }
    }
}

/// The finish of a node keeps `stack_inv`.
pub proof fn lemma_stack_finish<N: Node>(
    adj: Map<N, Seq<N>>,
    start: N,
    c: ComponentsState<N>,
    given: Seq<(N, N)>,
)
    requires
        core_inv(adj, start, c, given),
        shape_inv(adj, start, c),
        links_inv(c, given),
        stack_inv(c),
        records_advance(adj, c, given),
        dfs_step(adj, c.dfs).1 matches Some(DfsEvent::Finish(_)),
    ensures
        stack_inv(components_advance(adj, c)),
{
    let s = c.dfs;
    let m = c.marks;
    let st = m.edge_stack;
    let t = components_advance(adj, c);
    let top = s.stack.len() - 1;
    let x = dfs_step(adj, s).1->0->Finish_0;
    let news = t.marks.edge_stack;
    lemma_low_change(adj, start, c, given);
    lemma_step_stack(adj, s);
    assert(s.stack[top] == s.stack.last());
    if !m.parents.dom().contains(x) {
        assert(s.visited.contains(s.stack[top].0));
        assert(x == start);
        if top > 0 {
            assert(s.stack[0].0 != s.stack[top].0);
        }
        assert(st.len() == 0);
        assert(news.len() == 0);
        assert(t.dfs.stack.len() == 0);
    } else {
        lemma_finish_parts(adj, start, c, given);
        let p = m.parents[x];
        let k = pos(st, (p, x));
        let taken = components_emitted(adj, c) is Some;
        assert forall|j: int| 0 < j < t.dfs.stack.len() implies news.contains(
            tree_edge_of(t.marks.parents, (#[trigger] t.dfs.stack[j]).0),
        ) && pos(news, tree_edge_of(t.marks.parents, t.dfs.stack[j].0)) == pos(
            st,
            tree_edge_of(m.parents, s.stack[j].0),
        ) by {
            lemma_frame_edge(adj, start, c, given, j);
            let at = pos(st, tree_edge_of(m.parents, s.stack[j].0));
            assert(t.dfs.stack[j] == s.stack[j]);
            if taken {
                if at >= k {
                    assert(is_ancestor(m.parents, s.stack[top].0, deeper(m.discovery, st[at])));
                    lemma_ancestor_earlier(m.parents, m.discovery, s.stack[top].0, s.stack[j].0);
                    assert(m.discovery[s.stack[j].0] < m.discovery[s.stack[top].0]);
                }
                assert(news[at] == st[at]);
            }
            lemma_pos(news, st[at], at);
        }
        assert forall|j: int, i: int|
            0 < j < t.dfs.stack.len() && pos(news, tree_edge_of(t.marks.parents, t.dfs.stack[j].0))
                <= i < news.len() implies #[trigger] is_ancestor(
            t.marks.parents,
            t.dfs.stack[j].0,
            deeper(t.marks.discovery, news[i]),
        ) by {
            assert(t.dfs.stack[j] == s.stack[j]);
            assert(news[i] == st[i]);
            assert(is_ancestor(m.parents, s.stack[j].0, deeper(m.discovery, st[i])));
        }
        assert forall|j: int, i: int|
            0 < j < t.dfs.stack.len() && 0 <= i < pos(
                news,
                tree_edge_of(t.marks.parents, t.dfs.stack[j].0),
            ) implies #[trigger] earlier(
            t.marks.discovery,
            deeper(t.marks.discovery, news[i]),
            t.dfs.stack[j].0,
        ) by {
            assert(t.dfs.stack[j] == s.stack[j]);
            assert(news[i] == st[i]);
            assert(earlier(m.discovery, deeper(m.discovery, st[i]), s.stack[j].0));
        }
        assert forall|i: int, n: N|
            0 <= i < news.len() && t.marks.parents.dom().contains(n) && finished(t.dfs, n)
                && #[trigger] is_ancestor(
                t.marks.parents,
                n,
                deeper(t.marks.discovery, news[i]),
            ) implies t.marks.lowpt[n] < t.marks.discovery[t.marks.parents[n]] by {
            assert(news[i] == st[i]);
            if n == x {
                if taken {
                    assert(earlier(m.discovery, deeper(m.discovery, st[i]), s.stack[top].0));
                    lemma_ancestor_earlier(m.parents, m.discovery, x, deeper(m.discovery, st[i]));
                }
            } else {
                assert(finished(s, n));
                assert(is_ancestor(m.parents, n, deeper(m.discovery, st[i])));
            }
        }
        if t.dfs.stack.len() <= 1 {
            assert(s.stack.len() == 2);
            assert(s.stack[0].0 == start);
            assert(p == start);
            assert(s.visited.contains(start));
            lemma_bottom_edge(adj, start, c, given);
            assert(taken);
            assert(news.len() == 0);
        }
    }
}

/// Recording an event keeps `stack_inv`.
pub proof fn lemma_advance_stack<N: Node>(
    adj: Map<N, Seq<N>>,
    start: N,
    c: ComponentsState<N>,
    given: Seq<(N, N)>,
)
    requires
        is_simple_undirected(adj),
        core_inv(adj, start, c, given),
        shape_inv(adj, start, c),
        links_inv(c, given),
        stack_inv(c),
        records_advance(adj, c, given),
    ensures
        stack_inv(components_advance(adj, c)),
{
    match dfs_step(adj, c.dfs).1 {
        None => {
            lemma_stack_quiet(adj, start, c, given);
        },
        Some(DfsEvent::Discover(_, None)) => {
            lemma_stack_quiet(adj, start, c, given);
        },
        Some(DfsEvent::Discover(_, Some(_))) => {
            lemma_stack_tree(adj, start, c, given);
        },
        Some(DfsEvent::NonTreeEdge(_, _)) => {
            lemma_stack_back(adj, start, c, given);
        },
        Some(DfsEvent::Finish(_)) => {
            lemma_stack_finish(adj, start, c, given);
        },
    }
}

/// The finished node `n` closes the given edge `e`: the later end of `e`
/// is a descendant of `n`, and its earlier end was discovered no earlier
/// than the parent of `n`.
pub open spec fn closes<N: Node>(c: ComponentsState<N>, e: (N, N), n: N) -> bool {
    &&& c.marks.parents.dom().contains(n)
    &&& finished(c.dfs, n)
    &&& is_ancestor(c.marks.parents, n, deeper(c.marks.discovery, e))
    &&& c.marks.discovery[c.marks.parents[n]] <= c.marks.discovery[shallower(c.marks.discovery, e)]
}

/// Some finished node closes the edge `e`.
pub open spec fn is_closed<N: Node>(c: ComponentsState<N>, e: (N, N)) -> bool {
    exists|n: N| #[trigger] closes(c, e, n)
}

/// Every edge given out is closed by a finished node.
pub open spec fn closed_inv<N: Node>(c: ComponentsState<N>, given: Seq<(N, N)>) -> bool {
    forall|i: int| 0 <= i < given.len() ==> is_closed(c, #[trigger] given[i])
}

/// The low-link value of the node on top of the stack is at most that of
/// each of its descendants.
pub proof fn lemma_low_chain<N: Node>(
    adj: Map<N, Seq<N>>,
    start: N,
    c: ComponentsState<N>,
    given: Seq<(N, N)>,
    a: N,
)
    requires
        core_inv(adj, start, c, given),
        is_chain(c.marks.parents, c.dfs.stack),
        low_inv(c, given),
        c.dfs.stack.len() > 0,
        is_ancestor(c.marks.parents, c.dfs.stack.last().0, a),
        c.dfs.visited.contains(a),
    ensures
        c.marks.lowpt[c.dfs.stack.last().0] <= c.marks.lowpt[a],
    decreases c.marks.discovery[a],
{
    let x = c.dfs.stack.last().0;
    if a != x {
        lemma_ancestor_up(c.marks.parents, x, a);
        lemma_below_top_finished(adj, start, c, given, a);
        let q = c.marks.parents[a];
        assert(c.dfs.visited.contains(q));
        lemma_low_chain(adj, start, c, given, q);
    }
}

/// Recording an event keeps `closed_inv`.
pub proof fn lemma_advance_closed<N: Node>(
    adj: Map<N, Seq<N>>,
    start: N,
    c: ComponentsState<N>,
    given: Seq<(N, N)>,
)
    requires
        core_inv(adj, start, c, given),
        shape_inv(adj, start, c),
        links_inv(c, given),
        low_inv(c, given),
        stack_inv(c),
        closed_inv(c, given),
    ensures
        closed_inv(components_advance(adj, c), with_component(given, components_emitted(adj, c))),
{
    let s = c.dfs;
    let m = c.marks;
    let st = m.edge_stack;
    let t = components_advance(adj, c);
    let later = with_component(given, components_emitted(adj, c));
    let top = s.stack.len() - 1;
    lemma_parents_grow(adj, c);
    lemma_step_stack(adj, s);
    assert forall|i: int| 0 <= i < later.len() implies is_closed(t, #[trigger] later[i]) by {
        if i < given.len() {
            let e = given[i];
            assert(later[i] == e);
            assert(is_closed(c, given[i]));
            let n = choose|n: N| #[trigger] closes(c, given[i], n);
            assert(given.contains(e));
            assert(recorded(given, st, e));
            assert(pair_kind(adj, c, e));
            lemma_ancestor_stable(m.parents, t.marks.parents, n, deeper(m.discovery, e));
            assert(s.visited.contains(n));
            assert(s.visited.contains(m.parents[n]));
            assert(finished(t.dfs, n)) by {
                match dfs_step(adj, s).1 {
                    Some(DfsEvent::Discover(x, _)) => {
                        assert(!s.visited.contains(x));
                    },
                    _ => {},
                }
            }
            assert(closes(t, later[i], n));
        } else {
            lemma_low_change(adj, start, c, given);
            let x = s.stack.last().0;
            assert(s.stack[top] == s.stack.last());
            if !m.parents.dom().contains(x) {
                assert(s.visited.contains(s.stack[top].0));
                assert(x == start);
                if top > 0 {
                    assert(s.stack[0].0 != s.stack[top].0);
                }
            } else {
                lemma_finish_parts(adj, start, c, given);
                let p = m.parents[x];
                let k = pos(st, (p, x));
                let g = i - given.len();
                let at = st.len() - 1 - g;
                let e = st[at];
                assert(later[i] == components_emitted(adj, c)->0[g]);
                assert(later[i] == e);
                lemma_stack_edge(adj, start, c, given, at);
                let d = deeper(m.discovery, e);
                let sh = shallower(m.discovery, e);
                assert(is_ancestor(m.parents, s.stack[top].0, deeper(m.discovery, st[at])));
                assert(on_stack(s.stack, x));
                assert(!on_stack(t.dfs.stack, x));
                assert(s.visited.contains(s.stack[top].0));
                lemma_ancestor_earlier(m.parents, m.discovery, x, d);
                if is_tree_edge(m.parents, e) {
                    if d != x {
                        lemma_ancestor_up(m.parents, x, d);
                        lemma_ancestor_earlier(m.parents, m.discovery, x, m.parents[d]);
                    }
                } else {
                    assert(recorded(given, st, e)) by {
                        assert(st.contains(e));
                    }
                    assert(m.lowpt[e.0] <= m.discovery[e.1]);
                    lemma_low_chain(adj, start, c, given, d);
                }
                assert(closes(t, later[i], x));
            }
        }
    }
}

/// The nodes of a chain of parents and children are discovered in its
/// order, and each but the first has a parent.
pub proof fn lemma_chain_node<N>(par: Map<N, N>, disc: Map<N, nat>, chain: Seq<N>, j: int)
    requires
        is_descent(par, chain),
        parents_rise(par, disc),
        0 <= j < chain.len(),
    ensures
        disc[chain[0]] + j <= disc[chain[j]],
        disc[chain[j]] + (chain.len() - 1 - j) <= disc[chain.last()],
        j > 0 ==> par.dom().contains(chain[j]) && par[chain[j]] == chain[j - 1],
{
    let head = chain.take(j + 1);
    let tail = chain.skip(j);
    assert forall|k: int| 0 < k < head.len() implies #[trigger] is_link(par, head, k) by {
        assert(is_link(par, chain, k));
    }
    assert forall|k: int| 0 < k < tail.len() implies #[trigger] is_link(par, tail, k) by {
        assert(is_link(par, chain, j + k));
    }
    lemma_descent_rises(par, disc, head);
    lemma_descent_rises(par, disc, tail);
    if j > 0 {
        assert(is_link(par, chain, j));
    }
}

/// A step from a child to its parent goes along the edge to a child only
/// where it begins at that child.
pub proof fn lemma_tree_step<N>(par: Map<N, N>, disc: Map<N, nat>, z: N, child: N)
    requires
        parents_rise(par, disc),
        par.dom().contains(z),
        par.dom().contains(child),
        joins((z, par[z]), par[child], child),
    ensures
        z == child,
{
}

/// A walk that begins outside a set of nodes and ends in it has a step
/// from outside the set into it.
pub proof fn lemma_crossing<N>(walk: Seq<N>, inside: spec_fn(N) -> bool) -> (i: int)
    requires
        walk.len() > 0,
        !inside(walk[0]),
        inside(walk.last()),
    ensures
        0 <= i < walk.len() - 1,
        !inside(walk[i]),
        inside(walk[i + 1]),
    decreases walk.len(),
{
    let last = walk.len() - 1;
    if inside(walk[last - 1]) {
        let shorter = walk.drop_last();
        let i = lemma_crossing(shorter, inside);
        assert(shorter[i] == walk[i] && shorter[i + 1] == walk[i + 1]);
        i
    } else {
        last - 1
    }
}

/// An edge from a node to an ancestor that is not its parent lies on a
/// cycle: the way up the tree leads from the node to that ancestor.
pub proof fn lemma_back_edge_on_cycle<N>(
    adj: Map<N, Seq<N>>,
    par: Map<N, N>,
    disc: Map<N, nat>,
    a: N,
    b: N,
)
    requires
        parents_rise(par, disc),
        forall|z: N| #[trigger] par.dom().contains(z) ==> edge(adj, z, par[z]),
        is_ancestor(par, b, a),
        disc[b] < disc[a],
        !(par.dom().contains(a) && par[a] == b),
    ensures
        connected_without(adj, a, b),
{
    reveal(is_ancestor);
    let chain = choose|chain: Seq<N>| #[trigger]
        is_descent(par, chain) && chain.len() > 0 && chain[0] == b && chain.last() == a;
    assert forall|j: int| 0 < j < chain.len() implies !joins(
        (#[trigger] chain[j], par[chain[j]]),
        a,
        b,
    ) by {
        lemma_chain_node(par, disc, chain, j);
    }
    lemma_climb(adj, par, chain, a, b);
    let up = chain.reverse();
    assert(is_walk(adj, up) && up.len() > 0 && up[0] == a && up.last() == b && avoids(up, a, b));
}

/// The edge to a child lies on a cycle where an edge leads from a
/// descendant of the child to an ancestor of the parent and is not that
/// edge: the way up from the parent, that edge, and the way up to the child
/// lead from the parent to the child.
pub proof fn lemma_tree_edge_on_cycle<N>(
    adj: Map<N, Seq<N>>,
    par: Map<N, N>,
    disc: Map<N, nat>,
    child: N,
    a: N,
    b: N,
)
    requires
        parents_rise(par, disc),
        forall|z: N| #[trigger] par.dom().contains(z) ==> edge(adj, z, par[z]),
        par.dom().contains(child),
        is_ancestor(par, child, a),
        is_ancestor(par, b, par[child]),
        edge(adj, b, a),
        !joins((b, a), par[child], child),
    ensures
        connected_without(adj, par[child], child),
{
    reveal(is_ancestor);
    let q = par[child];
    let upper = choose|chain: Seq<N>| #[trigger]
        is_descent(par, chain) && chain.len() > 0 && chain[0] == b && chain.last() == q;
    let lower = choose|chain: Seq<N>| #[trigger]
        is_descent(par, chain) && chain.len() > 0 && chain[0] == child && chain.last() == a;
    assert forall|j: int| 0 < j < upper.len() implies !joins(
        (#[trigger] upper[j], par[upper[j]]),
        q,
        child,
    ) by {
        lemma_chain_node(par, disc, upper, j);
        if joins((upper[j], par[upper[j]]), q, child) {
            lemma_tree_step(par, disc, upper[j], child);
        }
    }
    assert forall|j: int| 0 < j < lower.len() implies !joins(
        (#[trigger] lower[j], par[lower[j]]),
        q,
        child,
    ) by {
        lemma_chain_node(par, disc, lower, j);
        if joins((lower[j], par[lower[j]]), q, child) {
            lemma_tree_step(par, disc, lower[j], child);
        }
    }
    lemma_climb(adj, par, upper, q, child);
    lemma_climb(adj, par, lower, q, child);
    let first = upper.reverse();
    let second = lower.reverse();
    lemma_join_walks(adj, first, second, q, child);
    let walk = first + second;
    assert(is_walk(adj, walk) && walk.len() > 0 && walk[0] == q && walk.last() == child
        && avoids(walk, q, child));
}

/// The invariants that the low-link values are measured by, together.
pub open spec fn bridge_inv<N: Node>(
    adj: Map<N, Seq<N>>,
    start: N,
    c: ComponentsState<N>,
    given: Seq<(N, N)>,
) -> bool {
    &&& core_inv(adj, start, c, given)
    &&& shape_inv(adj, start, c)
    &&& links_inv(c, given)
    &&& low_inv(c, given)
    &&& stack_inv(c)
    &&& closed_inv(c, given)
}

/// The next event is the finish of a node that closes a component.
pub open spec fn closing<N: Node>(adj: Map<N, Seq<N>>, c: ComponentsState<N>) -> bool {
    &&& dfs_step(adj, c.dfs).1 matches Some(DfsEvent::Finish(x))
    &&& c.marks.parents.dom().contains(dfs_step(adj, c.dfs).1->0->Finish_0)
    &&& components_emitted(adj, c) is Some
}

/// When a node is about to finish, the walk has looked at every edge that
/// leaves it or one of its proper descendants.
pub proof fn lemma_subtree_walked<N: Node>(
    adj: Map<N, Seq<N>>,
    start: N,
    c: ComponentsState<N>,
    given: Seq<(N, N)>,
    a: N,
    b: N,
)
    requires
        core_inv(adj, start, c, given),
        is_chain(c.marks.parents, c.dfs.stack),
        dfs_step(adj, c.dfs).1 matches Some(DfsEvent::Finish(_)),
        is_ancestor(c.marks.parents, c.dfs.stack.last().0, a),
        edge(adj, a, b),
    ensures
        c.dfs.visited.contains(a),
        walked(adj, c.dfs, a, b),
{
    let s = c.dfs;
    let top = s.stack.len() - 1;
    let x = s.stack.last().0;
    assert(s.stack[top] == s.stack.last());
    assert(s.visited.contains(s.stack[top].0));
    if a == x {
        assert(s.stack[top].1.len() == 0);
        let all = neighbor_seq(adj, x);
        let j = choose|j: int| 0 <= j < all.len() && all[j] == b;
        assert(neighbor_seq(adj, s.stack[top].0)[j] == b);
        assert(looked_at(adj, s.stack[top], b));
    } else {
        lemma_ancestor_up(c.marks.parents, x, a);
        lemma_below_top_finished(adj, start, c, given, a);
    }
}

/// Where the component that a finish closes is the edge to the finished
/// node alone, no other edge leads out of the descendants of that node.
pub proof fn lemma_no_escape<N: Node>(
    adj: Map<N, Seq<N>>,
    start: N,
    c: ComponentsState<N>,
    given: Seq<(N, N)>,
    a: N,
    b: N,
)
    requires
        is_simple_undirected(adj),
        bridge_inv(adj, start, c, given),
        closing(adj, c),
        components_emitted(adj, c)->0.len() == 1,
        is_ancestor(c.marks.parents, c.dfs.stack.last().0, a),
        !is_ancestor(c.marks.parents, c.dfs.stack.last().0, b),
        covered(given, c.marks.edge_stack, a, b),
    ensures
        joins((a, b), c.marks.parents[c.dfs.stack.last().0], c.dfs.stack.last().0),
{
    let s = c.dfs;
    let m = c.marks;
    let st = m.edge_stack;
    let par = m.parents;
    let disc = m.discovery;
    let top = s.stack.len() - 1;
    let x = s.stack.last().0;
    let p = par[x];
    lemma_finish_parts(adj, start, c, given);
    let k = pos(st, (p, x));
    assert(k == st.len() - 1);
    assert(s.stack[top] == s.stack.last());
    let e = if recorded(given, st, (a, b)) {
        (a, b)
    } else {
        (b, a)
    };
    assert(recorded(given, st, e));
    assert(pair_kind(adj, c, e));
    let d = deeper(disc, e);
    let sh = shallower(disc, e);
    assert(is_link_edge(c, e));
    if d == b {
        lemma_ancestor_trans(par, x, a, b);
    }
    assert(d == a && sh == b);
    lemma_ancestors_comparable(par, b, x, a);
    assert(is_ancestor(par, b, x));
    lemma_ancestor_earlier(par, disc, b, x);
    lemma_ancestor_earlier(par, disc, x, a);
    if is_tree_edge(par, e) {
        if a != x {
            lemma_ancestor_up(par, x, a);
        }
    } else {
        assert(e == (a, b));
        if st.contains(e) {
            let at = choose|i: int| 0 <= i < st.len() && st[i] == e;
            if at < k {
                assert(earlier(disc, deeper(disc, st[at]), s.stack[top].0));
            }
        } else {
            let g = choose|g: int| 0 <= g < given.len() && given[g] == e;
            assert(is_closed(c, given[g]));
            let n = choose|n: N| #[trigger] closes(c, given[g], n);
            lemma_ancestors_comparable(par, n, x, a);
            if is_ancestor(par, n, x) {
                assert(!par.dom().contains(s.stack[0].0)) by {
                    assert(s.stack[0].0 == start);
                }
                lemma_open_ancestors(par, s.stack, n, top);
            }
            assert(on_stack(s.stack, x));
            lemma_ancestor_up(par, x, n);
            lemma_ancestor_earlier(par, disc, x, par[n]);
        }
    }
}

/// Where the component that a finish closes is the edge to the finished
/// node alone, that edge is a bridge.
pub proof fn lemma_singleton_bridge<N: Node>(
    adj: Map<N, Seq<N>>,
    start: N,
    c: ComponentsState<N>,
    given: Seq<(N, N)>,
)
    requires
        is_simple_undirected(adj),
        bridge_inv(adj, start, c, given),
        forall|a: N, b: N| #[trigger]
            walked(adj, c.dfs, a, b) ==> covered(given, c.marks.edge_stack, a, b),
        closing(adj, c),
        components_emitted(adj, c)->0.len() == 1,
    ensures
        is_bridge(adj, c.marks.parents[c.dfs.stack.last().0], c.dfs.stack.last().0),
{
    let s = c.dfs;
    let par = c.marks.parents;
    let disc = c.marks.discovery;
    let x = s.stack.last().0;
    let p = par[x];
    lemma_finish_parts(adj, start, c, given);
    if connected_without(adj, p, x) {
        let walk = choose|walk: Seq<N>|
            #[trigger] is_walk(adj, walk) && walk.len() > 0 && walk[0] == p && walk.last() == x
                && avoids(walk, p, x);
        let inside = |z: N| is_ancestor(par, x, z);
        lemma_ancestor_self(par, x);
        if is_ancestor(par, x, p) {
            lemma_ancestor_earlier(par, disc, x, p);
        }
        let i = lemma_crossing(walk, inside);
        let b = walk[i];
        let a = walk[i + 1];
        assert(is_step(adj, walk, i));
        assert(!step_along(walk, i, p, x));
        assert(edge(adj, a, b));
        lemma_subtree_walked(adj, start, c, given, a, b);
        lemma_no_escape(adj, start, c, given, a, b);
    }
}

/// Where a finish closes a component of two edges or more, the edge to
/// the finished node lies on a cycle.
pub proof fn lemma_closing_edge_on_cycle<N: Node>(
    adj: Map<N, Seq<N>>,
    start: N,
    c: ComponentsState<N>,
    given: Seq<(N, N)>,
)
    requires
        is_simple_undirected(adj),
        bridge_inv(adj, start, c, given),
        closing(adj, c),
        components_emitted(adj, c)->0.len() >= 2,
    ensures
        connected_without(adj, c.marks.parents[c.dfs.stack.last().0], c.dfs.stack.last().0),
{
    let s = c.dfs;
    let m = c.marks;
    let st = m.edge_stack;
    let par = m.parents;
    let disc = m.discovery;
    let top = s.stack.len() - 1;
    let x = s.stack.last().0;
    let p = par[x];
    lemma_finish_parts(adj, start, c, given);
    let k = pos(st, (p, x));
    assert(s.stack[top] == s.stack.last());
    assert(s.visited.contains(s.stack[top].0));
    let at = k + 1;
    let e = st[at];
    assert(st.contains(e));
    assert(recorded(given, st, e));
    assert(pair_kind(adj, c, e));
    assert(!joins(st[at], st[k].0, st[k].1));
    let d = deeper(disc, e);
    assert(is_ancestor(par, s.stack[top].0, deeper(disc, st[at])));
    assert(is_ancestor(par, shallower(disc, e), d));
    if d == x {
        let y = shallower(disc, e);
        assert(!is_tree_edge(par, e));
        assert(e == (x, y));
        assert(m.lowpt[e.0] <= disc[e.1]);
        lemma_ancestor_up(par, y, x);
        lemma_ancestor_earlier(par, disc, y, p);
    } else {
        let child = lemma_ancestor_down(par, x, d);
        assert(s.visited.contains(child));
        lemma_ancestor_self(par, x);
        lemma_ancestor_child(par, x, x, child);
        lemma_ancestor_earlier(par, disc, x, child);
        lemma_below_top_finished(adj, start, c, given, child);
        assert(is_ancestor(par, child, deeper(disc, st[at])));
        assert(m.lowpt[child] < disc[par[child]]);
        assert(m.lowpt[child] <= disc[child]);
        assert(low_witness(c, given, child));
        let w = choose|w: (N, N)|
            #[trigger] recorded(given, st, w) && !is_tree_edge(par, w) && is_ancestor(
                par,
                child,
                w.0,
            ) && disc[w.1] == m.lowpt[child];
        assert(pair_kind(adj, c, w));
        assert(is_link_edge(c, w));
        assert(deeper(disc, w) == w.0 && shallower(disc, w) == w.1);
        assert(m.lowpt[par[child]] <= m.lowpt[child]);
        lemma_ancestor_trans(par, x, child, w.0);
        lemma_ancestors_comparable(par, w.1, x, w.0);
        if is_ancestor(par, x, w.1) {
            lemma_ancestor_earlier(par, disc, x, w.1);
        }
        lemma_ancestor_up(par, w.1, x);
        lemma_ancestor_earlier(par, disc, w.1, p);
        assert(w.1 == p);
        lemma_ancestor_self(par, p);
        lemma_ancestor_earlier(par, disc, child, w.0);
        assert(edge(adj, w.1, w.0));
        lemma_tree_edge_on_cycle(adj, par, disc, x, w.0, w.1);
    }
}

/// The edge to a child lies on a cycle where the low-link value of the
/// child is less than the discovery time of its parent.
pub proof fn lemma_unclosed_child_cycle<N: Node>(
    adj: Map<N, Seq<N>>,
    start: N,
    c: ComponentsState<N>,
    given: Seq<(N, N)>,
    child: N,
)
    requires
        is_simple_undirected(adj),
        core_inv(adj, start, c, given),
        links_inv(c, given),
        c.marks.parents.dom().contains(child),
        c.marks.lowpt[child] < c.marks.discovery[c.marks.parents[child]],
        low_witness(c, given, child),
    ensures
        connected_without(adj, c.marks.parents[child], child),
{
    let m = c.marks;
    let st = m.edge_stack;
    let par = m.parents;
    let disc = m.discovery;
    let q = par[child];
    let w = choose|w: (N, N)|
        #[trigger] recorded(given, st, w) && !is_tree_edge(par, w) && is_ancestor(par, child, w.0)
            && disc[w.1] == m.lowpt[child];
    assert(pair_kind(adj, c, w));
    assert(is_link_edge(c, w));
    assert(deeper(disc, w) == w.0 && shallower(disc, w) == w.1);
    lemma_ancestor_self(par, q);
    lemma_ancestor_child(par, q, q, child);
    lemma_ancestor_trans(par, q, child, w.0);
    lemma_ancestors_comparable(par, w.1, q, w.0);
    if is_ancestor(par, q, w.1) {
        lemma_ancestor_earlier(par, disc, q, w.1);
    }
    lemma_ancestor_earlier(par, disc, child, w.0);
    assert(edge(adj, w.0, w.1));
    assert(edge(adj, w.1, w.0));
    assert(parents_rise(par, disc));
    assert(!joins((w.1, w.0), q, child));
    lemma_tree_edge_on_cycle(adj, par, disc, child, w.0, w.1);
}

/// An edge on the edge stack above the edge to the node on top of the
/// stack ends, with its later end, at a finished proper descendant of that
/// node, or leaves that node for an ancestor.
pub proof fn lemma_inner_edge<N: Node>(
    adj: Map<N, Seq<N>>,
    start: N,
    c: ComponentsState<N>,
    given: Seq<(N, N)>,
    at: int,
)
    requires
        core_inv(adj, start, c, given),
        is_chain(c.marks.parents, c.dfs.stack),
        links_inv(c, given),
        stack_inv(c),
        c.dfs.stack.len() >= 2,
        pos(
            c.marks.edge_stack,
            tree_edge_of(c.marks.parents, c.dfs.stack.last().0),
        ) < at < c.marks.edge_stack.len(),
    ensures
        ({
            let e = c.marks.edge_stack[at];
            &&& recorded(given, c.marks.edge_stack, e)
            &&& pair_kind(adj, c, e)
            &&& is_link_edge(c, e)
            &&& is_tree_edge(c.marks.parents, e) ==> e.1 != c.dfs.stack.last().0 && finished(
                c.dfs,
                e.1,
            ) && c.marks.lowpt[e.1] < c.marks.discovery[c.marks.parents[e.1]]
        }),
{
    let s = c.dfs;
    let m = c.marks;
    let st = m.edge_stack;
    let par = m.parents;
    let disc = m.discovery;
    let top = s.stack.len() - 1;
    let x = s.stack.last().0;
    assert(s.stack[top] == s.stack.last());
    lemma_frame_edge(adj, start, c, given, top);
    let k = pos(st, tree_edge_of(par, x));
    let e = st[at];
    assert(st.contains(e));
    assert(recorded(given, st, e));
    assert(pair_kind(adj, c, e));
    assert(!joins(st[at], st[k].0, st[k].1));
    if is_tree_edge(par, e) {
        let child = e.1;
        assert(is_ancestor(par, s.stack[top].0, deeper(disc, st[at])));
        assert(child != x);
        lemma_below_top_finished(adj, start, c, given, child);
        lemma_ancestor_self(par, child);
        assert(is_ancestor(par, child, deeper(disc, st[at])));
    }
}

/// A recorded edge that does not lead to a child lies on a cycle.
pub proof fn lemma_recorded_back_cycle<N: Node>(
    adj: Map<N, Seq<N>>,
    start: N,
    c: ComponentsState<N>,
    given: Seq<(N, N)>,
    e: (N, N),
)
    requires
        core_inv(adj, start, c, given),
        pair_kind(adj, c, e),
        is_link_edge(c, e),
        !is_tree_edge(c.marks.parents, e),
    ensures
        connected_without(adj, e.0, e.1),
{
    assert(parents_rise(c.marks.parents, c.marks.discovery));
    lemma_back_edge_on_cycle(adj, c.marks.parents, c.marks.discovery, e.0, e.1);
}

/// A node whose low-link value is less than the discovery time of its
/// parent has a recorded edge that shows that value.
pub proof fn lemma_witness_of<N: Node>(
    adj: Map<N, Seq<N>>,
    start: N,
    c: ComponentsState<N>,
    given: Seq<(N, N)>,
    child: N,
)
    requires
        core_inv(adj, start, c, given),
        low_inv(c, given),
        c.marks.parents.dom().contains(child),
        c.marks.lowpt[child] < c.marks.discovery[c.marks.parents[child]],
    ensures
        low_witness(c, given, child),
{
    assert(c.dfs.visited.contains(child));
    assert(c.marks.discovery[c.marks.parents[child]] < c.marks.discovery[child]);
}

/// An edge on the edge stack above the edge to the node that is about to
/// finish lies on a cycle.
pub proof fn lemma_inner_edge_on_cycle<N: Node>(
    adj: Map<N, Seq<N>>,
    start: N,
    c: ComponentsState<N>,
    given: Seq<(N, N)>,
    at: int,
)
    requires
        is_simple_undirected(adj),
        core_inv(adj, start, c, given),
        is_chain(c.marks.parents, c.dfs.stack),
        links_inv(c, given),
        low_inv(c, given),
        stack_inv(c),
        c.dfs.stack.len() >= 2,
        pos(
            c.marks.edge_stack,
            tree_edge_of(c.marks.parents, c.dfs.stack.last().0),
        ) < at < c.marks.edge_stack.len(),
    ensures
        connected_without(adj, c.marks.edge_stack[at].0, c.marks.edge_stack[at].1),
{
    let e = c.marks.edge_stack[at];
    lemma_inner_edge(adj, start, c, given, at);
    if !is_tree_edge(c.marks.parents, e) {
        lemma_recorded_back_cycle(adj, start, c, given, e);
    } else {
        lemma_witness_of(adj, start, c, given, e.1);
        lemma_unclosed_child_cycle(adj, start, c, given, e.1);
    }
}

/// In a component, an edge is a bridge exactly when it is the only edge.
pub open spec fn component_ok<N>(adj: Map<N, Seq<N>>, component: Seq<(N, N)>) -> bool {
    forall|i: int|
        0 <= i < component.len() ==> (is_bridge(
            adj,
            (#[trigger] component[i]).0,
            component[i].1,
        ) <==> component.len() == 1)
}

/// The component that an event closes is one in which an edge is a bridge
/// exactly when it is the only edge.
pub proof fn lemma_emitted_ok<N: Node>(
    adj: Map<N, Seq<N>>,
    start: N,
    c: ComponentsState<N>,
    given: Seq<(N, N)>,
)
    requires
        is_simple_undirected(adj),
        bridge_inv(adj, start, c, given),
        forall|a: N, b: N| #[trigger]
            walked(adj, c.dfs, a, b) ==> covered(given, c.marks.edge_stack, a, b),
        components_emitted(adj, c) is Some,
    ensures
        component_ok(adj, components_emitted(adj, c)->0),
{
    let s = c.dfs;
    let m = c.marks;
    let st = m.edge_stack;
    let top = s.stack.len() - 1;
    let component = components_emitted(adj, c)->0;
    let x = dfs_step(adj, s).1->0->Finish_0;
    assert(dfs_step(adj, s).1 matches Some(DfsEvent::Finish(_)));
    assert(s.stack[top] == s.stack.last());
    assert(s.stack[top].0 == x);
    if !m.parents.dom().contains(x) {
        assert(s.visited.contains(s.stack[top].0));
        assert(x == start);
        if top > 0 {
            assert(s.stack[0].0 != s.stack[top].0);
        }
        assert(st.len() == 0);
    } else {
        lemma_finish_parts(adj, start, c, given);
        let p = m.parents[x];
        let k = pos(st, (p, x));
        assert forall|i: int| 0 <= i < component.len() implies (is_bridge(
            adj,
            (#[trigger] component[i]).0,
            component[i].1,
        ) <==> component.len() == 1) by {
            let at = st.len() - 1 - i;
            assert(component[i] == st[at]);
            assert(st.contains(st[at]));
            assert(recorded(given, st, st[at]));
            assert(pair_kind(adj, c, st[at]));
            if component.len() == 1 {
                lemma_singleton_bridge(adj, start, c, given);
            } else if at == k {
                lemma_closing_edge_on_cycle(adj, start, c, given);
            } else {
                lemma_inner_edge_on_cycle(adj, start, c, given, at);
            }
        }
    }
}

/// A new extractor is in a state of which `bridge_inv` holds.
pub proof fn lemma_bridge_init<N: Node>(adj: Map<N, Seq<N>>, start: N)
    requires
        is_simple_undirected(adj),
    ensures
        bridge_inv(adj, start, components_init(start), Seq::empty()),
{
    let c = components_init(start);
    lemma_partition_init(adj, start);
    lemma_core(adj, start, c, Seq::empty());
    assert forall|e: (N, N)| !recorded(Seq::<(N, N)>::empty(), c.marks.edge_stack, e) by {}
}

/// Recording an event keeps `bridge_inv`, and the component that the event
/// closes, if any, is one in which an edge is a bridge exactly when it is
/// the only edge.
pub proof fn lemma_bridge_advance<N: Node>(
    adj: Map<N, Seq<N>>,
    start: N,
    c: ComponentsState<N>,
    given: Seq<(N, N)>,
)
    requires
        is_simple_undirected(adj),
        partition_inv(adj, start, c, given),
        bridge_inv(adj, start, c, given),
    ensures
        partition_inv(
            adj,
            start,
            components_advance(adj, c),
            with_component(given, components_emitted(adj, c)),
        ),
        bridge_inv(
            adj,
            start,
            components_advance(adj, c),
            with_component(given, components_emitted(adj, c)),
        ),
        components_emitted(adj, c) matches Some(component) ==> component_ok(adj, component),
{
    let t = components_advance(adj, c);
    let later = with_component(given, components_emitted(adj, c));
    lemma_partition_advance(adj, start, c, given);
    lemma_core(adj, start, t, later);
    lemma_advance_records(adj, start, c, given);
    lemma_advance_shape(adj, start, c, given);
    lemma_advance_links(adj, start, c, given);
    lemma_advance_low(adj, start, c, given);
    lemma_advance_stack(adj, start, c, given);
    lemma_advance_closed(adj, start, c, given);
    if components_emitted(adj, c) is Some {
        lemma_emitted_ok(adj, start, c, given);
    }
}

/// A pull keeps `partition_inv` and `bridge_inv`, and the component that
/// it gives out, if any, is one in which an edge is a bridge exactly when it
/// is the only edge.
pub proof fn lemma_bridge_next<N: Node>(
    adj: Map<N, Seq<N>>,
    start: N,
    c: ComponentsState<N>,
    given: Seq<(N, N)>,
)
    requires
        is_simple_undirected(adj),
        adj.dom().finite(),
        partition_inv(adj, start, c, given),
        bridge_inv(adj, start, c, given),
    ensures
        partition_inv(
            adj,
            start,
            components_next(adj, c).0,
            with_component(given, components_next(adj, c).1),
        ),
        bridge_inv(
            adj,
            start,
            components_next(adj, c).0,
            with_component(given, components_next(adj, c).1),
        ),
        components_next(adj, c).1 matches Some(component) ==> component_ok(adj, component),
    decreases unseen(adj, c.dfs).len(), pending_count(c.dfs), frames_total(c.dfs.stack),
{
    lemma_bridge_advance(adj, start, c, given);
    let (dfs, event) = dfs_step(adj, c.dfs);
    match event {
        None => {},
        Some(e) => {
            let (marks, out) = components_event(c.marks, e);
            if out is None {
                lemma_dfs_step_measure(adj, c.dfs);
                lemma_bridge_next(adj, start, ComponentsState { dfs, marks }, given);
            }
        },
    }
}

/// Every state that a new extractor reaches over a simple undirected
/// graph meets `partition_inv` and `bridge_inv`, and each component given
/// out up to it is one in which an edge is a bridge exactly when it is the
/// only edge.
pub proof fn lemma_bridge_run<N: Node>(adj: Map<N, Seq<N>>, start: N, pulls: nat)
    requires
        is_simple_undirected(adj),
        adj.dom().finite(),
    ensures
        partition_inv(
            adj,
            start,
            components_run(adj, components_init(start), pulls).0,
            flat(components_run(adj, components_init(start), pulls).1),
        ),
        bridge_inv(
            adj,
            start,
            components_run(adj, components_init(start), pulls).0,
            flat(components_run(adj, components_init(start), pulls).1),
        ),
        forall|k: int|
            0 <= k < components_run(adj, components_init(start), pulls).1.len() ==> component_ok(
                adj,
                #[trigger] components_run(adj, components_init(start), pulls).1[k],
            ),
    decreases pulls,
{
    if pulls == 0 {
        lemma_partition_init(adj, start);
        lemma_bridge_init(adj, start);
    } else {
        lemma_bridge_run(adj, start, (pulls - 1) as nat);
        let (before, components) = components_run(adj, components_init(start), (pulls - 1) as nat);
        lemma_bridge_next(adj, start, before, flat(components));
        let component = components_next(adj, before).1;
        let later = with_new_component(components, component);
        if component is Some {
            assert(components.push(component->0).drop_last() =~= components);
        }
        assert forall|k: int| 0 <= k < later.len() implies component_ok(adj, #[trigger] later[k]) by {
            if k < components.len() {
                assert(later[k] == components[k]);
            }
        }
    }
}

/// A bridge is a component of its own: in each component that an extractor
/// gives out over a simple undirected graph, an edge is a bridge exactly
/// when it is the only edge of the component.
pub proof fn law_bridges_are_single_edges<N: Node>(
    adj: Map<N, Seq<N>>,
    start: N,
    pulls: nat,
    k: int,
    i: int,
)
    requires
        is_simple_undirected(adj),
        adj.dom().finite(),
        0 <= k < components_run(adj, components_init(start), pulls).1.len(),
        0 <= i < components_run(adj, components_init(start), pulls).1[k].len(),
    ensures
        ({
            let component = components_run(adj, components_init(start), pulls).1[k];
            is_bridge(adj, component[i].0, component[i].1) <==> component.len() == 1
        }),
{
    lemma_bridge_run(adj, start, pulls);
    let component = components_run(adj, components_init(start), pulls).1[k];
    assert(component_ok(adj, component));
}

} // verus!
