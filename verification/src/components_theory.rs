use crate::dfs_theory::{
    dfs_ended, dfs_reach_inv, finished, lemma_reach_inv_ended, lemma_reach_inv_init,
    lemma_reach_inv_step, lemma_step_stack, looked_at,
};
use crate::graph::{edge, neighbor_seq, Node};
use crate::reach::{reachable, reachable_from, reaches};
use crate::traversal::{
    components_advance, components_event, components_init, components_inv, components_next, dfs_inv,
    dfs_step, frames_total, is_suffix, joins, lemma_components_advance_inv, lemma_dfs_step_inv,
    lemma_dfs_step_measure, on_stack, pending_count, split_component, unseen, ComponentsState,
    DfsEvent, DfsState,
};
use vstd::prelude::*;

verus! {

/// The graph is undirected and simple: with each edge it has the edge back,
/// no edge leads from a node to itself, and no node has a neighbour twice.
pub open spec fn is_simple_undirected<N>(adj: Map<N, Seq<N>>) -> bool {
    &&& forall|u: N, v: N| #[trigger] edge(adj, u, v) ==> edge(adj, v, u) && u != v
    &&& forall|u: N| #[trigger] neighbor_seq(adj, u).no_duplicates()
}

/// The walk has looked at the edge from `a` to `b`: `a` is finished, or a
/// frame of `a` has looked at `b`.
pub open spec fn walked<N>(adj: Map<N, Seq<N>>, s: DfsState<N>, a: N, b: N) -> bool {
    &&& edge(adj, a, b)
    &&& s.visited.contains(a)
    &&& finished(s, a) || exists|i: int|
        0 <= i < s.stack.len() && (#[trigger] s.stack[i]).0 == a && looked_at(adj, s.stack[i], b)
}

/// An edge that the walk has looked at stays so.
pub proof fn lemma_walked_stays<N: Node>(adj: Map<N, Seq<N>>, s: DfsState<N>, a: N, b: N)
    requires
        dfs_inv(adj, s),
        walked(adj, s, a, b),
    ensures
        walked(adj, dfs_step(adj, s).0, a, b),
{
    let (t, event) = dfs_step(adj, s);
    lemma_dfs_step_inv(adj, s);
    lemma_step_stack(adj, s);
    let top = s.stack.len() - 1;
    if !finished(s, a) {
        let i = choose|i: int|
            0 <= i < s.stack.len() && (#[trigger] s.stack[i]).0 == a && looked_at(
                adj,
                s.stack[i],
                b,
            );
        let all = neighbor_seq(adj, a);
        let j = choose|j: int|
            0 <= j < all.len() - s.stack[i].1.len() && #[trigger] neighbor_seq(adj, s.stack[i].0)[j]
                == b;
        match event {
            None => {
                assert(t.stack[i] == s.stack[i]);
            },
            Some(DfsEvent::Discover(x, None)) => {
                assert(t.stack[i] == s.stack[i]);
            },
            Some(DfsEvent::Discover(x, Some(from))) => {
                if i < top {
                    assert(t.stack[i] == s.stack[i]);
                } else {
                    assert(t.stack[i].0 == a);
                    assert(neighbor_seq(adj, t.stack[i].0)[j] == b);
                    assert(looked_at(adj, t.stack[i], b));
                }
            },
            Some(DfsEvent::Finish(x)) => {
                if i < top {
                    assert(t.stack[i] == s.stack[i]);
                } else {
                    assert(x == a);
                    assert(on_stack(s.stack, a));
                    assert(!on_stack(t.stack, a));
                }
            },
            Some(DfsEvent::NonTreeEdge(x, y)) => {
                if i < top {
                    assert(t.stack[i] == s.stack[i]);
                } else {
                    assert(t.stack[i].0 == a);
                    assert(neighbor_seq(adj, t.stack[i].0)[j] == b);
                    assert(looked_at(adj, t.stack[i], b));
                }
            },
        }
    } else {
        match event {
            Some(DfsEvent::Discover(x, _)) => {
                assert(x != a);
            },
            _ => {},
        }
    }
}

/// The edge that the top frame looks at next has been looked at after the
/// pull, and had not been looked at before it where no node has a
/// neighbour twice.
pub proof fn lemma_next_edge_walked<N: Node>(adj: Map<N, Seq<N>>, s: DfsState<N>)
    requires
        dfs_inv(adj, s),
        dfs_step(adj, s).1 matches Some(e) && (e matches DfsEvent::Discover(_, Some(_)) || e is NonTreeEdge),
    ensures
        ({
            let (u, w) = next_edge(s);
            &&& s.stack.len() > 0
            &&& s.stack.last().0 == u
            &&& s.visited.contains(u)
            &&& !finished(s, u)
            &&& edge(adj, u, w)
            &&& walked(adj, dfs_step(adj, s).0, u, w)
            &&& neighbor_seq(adj, u).no_duplicates() ==> !walked(adj, s, u, w)
        }),
{
    let (t, event) = dfs_step(adj, s);
    lemma_dfs_step_inv(adj, s);
    lemma_step_stack(adj, s);
    let top = s.stack.len() - 1;
    let (u, rest) = s.stack.last();
    assert(s.stack[top] == s.stack.last());
    let w = rest[0];
    let all = neighbor_seq(adj, u);
    assert(is_suffix(rest, all));
    let at = all.len() - rest.len();
    assert(all[at] == w);
    assert(on_stack(s.stack, u));
    assert(t.stack[top].0 == u);
    assert(t.stack[top].1 == rest.skip(1));
    assert(neighbor_seq(adj, t.stack[top].0)[at] == w);
    assert(looked_at(adj, t.stack[top], w));
    assert(on_stack(t.stack, u));
    if all.no_duplicates() && walked(adj, s, u, w) {
        let i = choose|i: int|
            0 <= i < s.stack.len() && (#[trigger] s.stack[i]).0 == u && looked_at(
                adj,
                s.stack[i],
                w,
            );
        if i < top {
            assert(s.stack[i].0 != s.stack[top].0);
        }
        let j = choose|j: int|
            0 <= j < all.len() - s.stack[i].1.len() && #[trigger] neighbor_seq(adj, s.stack[i].0)[j]
                == w;
        assert(all[j] == all[at]);
    }
}

/// The edge that the top frame looks at next: from its node to the first of
/// the neighbours that it still holds.
pub open spec fn next_edge<N>(s: DfsState<N>) -> (N, N) {
    (s.stack.last().0, s.stack.last().1[0])
}

/// The edge `e` has been given out in a component or is on the edge stack.
pub open spec fn recorded<N>(given: Seq<(N, N)>, stack: Seq<(N, N)>, e: (N, N)) -> bool {
    given.contains(e) || stack.contains(e)
}

/// The edge between `a` and `b` is recorded, in one direction or the other.
pub open spec fn covered<N>(given: Seq<(N, N)>, stack: Seq<(N, N)>, a: N, b: N) -> bool {
    recorded(given, stack, (a, b)) || recorded(given, stack, (b, a))
}

/// No two places of the sequence hold the same edge, in either direction.
pub open spec fn distinct_pairs<N>(s: Seq<(N, N)>) -> bool {
    forall|i: int, j: int|
        0 <= i < s.len() && 0 <= j < s.len() && i != j ==> !joins(
            #[trigger] s[i],
            (#[trigger] s[j]).0,
            s[j].1,
        )
}

/// No edge of the one sequence is an edge of the other, in either direction.
pub open spec fn apart<N>(a: Seq<(N, N)>, b: Seq<(N, N)>) -> bool {
    forall|i: int, j: int|
        0 <= i < a.len() && 0 <= j < b.len() ==> !joins(#[trigger] a[i], (#[trigger] b[j]).0, b[j].1)
}

/// What the edge stack is split into when a component is taken from it:
/// what stays is its beginning, and what is taken is its end, last first.
pub proof fn lemma_split_parts<N>(stack: Seq<(N, N)>, u: N, v: N)
    ensures
        ({
            let (rest, taken) = split_component(stack, u, v);
            &&& rest.len() + taken.len() == stack.len()
            &&& forall|i: int| 0 <= i < rest.len() ==> #[trigger] rest[i] == stack[i]
            &&& forall|k: int|
                0 <= k < taken.len() ==> #[trigger] taken[k] == stack[stack.len() - 1 - k]
            &&& stack.len() > 0 ==> taken.len() > 0
        }),
    decreases stack.len(),
{
    if stack.len() == 0 {
    } else if joins(stack.last(), u, v) {
    } else {
        lemma_split_parts(stack.drop_last(), u, v);
        let (rest, inner) = split_component(stack.drop_last(), u, v);
        let taken = seq![stack.last()] + inner;
        assert forall|k: int| 0 <= k < taken.len() implies #[trigger] taken[k] == stack[stack.len()
            - 1 - k] by {
            if k > 0 {
                assert(taken[k] == inner[k - 1]);
                assert(inner[k - 1] == stack.drop_last()[stack.drop_last().len() - 1 - (k - 1)]);
            }
        }
    }
}

/// Moving the end of the edge stack to the edges given out keeps the edges
/// apart from each other, and keeps what is recorded.
pub proof fn lemma_move<N>(
    given: Seq<(N, N)>,
    stack: Seq<(N, N)>,
    rest: Seq<(N, N)>,
    taken: Seq<(N, N)>,
)
    requires
        distinct_pairs(given),
        distinct_pairs(stack),
        apart(given, stack),
        rest.len() + taken.len() == stack.len(),
        forall|i: int| 0 <= i < rest.len() ==> #[trigger] rest[i] == stack[i],
        forall|k: int| 0 <= k < taken.len() ==> #[trigger] taken[k] == stack[stack.len() - 1 - k],
    ensures
        distinct_pairs(given + taken),
        distinct_pairs(rest),
        apart(given + taken, rest),
        forall|e: (N, N)| recorded(given + taken, rest, e) <==> recorded(given, stack, e),
{
    let more = given + taken;
    assert forall|i: int, j: int| 0 <= i < more.len() && 0 <= j < more.len() && i != j implies !joins(
        #[trigger] more[i],
        (#[trigger] more[j]).0,
        more[j].1,
    ) by {
        let gi = i - given.len();
        let gj = j - given.len();
        if i < given.len() && j < given.len() {
            assert(more[i] == given[i] && more[j] == given[j]);
        } else if i < given.len() {
            assert(more[i] == given[i]);
            assert(more[j] == taken[gj]);
            assert(taken[gj] == stack[stack.len() - 1 - gj]);
        } else if j < given.len() {
            assert(more[j] == given[j]);
            assert(more[i] == taken[gi]);
            assert(taken[gi] == stack[stack.len() - 1 - gi]);
        } else {
            assert(more[i] == taken[gi]);
            assert(more[j] == taken[gj]);
            assert(taken[gi] == stack[stack.len() - 1 - gi]);
            assert(taken[gj] == stack[stack.len() - 1 - gj]);
        }
    }
    assert forall|i: int, j: int| 0 <= i < rest.len() && 0 <= j < rest.len() && i != j implies !joins(
        #[trigger] rest[i],
        (#[trigger] rest[j]).0,
        rest[j].1,
    ) by {
        assert(rest[i] == stack[i] && rest[j] == stack[j]);
    }
    assert forall|i: int, j: int| 0 <= i < more.len() && 0 <= j < rest.len() implies !joins(
        #[trigger] more[i],
        (#[trigger] rest[j]).0,
        rest[j].1,
    ) by {
        assert(rest[j] == stack[j]);
        if i < given.len() {
            assert(more[i] == given[i]);
        } else {
            let gi = i - given.len();
            assert(more[i] == taken[gi]);
            assert(taken[gi] == stack[stack.len() - 1 - gi]);
        }
    }
    assert forall|e: (N, N)| recorded(more, rest, e) <==> recorded(given, stack, e) by {
        if more.contains(e) {
            let i = choose|i: int| 0 <= i < more.len() && more[i] == e;
            if i < given.len() {
                assert(given[i] == e);
            } else {
                let gi = i - given.len();
                assert(taken[gi] == e);
                assert(stack[stack.len() - 1 - gi] == e);
            }
        }
        if rest.contains(e) {
            let i = choose|i: int| 0 <= i < rest.len() && rest[i] == e;
            assert(stack[i] == e);
        }
        if given.contains(e) {
            let i = choose|i: int| 0 <= i < given.len() && given[i] == e;
            assert(more[i] == e);
        }
        if stack.contains(e) {
            let i = choose|i: int| 0 <= i < stack.len() && stack[i] == e;
            if i < rest.len() {
                assert(rest[i] == e);
            } else {
                let k = stack.len() - 1 - i;
                assert(taken[k] == e);
                assert(more[given.len() + k] == e);
            }
        }
    }
}

/// Putting an edge that is not recorded on the edge stack keeps the edges
/// apart from each other, and records that edge and no other.
pub proof fn lemma_push_edge<N>(given: Seq<(N, N)>, stack: Seq<(N, N)>, e: (N, N))
    requires
        distinct_pairs(given),
        distinct_pairs(stack),
        apart(given, stack),
        !covered(given, stack, e.0, e.1),
    ensures
        distinct_pairs(stack.push(e)),
        apart(given, stack.push(e)),
        forall|f: (N, N)| recorded(given, stack.push(e), f) <==> recorded(given, stack, f) || f == e,
{
    let more = stack.push(e);
    assert forall|i: int, j: int| 0 <= i < more.len() && 0 <= j < more.len() && i != j implies !joins(
        #[trigger] more[i],
        (#[trigger] more[j]).0,
        more[j].1,
    ) by {
        if i < stack.len() && j < stack.len() {
            assert(more[i] == stack[i] && more[j] == stack[j]);
        } else if i < stack.len() {
            assert(more[i] == stack[i]);
            assert(stack.contains(stack[i]));
        } else {
            assert(more[j] == stack[j]);
            assert(stack.contains(stack[j]));
        }
    }
    assert forall|i: int, j: int| 0 <= i < given.len() && 0 <= j < more.len() implies !joins(
        #[trigger] given[i],
        (#[trigger] more[j]).0,
        more[j].1,
    ) by {
        if j < stack.len() {
            assert(more[j] == stack[j]);
        } else {
            assert(given.contains(given[i]));
        }
    }
    assert forall|f: (N, N)| recorded(given, more, f) <==> recorded(given, stack, f) || f == e by {
        if more.contains(f) {
            let i = choose|i: int| 0 <= i < more.len() && more[i] == f;
            if i < stack.len() {
                assert(stack[i] == f);
            }
        }
        if stack.contains(f) {
            let i = choose|i: int| 0 <= i < stack.len() && stack[i] == f;
            assert(more[i] == f);
        }
        if f == e {
            assert(more[stack.len() as int] == f);
        }
    }
}

/// What holds of an edge that is recorded: it is an edge between visited
/// nodes, and it is the edge from a parent to its child, or an edge that the
/// walk has looked at and that leads to a node discovered earlier.
pub open spec fn pair_ok<N: Node>(adj: Map<N, Seq<N>>, c: ComponentsState<N>, e: (N, N)) -> bool {
    &&& c.dfs.visited.contains(e.0)
    &&& c.dfs.visited.contains(e.1)
    &&& edge(adj, e.0, e.1)
    &&& (c.marks.parents.dom().contains(e.1) && c.marks.parents[e.1] == e.0) || (
    c.marks.discovery[e.1] < c.marks.discovery[e.0] && walked(adj, c.dfs, e.0, e.1))
}

/// Every discovery lies before the present time, the nodes on the stack are
/// in the order of their discovery, and a parent is discovered before its
/// child.
pub open spec fn times_inv<N: Node>(c: ComponentsState<N>) -> bool {
    &&& forall|n: N| #[trigger] c.dfs.visited.contains(n) ==> c.marks.discovery[n] < c.marks.time
    &&& forall|i: int, j: int|
        0 <= i < j < c.dfs.stack.len() ==> c.marks.discovery[(#[trigger] c.dfs.stack[i]).0]
            < c.marks.discovery[(#[trigger] c.dfs.stack[j]).0]
    &&& forall|n: N| #[trigger]
        c.marks.parents.dom().contains(n) ==> c.marks.discovery[c.marks.parents[n]]
            < c.marks.discovery[n]
}

/// The nodes with a parent are the visited ones but `start`, the walk has
/// looked at the edge from each parent to its child, and `start` is at the
/// bottom of the stack; a start node is pending only before the first pull.
pub open spec fn parents_inv<N: Node>(
    adj: Map<N, Seq<N>>,
    start: N,
    c: ComponentsState<N>,
) -> bool {
    &&& forall|n: N|
        #![trigger c.marks.parents.dom().contains(n)]
        c.marks.parents.dom().contains(n) <==> c.dfs.visited.contains(n) && n != start
    &&& forall|n: N| #[trigger]
        c.marks.parents.dom().contains(n) ==> walked(adj, c.dfs, c.marks.parents[n], n)
    &&& c.dfs.stack.len() > 0 ==> c.dfs.stack[0].0 == start
    &&& c.dfs.pending is Some ==> c.dfs.stack.len() == 0 && c.dfs.visited == Set::<N>::empty()
        && c.dfs.pending == Some(start)
    &&& c.dfs.pending is None ==> c.dfs.visited.contains(start)
}

/// The edges recorded are apart from each other and are what `pair_ok`
/// says; every edge that the walk has looked at is recorded, in one
/// direction or the other; and when the stack of the walk is empty, so is
/// the edge stack.
pub open spec fn ledger_inv<N: Node>(
    adj: Map<N, Seq<N>>,
    c: ComponentsState<N>,
    given: Seq<(N, N)>,
) -> bool {
    &&& distinct_pairs(given)
    &&& distinct_pairs(c.marks.edge_stack)
    &&& apart(given, c.marks.edge_stack)
    &&& forall|e: (N, N)| #[trigger] recorded(given, c.marks.edge_stack, e) ==> pair_ok(adj, c, e)
    &&& forall|a: N, b: N| #[trigger]
        walked(adj, c.dfs, a, b) ==> covered(given, c.marks.edge_stack, a, b)
    &&& c.dfs.stack.len() == 0 ==> c.marks.edge_stack.len() == 0
}

/// What holds of every state that an extractor reaches by pulls from a new
/// one over a simple undirected graph, with the edges it has given out.
pub open spec fn partition_inv<N: Node>(
    adj: Map<N, Seq<N>>,
    start: N,
    c: ComponentsState<N>,
    given: Seq<(N, N)>,
) -> bool {
    &&& components_inv(adj, c)
    &&& dfs_reach_inv(adj, set![start], c.dfs)
    &&& times_inv(c)
    &&& parents_inv(adj, start, c)
    &&& ledger_inv(adj, c, given)
}

/// The component that the next event of the walk closes, if it closes one.
pub open spec fn components_emitted<N: Node>(adj: Map<N, Seq<N>>, c: ComponentsState<N>) -> Option<
    Seq<(N, N)>,
> {
    match dfs_step(adj, c.dfs).1 {
        None => None,
        Some(e) => components_event(c.marks, e).1,
    }
}

/// The edges given out, with those of one more component, if there is one.
pub open spec fn with_component<N>(given: Seq<(N, N)>, component: Option<Seq<(N, N)>>) -> Seq<
    (N, N),
> {
    match component {
        Some(edges) => given + edges,
        None => given,
    }
}

/// Recording an event keeps `times_inv`.
pub proof fn lemma_advance_times<N: Node>(adj: Map<N, Seq<N>>, c: ComponentsState<N>)
    requires
        components_inv(adj, c),
        times_inv(c),
    ensures
        times_inv(components_advance(adj, c)),
{
    let s = c.dfs;
    let m = c.marks;
    let t = components_advance(adj, c);
    let (dfs, event) = dfs_step(adj, s);
    let top = s.stack.len() - 1;
    match event {
        None => {},
        Some(DfsEvent::Discover(x, from)) => {
            assert(!s.visited.contains(x));
            assert forall|n: N| #[trigger] dfs.visited.contains(n) implies t.marks.discovery[n]
                < t.marks.time by {
                if n != x {
                    assert(s.visited.contains(n));
                }
            }
            assert forall|i: int, j: int| 0 <= i < j < dfs.stack.len() implies t.marks.discovery[(
            #[trigger] dfs.stack[i]).0] < t.marks.discovery[(#[trigger] dfs.stack[j]).0] by {
                assert(dfs.stack[i].0 == s.stack[i].0);
                assert(s.visited.contains(s.stack[i].0));
                if j < s.stack.len() {
                    assert(dfs.stack[j].0 == s.stack[j].0);
                    assert(s.visited.contains(s.stack[j].0));
                }
            }
            assert forall|n: N| #[trigger] t.marks.parents.dom().contains(n) implies t.marks.discovery[t.marks.parents[n]]
                < t.marks.discovery[n] by {
                if n != x {
                    assert(m.parents.dom().contains(n));
                } else {
                    assert(s.stack[top].0 == from->0);
                    assert(s.visited.contains(s.stack[top].0));
                }
            }
        },
        Some(DfsEvent::Finish(x)) => {
            assert forall|i: int, j: int| 0 <= i < j < dfs.stack.len() implies t.marks.discovery[(
            #[trigger] dfs.stack[i]).0] < t.marks.discovery[(#[trigger] dfs.stack[j]).0] by {
                assert(dfs.stack[i] == s.stack[i]);
                assert(dfs.stack[j] == s.stack[j]);
            }
        },
        Some(DfsEvent::NonTreeEdge(u, w)) => {
            assert forall|i: int, j: int| 0 <= i < j < dfs.stack.len() implies t.marks.discovery[(
            #[trigger] dfs.stack[i]).0] < t.marks.discovery[(#[trigger] dfs.stack[j]).0] by {
                assert(dfs.stack[i].0 == s.stack[i].0);
                assert(dfs.stack[j].0 == s.stack[j].0);
            }
        },
    }
}

/// Recording an event keeps `parents_inv`.
pub proof fn lemma_advance_parents<N: Node>(adj: Map<N, Seq<N>>, start: N, c: ComponentsState<N>)
    requires
        components_inv(adj, c),
        parents_inv(adj, start, c),
    ensures
        parents_inv(adj, start, components_advance(adj, c)),
{
    let s = c.dfs;
    let m = c.marks;
    let t = components_advance(adj, c);
    let (dfs, event) = dfs_step(adj, s);
    let top = s.stack.len() - 1;
    assert forall|n: N| #[trigger] m.parents.dom().contains(n) implies walked(
        adj,
        dfs,
        m.parents[n],
        n,
    ) by {
        lemma_walked_stays(adj, s, m.parents[n], n);
    }
    match event {
        None => {},
        Some(DfsEvent::Discover(x, None)) => {
            assert(dfs.visited =~= set![x]);
            assert(dfs.stack[0].0 == x);
        },
        Some(DfsEvent::Discover(x, Some(from))) => {
            lemma_next_edge_walked(adj, s);
            assert(dfs.stack[0].0 == s.stack[0].0);
        },
        Some(DfsEvent::Finish(x)) => {
            if dfs.stack.len() > 0 {
                assert(dfs.stack[0] == s.stack[0]);
            }
        },
        Some(DfsEvent::NonTreeEdge(u, w)) => {
            assert(dfs.stack[0].0 == s.stack[0].0);
        },
    }
}

/// What holds of a recorded edge stays so when an event is recorded.
pub proof fn lemma_pair_ok_stays<N: Node>(adj: Map<N, Seq<N>>, c: ComponentsState<N>, e: (N, N))
    requires
        components_inv(adj, c),
        pair_ok(adj, c, e),
    ensures
        pair_ok(adj, components_advance(adj, c), e),
{
    let s = c.dfs;
    let (dfs, event) = dfs_step(adj, s);
    if walked(adj, s, e.0, e.1) {
        lemma_walked_stays(adj, s, e.0, e.1);
    }
    match event {
        Some(DfsEvent::Discover(x, _)) => {
            assert(!s.visited.contains(x));
        },
        _ => {},
    }
}

/// An edge that the walk has looked at after a pull had been looked at
/// before it, or is the edge that the top frame looked at in the pull.
pub proof fn lemma_walked_source<N: Node>(adj: Map<N, Seq<N>>, s: DfsState<N>, a: N, b: N)
    requires
        dfs_inv(adj, s),
        walked(adj, dfs_step(adj, s).0, a, b),
    ensures
        walked(adj, s, a, b) || (dfs_step(adj, s).1 matches Some(e) && (e matches DfsEvent::Discover(
            _,
            Some(_),
        ) || e is NonTreeEdge) && (a, b) == next_edge(s)),
{
    let (t, event) = dfs_step(adj, s);
    lemma_dfs_step_inv(adj, s);
    lemma_step_stack(adj, s);
    let top = s.stack.len() - 1;
    if finished(t, a) {
        match event {
            Some(DfsEvent::Finish(x)) => {
                if a == x {
                    assert(s.stack[top].0 == x);
                    assert(s.stack[top].1.len() == 0);
                    let all = neighbor_seq(adj, x);
                    let j = choose|j: int| 0 <= j < all.len() && all[j] == b;
                    assert(neighbor_seq(adj, s.stack[top].0)[j] == b);
                    assert(looked_at(adj, s.stack[top], b));
                    assert(s.visited.contains(s.stack[top].0));
                    assert(walked(adj, s, a, b));
                } else {
                    assert(finished(s, a));
                }
            },
            Some(DfsEvent::Discover(x, _)) => {
                assert(on_stack(t.stack, x));
                assert(a != x);
                assert(finished(s, a));
            },
            Some(DfsEvent::NonTreeEdge(_, _)) => {
                assert(finished(s, a));
            },
            None => {
                assert(finished(s, a));
            },
        }
    } else {
        let i = choose|i: int|
            0 <= i < t.stack.len() && (#[trigger] t.stack[i]).0 == a && looked_at(
                adj,
                t.stack[i],
                b,
            );
        let all = neighbor_seq(adj, a);
        let j = choose|j: int|
            0 <= j < all.len() - t.stack[i].1.len() && #[trigger] neighbor_seq(adj, t.stack[i].0)[j]
                == b;
        match event {
            None => {
                assert(t.stack[i] == s.stack[i]);
                assert(walked(adj, s, a, b));
            },
            Some(DfsEvent::Discover(x, None)) => {
                if i < s.stack.len() {
                    assert(t.stack[i] == s.stack[i]);
                    assert(walked(adj, s, a, b));
                } else {
                    assert(t.stack[i].1 == neighbor_seq(adj, x));
                }
            },
            Some(DfsEvent::Discover(x, Some(from))) => {
                let rest = s.stack[top].1;
                assert(is_suffix(rest, neighbor_seq(adj, s.stack[top].0)));
                if i < top {
                    assert(t.stack[i] == s.stack[i]);
                    assert(walked(adj, s, a, b));
                } else if i == top {
                    assert(t.stack[i].0 == s.stack[top].0);
                    assert(t.stack[i].1 == rest.skip(1));
                    if j < all.len() - rest.len() {
                        assert(neighbor_seq(adj, s.stack[top].0)[j] == b);
                        assert(looked_at(adj, s.stack[top], b));
                        assert(walked(adj, s, a, b));
                    } else {
                        assert(all[all.len() - rest.len()] == rest[0]);
                        assert(s.stack[top] == s.stack.last());
                        assert((a, b) == next_edge(s));
                    }
                } else {
                    assert(t.stack[i].1 == neighbor_seq(adj, x));
                }
            },
            Some(DfsEvent::Finish(x)) => {
                assert(t.stack[i] == s.stack[i]);
                assert(walked(adj, s, a, b));
            },
            Some(DfsEvent::NonTreeEdge(x, y)) => {
                let rest = s.stack[top].1;
                assert(is_suffix(rest, neighbor_seq(adj, s.stack[top].0)));
                if i < top {
                    assert(t.stack[i] == s.stack[i]);
                    assert(walked(adj, s, a, b));
                } else {
                    assert(t.stack[i].0 == s.stack[top].0);
                    assert(t.stack[i].1 == rest.skip(1));
                    if j < all.len() - rest.len() {
                        assert(neighbor_seq(adj, s.stack[top].0)[j] == b);
                        assert(looked_at(adj, s.stack[top], b));
                        assert(walked(adj, s, a, b));
                    } else {
                        assert(all[all.len() - rest.len()] == rest[0]);
                        assert(s.stack[top] == s.stack.last());
                        assert((a, b) == next_edge(s));
                    }
                }
            },
        }
    }
}

/// The edge by which a node is discovered is not recorded before.
pub proof fn lemma_tree_edge_new<N: Node>(
    adj: Map<N, Seq<N>>,
    c: ComponentsState<N>,
    given: Seq<(N, N)>,
    from: N,
    x: N,
)
    requires
        forall|e: (N, N)| #[trigger] recorded(given, c.marks.edge_stack, e) ==> pair_ok(adj, c, e),
        !c.dfs.visited.contains(x),
    ensures
        !covered(given, c.marks.edge_stack, from, x),
{
    if recorded(given, c.marks.edge_stack, (from, x)) {
        assert(pair_ok(adj, c, (from, x)));
    }
    if recorded(given, c.marks.edge_stack, (x, from)) {
        assert(pair_ok(adj, c, (x, from)));
    }
}

/// An edge to a node discovered earlier that is not the parent, met for the
/// first time, is not recorded before.
pub proof fn lemma_back_edge_new<N: Node>(
    adj: Map<N, Seq<N>>,
    c: ComponentsState<N>,
    given: Seq<(N, N)>,
    u: N,
    w: N,
)
    requires
        times_inv(c),
        forall|e: (N, N)| #[trigger] recorded(given, c.marks.edge_stack, e) ==> pair_ok(adj, c, e),
        !walked(adj, c.dfs, u, w),
        !(c.marks.parents.dom().contains(u) && c.marks.parents[u] == w),
        c.marks.discovery[w] < c.marks.discovery[u],
    ensures
        !covered(given, c.marks.edge_stack, u, w),
{
    if recorded(given, c.marks.edge_stack, (u, w)) {
        assert(pair_ok(adj, c, (u, w)));
    }
    if recorded(given, c.marks.edge_stack, (w, u)) {
        assert(pair_ok(adj, c, (w, u)));
    }
}

/// An edge to a visited node that is not put on the edge stack is recorded
/// already: it leads to the parent, or back from a finished node.
pub proof fn lemma_skipped_edge_covered<N: Node>(
    adj: Map<N, Seq<N>>,
    start: N,
    c: ComponentsState<N>,
    given: Seq<(N, N)>,
    u: N,
    w: N,
)
    requires
        is_simple_undirected(adj),
        dfs_inv(adj, c.dfs),
        times_inv(c),
        parents_inv(adj, start, c),
        forall|a: N, b: N| #[trigger]
            walked(adj, c.dfs, a, b) ==> covered(given, c.marks.edge_stack, a, b),
        c.dfs.stack.len() > 0,
        c.dfs.stack.last().0 == u,
        c.dfs.visited.contains(w),
        edge(adj, u, w),
        (c.marks.parents.dom().contains(u) && c.marks.parents[u] == w) || !(c.marks.discovery[w]
            < c.marks.discovery[u]),
    ensures
        covered(given, c.marks.edge_stack, u, w),
{
    let s = c.dfs;
    let top = s.stack.len() - 1;
    if c.marks.parents.dom().contains(u) && c.marks.parents[u] == w {
        assert(walked(adj, s, w, u));
    } else {
        assert(edge(adj, w, u) && u != w);
        if on_stack(s.stack, w) {
            let i = choose|i: int| 0 <= i < s.stack.len() && (#[trigger] s.stack[i]).0 == w;
            assert(s.stack[top].0 == u);
            if i < top {
                assert(c.marks.discovery[s.stack[i].0] < c.marks.discovery[s.stack[top].0]);
            }
        }
        assert(finished(s, w));
        assert(walked(adj, s, w, u));
    }
    assert(covered(given, c.marks.edge_stack, w, u));
}

/// Giving out the whole edge stack keeps the edges apart from each other,
/// and keeps what is recorded.
pub proof fn lemma_move_all<N>(given: Seq<(N, N)>, stack: Seq<(N, N)>)
    requires
        distinct_pairs(given),
        distinct_pairs(stack),
        apart(given, stack),
    ensures
        distinct_pairs(given + stack),
        forall|e: (N, N)| recorded(given + stack, Seq::empty(), e) <==> recorded(given, stack, e),
{
    let more = given + stack;
    assert forall|i: int, j: int| 0 <= i < more.len() && 0 <= j < more.len() && i != j implies !joins(
        #[trigger] more[i],
        (#[trigger] more[j]).0,
        more[j].1,
    ) by {
        let gi = i - given.len();
        let gj = j - given.len();
        if i < given.len() && j < given.len() {
            assert(more[i] == given[i] && more[j] == given[j]);
        } else if i < given.len() {
            assert(more[i] == given[i]);
            assert(more[j] == stack[gj]);
        } else if j < given.len() {
            assert(more[j] == given[j]);
            assert(more[i] == stack[gi]);
        } else {
            assert(more[i] == stack[gi]);
            assert(more[j] == stack[gj]);
        }
    }
    assert forall|e: (N, N)| recorded(more, Seq::empty(), e) <==> recorded(given, stack, e) by {
        if more.contains(e) {
            let i = choose|i: int| 0 <= i < more.len() && more[i] == e;
            if i < given.len() {
                assert(given[i] == e);
            } else {
                assert(stack[i - given.len()] == e);
            }
        }
        if given.contains(e) {
            let i = choose|i: int| 0 <= i < given.len() && given[i] == e;
            assert(more[i] == e);
        }
        if stack.contains(e) {
            let i = choose|i: int| 0 <= i < stack.len() && stack[i] == e;
            assert(more[given.len() + i] == e);
        }
    }
}

/// The edge that the next event puts on the edge stack, if it puts one: the
/// edge by which a node is discovered, or an edge to a node discovered
/// earlier that is not the parent.
pub open spec fn pushed_edge<N: Node>(
    adj: Map<N, Seq<N>>,
    c: ComponentsState<N>,
) -> Option<(N, N)> {
    match dfs_step(adj, c.dfs).1 {
        Some(DfsEvent::Discover(x, Some(from))) => Some((from, x)),
        Some(DfsEvent::NonTreeEdge(u, w)) => if !(c.marks.parents.dom().contains(u)
            && c.marks.parents[u] == w) && c.marks.discovery[w] < c.marks.discovery[u] {
            Some((u, w))
        } else {
            None
        },
        _ => None,
    }
}

/// The edge that the next event puts on the edge stack is not recorded.
pub proof fn lemma_pushed_edge_new<N: Node>(
    adj: Map<N, Seq<N>>,
    start: N,
    c: ComponentsState<N>,
    given: Seq<(N, N)>,
)
    requires
        is_simple_undirected(adj),
        partition_inv(adj, start, c, given),
        pushed_edge(adj, c) is Some,
    ensures
        ({
            let e = pushed_edge(adj, c)->0;
            &&& !covered(given, c.marks.edge_stack, e.0, e.1)
            &&& pair_ok(adj, components_advance(adj, c), e)
            &&& e == next_edge(c.dfs)
        }),
{
    let s = c.dfs;
    lemma_next_edge_walked(adj, s);
    match dfs_step(adj, s).1 {
        Some(DfsEvent::Discover(x, Some(from))) => {
            lemma_tree_edge_new(adj, c, given, from, x);
        },
        Some(DfsEvent::NonTreeEdge(u, w)) => {
            lemma_back_edge_new(adj, c, given, u, w);
        },
        _ => {},
    }
}

/// What recording an event does to the edges recorded.
pub open spec fn records_advance<N: Node>(
    adj: Map<N, Seq<N>>,
    c: ComponentsState<N>,
    given: Seq<(N, N)>,
) -> bool {
    let later = with_component(given, components_emitted(adj, c));
    let stack = components_advance(adj, c).marks.edge_stack;
    &&& distinct_pairs(later)
    &&& distinct_pairs(stack)
    &&& apart(later, stack)
    &&& forall|e: (N, N)| #[trigger]
        recorded(later, stack, e) <==> recorded(given, c.marks.edge_stack, e) || pushed_edge(adj, c)
            == Some(e)
    &&& components_advance(adj, c).dfs.stack.len() == 0 ==> stack.len() == 0
}

/// An event that puts an edge on the edge stack records that edge and
/// keeps the others.
pub proof fn lemma_records_push<N: Node>(
    adj: Map<N, Seq<N>>,
    c: ComponentsState<N>,
    given: Seq<(N, N)>,
)
    requires
        distinct_pairs(given),
        distinct_pairs(c.marks.edge_stack),
        apart(given, c.marks.edge_stack),
        pushed_edge(adj, c) matches Some(e) && !covered(given, c.marks.edge_stack, e.0, e.1),
    ensures
        records_advance(adj, c, given),
{
    let e = pushed_edge(adj, c)->0;
    lemma_push_edge(given, c.marks.edge_stack, e);
    let (dfs, event) = dfs_step(adj, c.dfs);
    match event {
        Some(DfsEvent::Discover(x, Some(from))) => {
            assert(components_advance(adj, c).marks.edge_stack == c.marks.edge_stack.push(e));
        },
        Some(DfsEvent::NonTreeEdge(u, w)) => {
            assert(components_advance(adj, c).marks.edge_stack == c.marks.edge_stack.push(e));
        },
        _ => {},
    }
}

/// An event that neither puts an edge on the edge stack nor finishes a
/// node keeps the edges recorded.
pub proof fn lemma_records_quiet<N: Node>(
    adj: Map<N, Seq<N>>,
    c: ComponentsState<N>,
    given: Seq<(N, N)>,
)
    requires
        distinct_pairs(given),
        distinct_pairs(c.marks.edge_stack),
        apart(given, c.marks.edge_stack),
        c.dfs.stack.len() == 0 ==> c.marks.edge_stack.len() == 0,
        pushed_edge(adj, c) is None,
        !(dfs_step(adj, c.dfs).1 matches Some(DfsEvent::Finish(_))),
    ensures
        records_advance(adj, c, given),
{
}

/// The finish of a node keeps the edges recorded: it leaves them where
/// they are, or moves a component from the edge stack to the edges given
/// out, or gives out the whole edge stack.
pub proof fn lemma_records_finish<N: Node>(
    adj: Map<N, Seq<N>>,
    start: N,
    c: ComponentsState<N>,
    given: Seq<(N, N)>,
)
    requires
        dfs_inv(adj, c.dfs),
        distinct_pairs(given),
        distinct_pairs(c.marks.edge_stack),
        apart(given, c.marks.edge_stack),
        forall|n: N|
            #![trigger c.marks.parents.dom().contains(n)]
            c.marks.parents.dom().contains(n) <==> c.dfs.visited.contains(n) && n != start,
        c.dfs.stack.len() > 0 ==> c.dfs.stack[0].0 == start,
        dfs_step(adj, c.dfs).1 matches Some(DfsEvent::Finish(_)),
    ensures
        records_advance(adj, c, given),
{
    let s = c.dfs;
    let m = c.marks;
    let st = m.edge_stack;
    let x = dfs_step(adj, s).1->0->Finish_0;
    let top = s.stack.len() - 1;
    assert(s.stack[top].0 == x);
    assert(s.visited.contains(s.stack[top].0));
    if m.parents.dom().contains(x) {
        let parent = m.parents[x];
        assert(top > 0);
        lemma_split_parts(st, parent, x);
        let (rest, taken) = split_component(st, parent, x);
        if components_emitted(adj, c) is Some {
            lemma_move(given, st, rest, taken);
        }
    } else {
        assert(x == start);
        if top > 0 {
            assert(s.stack[0].0 != s.stack[top].0);
        }
        if st.len() > 0 {
            lemma_move_all(given, st);
            assert(distinct_pairs(Seq::<(N, N)>::empty()));
            assert(apart(given + st, Seq::<(N, N)>::empty()));
        }
    }
}

/// What recording an event does to the edges recorded: they stay apart from
/// each other, and they are those recorded before and the edge that the
/// event puts on the edge stack.
pub proof fn lemma_advance_records<N: Node>(
    adj: Map<N, Seq<N>>,
    start: N,
    c: ComponentsState<N>,
    given: Seq<(N, N)>,
)
    requires
        is_simple_undirected(adj),
        partition_inv(adj, start, c, given),
    ensures
        records_advance(adj, c, given),
{
    if pushed_edge(adj, c) is Some {
        lemma_pushed_edge_new(adj, start, c, given);
        lemma_records_push(adj, c, given);
    } else if dfs_step(adj, c.dfs).1 matches Some(DfsEvent::Finish(_)) {
        lemma_records_finish(adj, start, c, given);
    } else {
        lemma_records_quiet(adj, c, given);
    }
}

/// Recording an event keeps `ledger_inv`.
pub proof fn lemma_advance_ledger<N: Node>(
    adj: Map<N, Seq<N>>,
    start: N,
    c: ComponentsState<N>,
    given: Seq<(N, N)>,
)
    requires
        is_simple_undirected(adj),
        partition_inv(adj, start, c, given),
    ensures
        ledger_inv(
            adj,
            components_advance(adj, c),
            with_component(given, components_emitted(adj, c)),
        ),
{
    let s = c.dfs;
    let st = c.marks.edge_stack;
    let t = components_advance(adj, c);
    let later = with_component(given, components_emitted(adj, c));
    lemma_advance_records(adj, start, c, given);
    assert forall|e: (N, N)| #[trigger] recorded(later, t.marks.edge_stack, e) implies pair_ok(
        adj,
        t,
        e,
    ) by {
        if recorded(given, st, e) {
            lemma_pair_ok_stays(adj, c, e);
        } else {
            lemma_pushed_edge_new(adj, start, c, given);
        }
    }
    assert forall|a: N, b: N| #[trigger] walked(adj, t.dfs, a, b) implies covered(
        later,
        t.marks.edge_stack,
        a,
        b,
    ) by {
        lemma_walked_source(adj, s, a, b);
        if walked(adj, s, a, b) {
            assert(covered(given, st, a, b));
            assert(recorded(later, t.marks.edge_stack, (a, b)) || recorded(
                later,
                t.marks.edge_stack,
                (b, a),
            ));
        } else {
            lemma_next_edge_walked(adj, s);
            if pushed_edge(adj, c) is Some {
                lemma_pushed_edge_new(adj, start, c, given);
                assert(recorded(later, t.marks.edge_stack, (a, b)));
            } else {
                lemma_skipped_edge_covered(adj, start, c, given, a, b);
                assert(recorded(later, t.marks.edge_stack, (a, b)) || recorded(
                    later,
                    t.marks.edge_stack,
                    (b, a),
                ));
            }
        }
    }
}

/// A new extractor is in a state of which `partition_inv` holds.
pub proof fn lemma_partition_init<N: Node>(adj: Map<N, Seq<N>>, start: N)
    ensures
        partition_inv(adj, start, components_init(start), Seq::empty()),
{
    let c = components_init(start);
    lemma_reach_inv_init(adj, start);
    assert(c.marks.discovery.dom() =~= c.dfs.visited);
    assert(c.marks.lowpt.dom() =~= c.dfs.visited);
    assert forall|a: N, b: N| !walked(adj, c.dfs, a, b) by {}
}

/// Recording an event keeps `partition_inv`.
pub proof fn lemma_partition_advance<N: Node>(
    adj: Map<N, Seq<N>>,
    start: N,
    c: ComponentsState<N>,
    given: Seq<(N, N)>,
)
    requires
        is_simple_undirected(adj),
        partition_inv(adj, start, c, given),
    ensures
        partition_inv(
            adj,
            start,
            components_advance(adj, c),
            with_component(given, components_emitted(adj, c)),
        ),
{
    lemma_components_advance_inv(adj, c);
    lemma_reach_inv_step(adj, set![start], c.dfs);
    lemma_advance_times(adj, c);
    lemma_advance_parents(adj, start, c);
    lemma_advance_ledger(adj, start, c, given);
}

/// A pull keeps `partition_inv`, with the edges of the component that it
/// gives out; a pull that gives out none leaves the walk ended.
pub proof fn lemma_partition_next<N: Node>(
    adj: Map<N, Seq<N>>,
    start: N,
    c: ComponentsState<N>,
    given: Seq<(N, N)>,
)
    requires
        is_simple_undirected(adj),
        adj.dom().finite(),
        partition_inv(adj, start, c, given),
    ensures
        partition_inv(
            adj,
            start,
            components_next(adj, c).0,
            with_component(given, components_next(adj, c).1),
        ),
        components_next(adj, c).1 is None ==> dfs_ended(adj, components_next(adj, c).0.dfs),
    decreases unseen(adj, c.dfs).len(), pending_count(c.dfs), frames_total(c.dfs.stack),
{
    lemma_partition_advance(adj, start, c, given);
    let (dfs, event) = dfs_step(adj, c.dfs);
    match event {
        None => {},
        Some(e) => {
            let (marks, out) = components_event(c.marks, e);
            if out is None {
                lemma_dfs_step_measure(adj, c.dfs);
                lemma_partition_next(adj, start, ComponentsState { dfs, marks }, given);
            }
        },
    }
}

/// The edges of the components, one component after the other.
pub open spec fn flat<N>(components: Seq<Seq<(N, N)>>) -> Seq<(N, N)>
    decreases components.len(),
{
    if components.len() == 0 {
        Seq::empty()
    } else {
        flat(components.drop_last()) + components.last()
    }
}

/// The components with one more, if there is one.
pub open spec fn with_new_component<N>(
    components: Seq<Seq<(N, N)>>,
    component: Option<Seq<(N, N)>>,
) -> Seq<Seq<(N, N)>> {
    match component {
        Some(edges) => components.push(edges),
        None => components,
    }
}

/// An extractor after `pulls` pulls, and the components that they gave out.
pub open spec fn components_run<N: Node>(
    adj: Map<N, Seq<N>>,
    c: ComponentsState<N>,
    pulls: nat,
) -> (
    ComponentsState<N>,
    Seq<Seq<(N, N)>>,
)
    decreases pulls,
{
    if pulls == 0 {
        (c, Seq::empty())
    } else {
        let (before, components) = components_run(adj, c, (pulls - 1) as nat);
        let (after, component) = components_next(adj, before);
        (after, with_new_component(components, component))
    }
}

/// Every state that a new extractor reaches over a simple undirected graph,
/// with the edges of the components up to it, meets `partition_inv`.
pub proof fn lemma_components_run_inv<N: Node>(adj: Map<N, Seq<N>>, start: N, pulls: nat)
    requires
        is_simple_undirected(adj),
        adj.dom().finite(),
    ensures
        partition_inv(
            adj,
            start,
            components_run(adj, components_init(start), pulls).0,
            flat(components_run(adj, components_init(start), pulls).1),
        ),
    decreases pulls,
{
    if pulls == 0 {
        lemma_partition_init(adj, start);
    } else {
        lemma_components_run_inv(adj, start, (pulls - 1) as nat);
        let (before, components) = components_run(adj, components_init(start), (pulls - 1) as nat);
        lemma_partition_next(adj, start, before, flat(components));
        let component = components_next(adj, before).1;
        if component is Some {
            assert(components.push(component->0).drop_last() =~= components);
        }
    }
}

/// The components part the edges: once the walk over a simple undirected
/// graph has ended, every edge between nodes that `start` reaches is among
/// the edges given out, in one direction or the other; no edge is given out
/// twice, in either direction; and every edge given out is an edge between
/// nodes that `start` reaches.
pub proof fn law_components_part_edges<N: Node>(adj: Map<N, Seq<N>>, start: N, pulls: nat)
    requires
        is_simple_undirected(adj),
        adj.dom().finite(),
        dfs_ended(adj, components_run(adj, components_init(start), pulls).0.dfs),
    ensures
        ({
            let edges = flat(components_run(adj, components_init(start), pulls).1);
            &&& distinct_pairs(edges)
            &&& forall|u: N, v: N|
                reachable(adj, start).contains(u) && #[trigger] edge(adj, u, v) ==> edges.contains(
                    (u, v),
                ) || edges.contains((v, u))
            &&& forall|i: int|
                0 <= i < edges.len() ==> edge(adj, (#[trigger] edges[i]).0, edges[i].1)
                    && reachable(adj, start).contains(edges[i].0) && reachable(
                    adj,
                    start,
                ).contains(edges[i].1)
        }),
{
    let (c, components) = components_run(adj, components_init(start), pulls);
    let edges = flat(components);
    lemma_components_run_inv(adj, start, pulls);
    lemma_reach_inv_ended(adj, set![start], c.dfs);
    assert forall|n: N| reachable_from(adj, set![start]).contains(n) <==> reachable(
        adj,
        start,
    ).contains(n) by {
        if reachable_from(adj, set![start]).contains(n) {
            let a = choose|a: N| set![start].contains(a) && #[trigger] reaches(adj, a, n);
        }
        if reachable(adj, start).contains(n) {
            assert(set![start].contains(start) && reaches(adj, start, n));
        }
    }
    assert(reachable_from(adj, set![start]) =~= reachable(adj, start));
    assert(c.dfs.stack.len() == 0);
    assert(c.marks.edge_stack.len() == 0);
    assert forall|u: N, v: N| reachable(adj, start).contains(u) && #[trigger] edge(
        adj,
        u,
        v,
    ) implies edges.contains((u, v)) || edges.contains((v, u)) by {
        assert(!on_stack(c.dfs.stack, u));
        assert(finished(c.dfs, u));
        assert(walked(adj, c.dfs, u, v));
        assert(covered(edges, c.marks.edge_stack, u, v));
    }
    assert forall|i: int| 0 <= i < edges.len() implies edge(
        adj,
        (#[trigger] edges[i]).0,
        edges[i].1,
    ) && reachable(adj, start).contains(edges[i].0) && reachable(adj, start).contains(
        edges[i].1,
    ) by {
        assert(edges.contains(edges[i]));
        assert(recorded(edges, c.marks.edge_stack, edges[i]));
        assert(pair_ok(adj, c, edges[i]));
    }
}

/// The place in `flat(components)` where the component `k` begins.
pub open spec fn offset<N>(components: Seq<Seq<(N, N)>>, k: int) -> int
    decreases k,
{
    if k <= 0 {
        0
    } else {
        offset(components, k - 1) + components[k - 1].len()
    }
}

/// The edges of all components are as many as the place where a further
/// component would begin.
pub proof fn lemma_flat_len<N>(components: Seq<Seq<(N, N)>>)
    ensures
        flat(components).len() == offset(components, components.len() as int),
    decreases components.len(),
{
    if components.len() > 0 {
        lemma_flat_len(components.drop_last());
        lemma_offset_prefix(components, components.len() - 1, components.len() - 1);
    }
}

/// Where a component begins depends on the components before it alone.
pub proof fn lemma_offset_prefix<N>(components: Seq<Seq<(N, N)>>, n: int, k: int)
    requires
        0 <= k <= n <= components.len(),
    ensures
        offset(components.take(n), k) == offset(components, k),
    decreases k,
{
    if k > 0 {
        lemma_offset_prefix(components, n, k - 1);
    }
}

/// A later component begins where an earlier one has ended, or after that.
pub proof fn lemma_offset_grows<N>(components: Seq<Seq<(N, N)>>, k1: int, k2: int)
    requires
        0 <= k1 < k2 <= components.len(),
    ensures
        offset(components, k1) + components[k1].len() <= offset(components, k2),
    decreases k2,
{
    if k1 + 1 < k2 {
        lemma_offset_grows(components, k1, k2 - 1);
    }
}

/// The edge `i` of the component `k` stands in `flat(components)` at the
/// place `offset(components, k) + i`.
pub proof fn lemma_flat_at<N>(components: Seq<Seq<(N, N)>>, k: int, i: int)
    requires
        0 <= k < components.len(),
        0 <= i < components[k].len(),
    ensures
        0 <= offset(components, k) + i < flat(components).len(),
        flat(components)[offset(components, k) + i] == components[k][i],
    decreases components.len(),
{
    let shorter = components.drop_last();
    lemma_flat_len(shorter);
    lemma_offset_prefix(components, components.len() - 1, components.len() - 1);
    assert(components.take(components.len() - 1) =~= shorter);
    if k < components.len() - 1 {
        lemma_flat_at(shorter, k, i);
        lemma_offset_prefix(components, components.len() - 1, k);
        assert(shorter[k] == components[k]);
    } else {
        assert(offset(components, k) >= 0) by {
            lemma_flat_len(shorter);
        }
    }
}

/// Every edge is in one component only: once the walk over a simple
/// undirected graph has ended, no two places of the components given out,
/// in the same component or in two, hold the same edge, in either direction.
pub proof fn law_components_share_no_edge<N: Node>(
    adj: Map<N, Seq<N>>,
    start: N,
    pulls: nat,
    k1: int,
    i1: int,
    k2: int,
    i2: int,
)
    requires
        is_simple_undirected(adj),
        adj.dom().finite(),
        dfs_ended(adj, components_run(adj, components_init(start), pulls).0.dfs),
        0 <= k1 < components_run(adj, components_init(start), pulls).1.len(),
        0 <= i1 < components_run(adj, components_init(start), pulls).1[k1].len(),
        0 <= k2 < components_run(adj, components_init(start), pulls).1.len(),
        0 <= i2 < components_run(adj, components_init(start), pulls).1[k2].len(),
        k1 != k2 || i1 != i2,
    ensures
        ({
            let components = components_run(adj, components_init(start), pulls).1;
            !joins(components[k1][i1], components[k2][i2].0, components[k2][i2].1)
        }),
{
    let components = components_run(adj, components_init(start), pulls).1;
    let edges = flat(components);
    law_components_part_edges(adj, start, pulls);
    lemma_flat_at(components, k1, i1);
    lemma_flat_at(components, k2, i2);
    let first_at = offset(components, k1) + i1;
    let second_at = offset(components, k2) + i2;
    if k1 < k2 {
        lemma_offset_grows(components, k1, k2);
    }
    if k2 < k1 {
        lemma_offset_grows(components, k2, k1);
    }
    assert(first_at != second_at);
    assert(!joins(edges[first_at], edges[second_at].0, edges[second_at].1));
}

} // verus!
