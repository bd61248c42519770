use crate::graph::{edge, neighbor_seq, Node};
use crate::reach::{
    lemma_closed_set_holds_reachable, lemma_reaches_self, lemma_reaches_step, reachable,
    reachable_from, reaches, reaches_in,
};
use crate::traversal::{
    dfs_init, dfs_inv, dfs_step, frames_total, is_suffix, lemma_dfs_step_inv,
    lemma_dfs_step_measure, on_stack, pending_count, unseen, DfsEvent, DfsState,
};
use vstd::prelude::*;

verus! {

/// The node was discovered and has left the stack.
pub open spec fn finished<N>(s: DfsState<N>, n: N) -> bool {
    s.visited.contains(n) && !on_stack(s.stack, n)
}

/// The frame has looked at `m`: `m` is one of the neighbours of its node
/// that it no longer holds.
pub open spec fn looked_at<N>(adj: Map<N, Seq<N>>, frame: (N, Seq<N>), m: N) -> bool {
    exists|j: int|
        0 <= j < neighbor_seq(adj, frame.0).len() - frame.1.len() && #[trigger] neighbor_seq(
            adj,
            frame.0,
        )[j] == m
}

/// What holds of every state of a walk that took up the start nodes `roots`
/// and no others: every root is visited or pending, every neighbour of a
/// finished node and every neighbour that a frame has looked at is visited,
/// and every visited node is reached from a root.
pub open spec fn dfs_reach_inv<N: Node>(
    adj: Map<N, Seq<N>>,
    roots: Set<N>,
    s: DfsState<N>,
) -> bool {
    &&& dfs_inv(adj, s)
    &&& s.pending is Some ==> roots.contains(s.pending->0)
    &&& forall|r: N| #[trigger] roots.contains(r) ==> s.visited.contains(r) || s.pending == Some(r)
    &&& forall|n: N, m: N| finished(s, n) && #[trigger] edge(adj, n, m) ==> s.visited.contains(m)
    &&& forall|i: int, m: N|
        0 <= i < s.stack.len() && #[trigger] looked_at(adj, s.stack[i], m) ==> s.visited.contains(m)
    &&& forall|n: N| #[trigger] s.visited.contains(n) ==> reachable_from(adj, roots).contains(n)
}

/// How a pull changes which nodes are on the stack: a discovery adds its
/// node, a finish takes its node away, and nothing else changes.
pub proof fn lemma_step_stack<N: Node>(adj: Map<N, Seq<N>>, s: DfsState<N>)
    requires
        dfs_inv(adj, s),
    ensures
        match dfs_step(adj, s).1 {
            Some(DfsEvent::Discover(x, _)) => forall|n: N|
                #![trigger on_stack(dfs_step(adj, s).0.stack, n)]
                #![trigger on_stack(s.stack, n)]
                on_stack(dfs_step(adj, s).0.stack, n) <==> on_stack(s.stack, n) || n == x,
            Some(DfsEvent::Finish(x)) => on_stack(s.stack, x) && forall|n: N|
                #![trigger on_stack(dfs_step(adj, s).0.stack, n)]
                #![trigger on_stack(s.stack, n)]
                on_stack(dfs_step(adj, s).0.stack, n) <==> on_stack(s.stack, n) && n != x,
            Some(DfsEvent::NonTreeEdge(x, _)) => on_stack(s.stack, x) && forall|n: N|
                #![trigger on_stack(dfs_step(adj, s).0.stack, n)]
                #![trigger on_stack(s.stack, n)]
                on_stack(dfs_step(adj, s).0.stack, n) <==> on_stack(s.stack, n),
            None => forall|n: N|
                #![trigger on_stack(dfs_step(adj, s).0.stack, n)]
                #![trigger on_stack(s.stack, n)]
                on_stack(dfs_step(adj, s).0.stack, n) <==> on_stack(s.stack, n),
        },
{
    let (t, event) = dfs_step(adj, s);
    let top = s.stack.len() - 1;
    match event {
        None => {},
        Some(DfsEvent::Discover(x, _)) => {
            assert forall|i: int| 0 <= i < s.stack.len() implies (#[trigger] t.stack[i]).0
                == s.stack[i].0 by {}
            assert(t.stack[s.stack.len() as int].0 == x);
            assert forall|n: N| on_stack(t.stack, n) <==> on_stack(s.stack, n) || n == x by {
                if on_stack(s.stack, n) {
                    let i = choose|i: int| 0 <= i < s.stack.len() && (#[trigger] s.stack[i]).0 == n;
                    assert(t.stack[i].0 == n);
                }
                if on_stack(t.stack, n) && n != x {
                    let i = choose|i: int| 0 <= i < t.stack.len() && (#[trigger] t.stack[i]).0 == n;
                    assert(s.stack[i].0 == n);
                }
            }
        },
        Some(DfsEvent::Finish(x)) => {
            assert(s.stack[top].0 == x);
            assert forall|n: N| on_stack(t.stack, n) <==> on_stack(s.stack, n) && n != x by {
                if on_stack(t.stack, n) {
                    let i = choose|i: int| 0 <= i < t.stack.len() && (#[trigger] t.stack[i]).0 == n;
                    assert(s.stack[i].0 == n);
                    assert(s.stack[i].0 != s.stack[top].0);
                }
                if on_stack(s.stack, n) && n != x {
                    let i = choose|i: int| 0 <= i < s.stack.len() && (#[trigger] s.stack[i]).0 == n;
                    assert(t.stack[i].0 == n);
                }
            }
        },
        Some(DfsEvent::NonTreeEdge(x, _)) => {
            assert(s.stack[top].0 == x);
            assert forall|i: int| 0 <= i < s.stack.len() implies (#[trigger] t.stack[i]).0
                == s.stack[i].0 by {}
            assert forall|n: N| on_stack(t.stack, n) <==> on_stack(s.stack, n) by {
                if on_stack(s.stack, n) {
                    let i = choose|i: int| 0 <= i < s.stack.len() && (#[trigger] s.stack[i]).0 == n;
                    assert(t.stack[i].0 == n);
                }
                if on_stack(t.stack, n) {
                    let i = choose|i: int| 0 <= i < t.stack.len() && (#[trigger] t.stack[i]).0 == n;
                    assert(s.stack[i].0 == n);
                }
            }
        },
    }
}

/// A new walk from `start` is in a state of which `dfs_reach_inv` holds.
pub proof fn lemma_reach_inv_init<N: Node>(adj: Map<N, Seq<N>>, start: N)
    ensures
        dfs_reach_inv(adj, set![start], dfs_init(start)),
{
}

/// Queuing a start node keeps `dfs_reach_inv`, with one more root.
pub proof fn lemma_reach_inv_new_start<N: Node>(
    adj: Map<N, Seq<N>>,
    roots: Set<N>,
    s: DfsState<N>,
    start: N,
)
    requires
        dfs_reach_inv(adj, roots, s),
        s.pending is None,
    ensures
        dfs_reach_inv(adj, roots.insert(start), DfsState { pending: Some(start), ..s }),
{
    let t = DfsState { pending: Some(start), ..s };
    assert forall|n: N| #[trigger] t.visited.contains(n) implies reachable_from(
        adj,
        roots.insert(start),
    ).contains(n) by {
        assert(reachable_from(adj, roots).contains(n));
        let a = choose|a: N| roots.contains(a) && #[trigger] reaches(adj, a, n);
        assert(roots.insert(start).contains(a) && reaches(adj, a, n));
    }
}

/// A pull keeps `dfs_reach_inv`.
pub proof fn lemma_reach_inv_step<N: Node>(adj: Map<N, Seq<N>>, roots: Set<N>, s: DfsState<N>)
    requires
        dfs_reach_inv(adj, roots, s),
    ensures
        dfs_reach_inv(adj, roots, dfs_step(adj, s).0),
{
    let (t, event) = dfs_step(adj, s);
    lemma_dfs_step_inv(adj, s);
    lemma_step_stack(adj, s);
    let top = s.stack.len() - 1;
    match event {
        None => {
            assert forall|n: N, m: N| finished(t, n) && #[trigger] edge(
                adj,
                n,
                m,
            ) implies t.visited.contains(m) by {
                assert(finished(s, n));
            }
        },
        Some(DfsEvent::Discover(x, None)) => {
            assert(s.pending == Some(x));
            assert forall|n: N, m: N| finished(t, n) && #[trigger] edge(
                adj,
                n,
                m,
            ) implies t.visited.contains(m) by {
                assert(finished(s, n));
            }
            lemma_reaches_self(adj, x);
            assert(roots.contains(x) && reaches(adj, x, x));
            assert forall|i: int, m: N|
                0 <= i < t.stack.len() && #[trigger] looked_at(
                    adj,
                    t.stack[i],
                    m,
                ) implies t.visited.contains(m) by {
                if i < s.stack.len() {
                    assert(t.stack[i] == s.stack[i]);
                    assert(looked_at(adj, s.stack[i], m));
                }
            }
        },
        Some(DfsEvent::Discover(x, Some(from))) => {
            let (node, rest) = s.stack.last();
            assert(s.stack[top] == s.stack.last());
            let all = neighbor_seq(adj, node);
            assert(is_suffix(rest, all));
            let at = all.len() - rest.len();
            assert(all[at] == x);
            assert(edge(adj, node, x));
            assert forall|n: N, m: N| finished(t, n) && #[trigger] edge(
                adj,
                n,
                m,
            ) implies t.visited.contains(m) by {
                assert(finished(s, n));
            }
            assert forall|i: int, m: N|
                0 <= i < t.stack.len() && #[trigger] looked_at(
                    adj,
                    t.stack[i],
                    m,
                ) implies t.visited.contains(m) by {
                if i < top {
                    assert(t.stack[i] == s.stack[i]);
                    assert(looked_at(adj, s.stack[i], m));
                } else if i == top {
                    let j = choose|j: int|
                        0 <= j < all.len() - (rest.len() - 1) && #[trigger] all[j] == m;
                    if j < at {
                        assert(looked_at(adj, s.stack[top], m));
                    }
                }
            }
            assert forall|n: N| #[trigger] t.visited.contains(n) implies reachable_from(
                adj,
                roots,
            ).contains(n) by {
                if n == x {
                    assert(reachable_from(adj, roots).contains(node));
                    let a = choose|a: N| roots.contains(a) && #[trigger] reaches(adj, a, node);
                    let d = choose|d: nat| reaches_in(adj, a, node, d);
                    lemma_reaches_step(adj, a, node, x, d);
                    assert(roots.contains(a) && reaches(adj, a, x));
                }
            }
        },
        Some(DfsEvent::Finish(x)) => {
            let (node, rest) = s.stack.last();
            assert(s.stack[top] == s.stack.last());
            let all = neighbor_seq(adj, x);
            assert forall|i: int, m: N|
                0 <= i < t.stack.len() && #[trigger] looked_at(
                    adj,
                    t.stack[i],
                    m,
                ) implies t.visited.contains(m) by {
                assert(t.stack[i] == s.stack[i]);
                assert(looked_at(adj, s.stack[i], m));
            }
            assert forall|n: N, m: N| finished(t, n) && #[trigger] edge(
                adj,
                n,
                m,
            ) implies t.visited.contains(m) by {
                if n == x {
                    let j = choose|j: int| 0 <= j < all.len() && all[j] == m;
                    assert(looked_at(adj, s.stack[top], m));
                } else {
                    assert(finished(s, n));
                }
            }
        },
        Some(DfsEvent::NonTreeEdge(x, y)) => {
            let (node, rest) = s.stack.last();
            assert(s.stack[top] == s.stack.last());
            let all = neighbor_seq(adj, node);
            assert(is_suffix(rest, all));
            let at = all.len() - rest.len();
            assert(all[at] == y);
            assert forall|n: N, m: N| finished(t, n) && #[trigger] edge(
                adj,
                n,
                m,
            ) implies t.visited.contains(m) by {
                assert(finished(s, n));
            }
            assert forall|i: int, m: N|
                0 <= i < t.stack.len() && #[trigger] looked_at(
                    adj,
                    t.stack[i],
                    m,
                ) implies t.visited.contains(m) by {
                if i < top {
                    assert(t.stack[i] == s.stack[i]);
                    assert(looked_at(adj, s.stack[i], m));
                } else {
                    let j = choose|j: int|
                        0 <= j < all.len() - (rest.len() - 1) && #[trigger] all[j] == m;
                    if j < at {
                        assert(looked_at(adj, s.stack[top], m));
                    }
                }
            }
        },
    }
}

/// When a walk has ended, the nodes it visited are those that its roots reach.
pub proof fn lemma_reach_inv_ended<N: Node>(adj: Map<N, Seq<N>>, roots: Set<N>, s: DfsState<N>)
    requires
        dfs_reach_inv(adj, roots, s),
        dfs_step(adj, s).1 is None,
    ensures
        s.visited == reachable_from(adj, roots),
{
    assert forall|n: N| reachable_from(adj, roots).contains(n) implies s.visited.contains(n) by {
        let a = choose|a: N| roots.contains(a) && #[trigger] reaches(adj, a, n);
        let d = choose|d: nat| reaches_in(adj, a, n, d);
        assert forall|x: N, y: N| s.visited.contains(x) && #[trigger] edge(
            adj,
            x,
            y,
        ) implies s.visited.contains(y) by {
            assert(finished(s, x));
        }
        lemma_closed_set_holds_reachable(adj, s.visited, a, n, d);
    }
    assert(s.visited =~= reachable_from(adj, roots));
}

/// The nodes of the discoveries among the events, oldest first.
pub open spec fn discoveries<N: Node>(events: Seq<DfsEvent<N>>) -> Seq<N>
    decreases events.len(),
{
    if events.len() == 0 {
        Seq::empty()
    } else {
        match events.last() {
            DfsEvent::Discover(n, _) => discoveries(events.drop_last()).push(n),
            _ => discoveries(events.drop_last()),
        }
    }
}

/// The nodes of the finishes among the events, oldest first.
pub open spec fn finishes<N: Node>(events: Seq<DfsEvent<N>>) -> Seq<N>
    decreases events.len(),
{
    if events.len() == 0 {
        Seq::empty()
    } else {
        match events.last() {
            DfsEvent::Finish(n) => finishes(events.drop_last()).push(n),
            _ => finishes(events.drop_last()),
        }
    }
}

/// The event is the discovery of `n`.
pub open spec fn is_discovery_of<N: Node>(event: DfsEvent<N>, n: N) -> bool {
    event matches DfsEvent::Discover(m, _) && m == n
}

/// One of the first `j` events is the discovery of `n`.
pub open spec fn discovered_before<N: Node>(events: Seq<DfsEvent<N>>, j: int, n: N) -> bool {
    exists|i: int| 0 <= i < j && i < events.len() && #[trigger] is_discovery_of(events[i], n)
}

/// The events with one more, if there is one.
pub open spec fn with_event<N: Node>(events: Seq<DfsEvent<N>>, event: Option<DfsEvent<N>>) -> Seq<
    DfsEvent<N>,
> {
    match event {
        Some(e) => events.push(e),
        None => events,
    }
}

/// A walk after `pulls` pulls, and the events that they gave, oldest first.
pub open spec fn dfs_run<N: Node>(adj: Map<N, Seq<N>>, s: DfsState<N>, pulls: nat) -> (
    DfsState<N>,
    Seq<DfsEvent<N>>,
)
    decreases pulls,
{
    if pulls == 0 {
        (s, Seq::empty())
    } else {
        let (before, events) = dfs_run(adj, s, (pulls - 1) as nat);
        let (after, event) = dfs_step(adj, before);
        (after, with_event(events, event))
    }
}

/// The walk has ended: a pull gives no event.
pub open spec fn dfs_ended<N: Node>(adj: Map<N, Seq<N>>, s: DfsState<N>) -> bool {
    dfs_step(adj, s).1 is None
}

/// What holds of the events of a walk that began with nothing visited: the
/// nodes visited are those discovered, each once; the nodes finished are
/// those with a finish, each once; and each finish comes after the discovery
/// of its node.
pub open spec fn dfs_trace_inv<N: Node>(s: DfsState<N>, events: Seq<DfsEvent<N>>) -> bool {
    &&& discoveries(events).no_duplicates()
    &&& forall|n: N| discoveries(events).contains(n) <==> s.visited.contains(n)
    &&& finishes(events).no_duplicates()
    &&& forall|n: N| finishes(events).contains(n) <==> finished(s, n)
    &&& forall|n: N| s.visited.contains(n) ==> discovered_before(events, events.len() as int, n)
    &&& forall|j: int|
        0 <= j < events.len() && (#[trigger] events[j]) is Finish ==> discovered_before(
            events,
            j,
            events[j]->Finish_0,
        )
}

/// A sequence without repetition stays so when a new item is added to it.
pub proof fn lemma_push_fresh<T>(s: Seq<T>, x: T)
    requires
        s.no_duplicates(),
        !s.contains(x),
    ensures
        s.push(x).no_duplicates(),
        forall|y: T| s.push(x).contains(y) <==> s.contains(y) || y == x,
{
    let t = s.push(x);
    assert forall|i: int, j: int| 0 <= i < t.len() && 0 <= j < t.len() && i != j implies t[i]
        != t[j] by {
        if i < s.len() {
            assert(s.contains(t[i]));
        }
        if j < s.len() {
            assert(s.contains(t[j]));
        }
    }
    assert forall|y: T| t.contains(y) <==> s.contains(y) || y == x by {
        if t.contains(y) {
            let i = choose|i: int| 0 <= i < t.len() && t[i] == y;
            if i < s.len() {
                assert(s[i] == y);
            }
        }
        if s.contains(y) {
            let i = choose|i: int| 0 <= i < s.len() && s[i] == y;
            assert(t[i] == y);
        }
        if y == x {
            assert(t[s.len() as int] == y);
        }
    }
}

/// A pull keeps `dfs_trace_inv`.
pub proof fn lemma_trace_inv_step<N: Node>(
    adj: Map<N, Seq<N>>,
    s: DfsState<N>,
    events: Seq<DfsEvent<N>>,
)
    requires
        dfs_inv(adj, s),
        dfs_trace_inv(s, events),
    ensures
        dfs_trace_inv(dfs_step(adj, s).0, with_event(events, dfs_step(adj, s).1)),
{
    let (t, event) = dfs_step(adj, s);
    let later = with_event(events, event);
    lemma_dfs_step_inv(adj, s);
    lemma_step_stack(adj, s);
    match event {
        None => {
            assert forall|n: N| finishes(later).contains(n) <==> finished(t, n) by {
                assert(finishes(events).contains(n) <==> finished(s, n));
            }
        },
        Some(e) => {
            assert(later.drop_last() =~= events);
            assert forall|j: int|
                0 <= j < later.len() && (#[trigger] later[j]) is Finish implies discovered_before(
                later,
                j,
                later[j]->Finish_0,
            ) by {
                let n = later[j]->Finish_0;
                if j < events.len() {
                    assert(events[j] is Finish);
                    assert(discovered_before(events, j, n));
                    let i = choose|i: int|
                        0 <= i < j && i < events.len() && #[trigger] is_discovery_of(events[i], n);
                    assert(is_discovery_of(later[i], n));
                } else {
                    assert(s.visited.contains(n));
                    assert(discovered_before(events, events.len() as int, n));
                    let i = choose|i: int|
                        0 <= i < events.len() && #[trigger] is_discovery_of(events[i], n);
                    assert(is_discovery_of(later[i], n));
                }
            }
            assert forall|n: N| t.visited.contains(n) implies discovered_before(
                later,
                later.len() as int,
                n,
            ) by {
                if s.visited.contains(n) {
                    assert(discovered_before(events, events.len() as int, n));
                    let i = choose|i: int|
                        0 <= i < events.len() && #[trigger] is_discovery_of(events[i], n);
                    assert(is_discovery_of(later[i], n));
                } else {
                    assert(is_discovery_of(later[events.len() as int], n));
                }
            }
            match e {
                DfsEvent::Discover(x, _) => {
                    assert(!s.visited.contains(x));
                    lemma_push_fresh(discoveries(events), x);
                    assert(discoveries(later) == discoveries(events).push(x));
                    assert(finishes(later) == finishes(events));
                    assert(t.visited =~= s.visited.insert(x));
                    assert forall|n: N| finishes(later).contains(n) <==> finished(t, n) by {
                        assert(finishes(events).contains(n) <==> finished(s, n));
                        assert(on_stack(t.stack, n) <==> on_stack(s.stack, n) || n == x);
                        assert(t.visited.contains(n) <==> s.visited.contains(n) || n == x);
                    }
                    assert forall|n: N| discoveries(later).contains(n) <==> t.visited.contains(
                        n,
                    ) by {
                        assert(discoveries(events).contains(n) <==> s.visited.contains(n));
                    }
                },
                DfsEvent::Finish(x) => {
                    assert(!finished(s, x));
                    assert(s.visited.contains(x)) by {
                        let i = choose|i: int|
                            0 <= i < s.stack.len() && (#[trigger] s.stack[i]).0 == x;
                    }
                    lemma_push_fresh(finishes(events), x);
                    assert(finishes(later) == finishes(events).push(x));
                    assert(discoveries(later) == discoveries(events));
                    assert forall|n: N| finishes(later).contains(n) <==> finished(t, n) by {
                        assert(finishes(events).contains(n) <==> finished(s, n));
                    }
                },
                DfsEvent::NonTreeEdge(_, _) => {
                    assert(finishes(later) == finishes(events));
                    assert(discoveries(later) == discoveries(events));
                    assert forall|n: N| finishes(later).contains(n) <==> finished(t, n) by {
                        assert(finishes(events).contains(n) <==> finished(s, n));
                    }
                },
            }
        },
    }
}

/// Every state that a new walk from `start` reaches, with the events up to
/// it, meets `dfs_reach_inv` and `dfs_trace_inv`.
pub proof fn lemma_run_inv<N: Node>(adj: Map<N, Seq<N>>, start: N, pulls: nat)
    ensures
        dfs_reach_inv(adj, set![start], dfs_run(adj, dfs_init(start), pulls).0),
        dfs_trace_inv(dfs_run(adj, dfs_init(start), pulls).0, dfs_run(adj, dfs_init(start), pulls).1),
    decreases pulls,
{
    if pulls == 0 {
        lemma_reach_inv_init(adj, start);
        let s = dfs_init(start);
        assert(forall|n: N| !on_stack(s.stack, n));
    } else {
        lemma_run_inv(adj, start, (pulls - 1) as nat);
        let (before, events) = dfs_run(adj, dfs_init(start), (pulls - 1) as nat);
        lemma_reach_inv_step(adj, set![start], before);
        lemma_trace_inv_step(adj, before, events);
    }
}

/// A walk discovers the nodes that `start` reaches, each once, so the number
/// of its discoveries is the number of those nodes; and it finishes each of
/// them once, after it has discovered it.
pub proof fn law_depth_first_discovers_reachable<N: Node>(
    adj: Map<N, Seq<N>>,
    start: N,
    pulls: nat,
)
    requires
        dfs_ended(adj, dfs_run(adj, dfs_init(start), pulls).0),
    ensures
        ({
            let events = dfs_run(adj, dfs_init(start), pulls).1;
            &&& discoveries(events).no_duplicates()
            &&& discoveries(events).to_set() == reachable(adj, start)
            &&& discoveries(events).len() == reachable(adj, start).len()
            &&& finishes(events).no_duplicates()
            &&& finishes(events).to_set() == reachable(adj, start)
            &&& forall|j: int|
                0 <= j < events.len() && (#[trigger] events[j]) is Finish ==> discovered_before(
                    events,
                    j,
                    events[j]->Finish_0,
                )
        }),
{
    let (s, events) = dfs_run(adj, dfs_init(start), pulls);
    lemma_run_inv(adj, start, pulls);
    lemma_reach_inv_ended(adj, set![start], s);
    assert forall|n: N| reachable_from(adj, set![start]).contains(n) <==> reachable(
        adj,
        start,
    ).contains(n) by {
        if reachable_from(adj, set![start]).contains(n) {
            let a = choose|a: N| set![start].contains(a) && #[trigger] reaches(adj, a, n);
        }
        if reachable(adj, start).contains(n) {
            assert(set![start].contains(start) && reaches(adj, start, n));
        }
    }
    assert(reachable_from(adj, set![start]) =~= reachable(adj, start));
    assert(discoveries(events).to_set() =~= s.visited);
    assert(s.stack.len() == 0);
    assert forall|n: N| finishes(events).to_set().contains(n) <==> s.visited.contains(n) by {
        assert(!on_stack(s.stack, n));
        assert(finishes(events).contains(n) <==> finished(s, n));
    }
    assert(finishes(events).to_set() =~= s.visited);
    discoveries(events).unique_seq_to_set();
}

/// The state of a walk after one pull and `pulls` more is its state after
/// `pulls + 1` pulls.
pub proof fn lemma_run_front<N: Node>(adj: Map<N, Seq<N>>, s: DfsState<N>, pulls: nat)
    ensures
        dfs_run(adj, dfs_step(adj, s).0, pulls).0 == dfs_run(adj, s, pulls + 1).0,
    decreases pulls,
{
    if pulls > 0 {
        lemma_run_front(adj, s, (pulls - 1) as nat);
    } else {
        assert(dfs_run(adj, s, 0).0 == s);
    }
}

/// A walk over a finite graph ends, from whatever state it is in.
pub proof fn lemma_walk_ends<N: Node>(adj: Map<N, Seq<N>>, s: DfsState<N>)
    requires
        adj.dom().finite(),
        dfs_inv(adj, s),
    ensures
        exists|pulls: nat| dfs_ended(adj, #[trigger] dfs_run(adj, s, pulls).0),
    decreases unseen(adj, s).len(), pending_count(s), frames_total(s.stack),
{
    if dfs_ended(adj, s) {
        assert(dfs_ended(adj, dfs_run(adj, s, 0).0));
    } else {
        let t = dfs_step(adj, s).0;
        lemma_dfs_step_inv(adj, s);
        lemma_dfs_step_measure(adj, s);
        lemma_walk_ends(adj, t);
        let pulls = choose|pulls: nat| dfs_ended(adj, #[trigger] dfs_run(adj, t, pulls).0);
        lemma_run_front(adj, s, pulls);
        assert(dfs_ended(adj, dfs_run(adj, s, pulls + 1).0));
    }
}

/// A walk over a finite graph ends after finitely many pulls.
pub proof fn law_depth_first_ends<N: Node>(adj: Map<N, Seq<N>>, start: N)
    requires
        adj.dom().finite(),
    ensures
        exists|pulls: nat| dfs_ended(adj, #[trigger] dfs_run(adj, dfs_init(start), pulls).0),
{
    lemma_walk_ends(adj, dfs_init(start));
}

/// Every state that a walk reaches by pulls from a state of which
/// `dfs_reach_inv` holds is such a state.
pub proof fn lemma_reach_inv_run<N: Node>(
    adj: Map<N, Seq<N>>,
    roots: Set<N>,
    s: DfsState<N>,
    pulls: nat,
)
    requires
        dfs_reach_inv(adj, roots, s),
    ensures
        dfs_reach_inv(adj, roots, dfs_run(adj, s, pulls).0),
        s.visited.subset_of(dfs_run(adj, s, pulls).0.visited),
    decreases pulls,
{
    if pulls > 0 {
        lemma_reach_inv_run(adj, roots, s, (pulls - 1) as nat);
        lemma_reach_inv_step(adj, roots, dfs_run(adj, s, (pulls - 1) as nat).0);
    }
}

/// A walk that is given a new start node goes on to a forest: once it has
/// ended, it has visited the nodes that its earlier start nodes and the new
/// one reach, and it has kept every node that it had visited before.
pub proof fn law_new_start_walks_forest<N: Node>(
    adj: Map<N, Seq<N>>,
    roots: Set<N>,
    s: DfsState<N>,
    start: N,
    pulls: nat,
)
    requires
        dfs_reach_inv(adj, roots, s),
        s.pending is None,
        dfs_ended(adj, dfs_run(adj, DfsState { pending: Some(start), ..s }, pulls).0),
    ensures
        dfs_run(adj, DfsState { pending: Some(start), ..s }, pulls).0.visited == reachable_from(
            adj,
            roots.insert(start),
        ),
        s.visited.subset_of(dfs_run(adj, DfsState { pending: Some(start), ..s }, pulls).0.visited),
{
    let seeded = DfsState { pending: Some(start), ..s };
    lemma_reach_inv_new_start(adj, roots, s, start);
    lemma_reach_inv_run(adj, roots.insert(start), seeded, pulls);
    lemma_reach_inv_ended(adj, roots.insert(start), dfs_run(adj, seeded, pulls).0);
}

} // verus!
