use crate::dfs_theory::{
    dfs_ended, dfs_reach_inv, lemma_push_fresh, lemma_reach_inv_ended, lemma_reach_inv_init,
    lemma_reach_inv_new_start, lemma_reach_inv_step,
};
use crate::graph::{edge, neighbor_seq, Node};
use crate::reach::{reachable, reachable_from, reaches};
use crate::traversal::{
    classify, classify_event, dfs_budget, dfs_inv, dfs_step, edges_advance, edges_init, edges_inv,
    edges_next, is_suffix, lemma_edges_advance_inv, lemma_quiet_event_budget, on_stack, DfsEvent,
    DfsState, Edge, EdgesState, Marks,
};
use vstd::prelude::*;

verus! {

/// `v` is `u` or comes before `u` on the way from the root to `u`: a chain
/// of nodes leads from `v` to `u`, each the parent of the next.
#[verifier::opaque]
pub open spec fn is_ancestor<N>(parent: Map<N, N>, v: N, u: N) -> bool {
    exists|chain: Seq<N>| #[trigger]
        is_descent(parent, chain) && chain.len() > 0 && chain[0] == v && chain.last() == u
}

/// Each node of the chain but the last is the parent of the next.
pub open spec fn is_descent<N>(parent: Map<N, N>, chain: Seq<N>) -> bool {
    forall|j: int| 0 < j < chain.len() ==> #[trigger] is_link(parent, chain, j)
}

/// The node at the place `j` of the chain is a child of the one before it.
pub open spec fn is_link<N>(parent: Map<N, N>, chain: Seq<N>, j: int) -> bool {
    parent.dom().contains(chain[j]) && parent[chain[j]] == chain[j - 1]
}

/// Each frame but the first holds a child of the node of the frame below.
pub open spec fn is_chain<N>(parent: Map<N, N>, stack: Seq<(N, Seq<N>)>) -> bool {
    forall|j: int| 0 < j < stack.len() ==> #[trigger] is_frame_link(parent, stack, j)
}

/// The frame at the place `j` of the stack holds a child of the node of
/// the frame below it.
pub open spec fn is_frame_link<N>(parent: Map<N, N>, stack: Seq<(N, Seq<N>)>, j: int) -> bool {
    parent.dom().contains(stack[j].0) && parent[stack[j].0] == stack[j - 1].0
}

/// In a chain of frames, the node of each frame is an ancestor of the node
/// of the top frame.
pub proof fn lemma_chain_ancestor<N>(parent: Map<N, N>, stack: Seq<(N, Seq<N>)>, at: int)
    requires
        is_chain(parent, stack),
        0 <= at < stack.len(),
    ensures
        is_ancestor(parent, stack[at].0, stack.last().0),
{
    reveal(is_ancestor);
    let chain = Seq::new((stack.len() - at) as nat, |k: int| stack[at + k].0);
    assert forall|j: int| 0 < j < chain.len() implies #[trigger] is_link(parent, chain, j) by {
        assert(is_frame_link(parent, stack, at + j));
    }
    assert(is_descent(parent, chain));
    assert(chain.len() > 0);
    assert(chain[0] == stack[at].0);
    assert(chain.last() == stack.last().0);
}

/// What the class of an edge says of it, given the records of the
/// classifier that reported it: a tree edge leads from a parent to its
/// child; a back edge leads to an ancestor; a forward edge leads to a
/// finished node discovered later; a cross edge leads to a finished node.
pub open spec fn edge_law<N: Node>(adj: Map<N, Seq<N>>, m: Marks<N>, e: Edge<N>) -> bool {
    match e {
        Edge::Tree(u, v) => m.parent.dom().contains(v) && m.parent[v] == u && edge(adj, u, v),
        Edge::Back(u, v) => is_ancestor(m.parent, v, u) && edge(adj, u, v),
        Edge::ParentBack(u, v) => is_ancestor(m.parent, v, u) && m.parent.dom().contains(u)
            && m.parent[u] == v && edge(adj, u, v),
        Edge::Forward(u, v) => m.discovery.dom().contains(u) && m.discovery.dom().contains(v)
            && m.discovery[u] < m.discovery[v] && m.finish.dom().contains(v) && edge(adj, u, v),
        Edge::Cross(u, v) => m.discovery.dom().contains(u) && m.finish.dom().contains(v)
            && !m.open.contains(v) && edge(adj, u, v),
    }
}

/// The nodes that the tree edges among `edges` lead to, oldest first.
pub open spec fn tree_targets<N: Node>(edges: Seq<Edge<N>>) -> Seq<N>
    decreases edges.len(),
{
    if edges.len() == 0 {
        Seq::empty()
    } else {
        match edges.last() {
            Edge::Tree(_, v) => tree_targets(edges.drop_last()).push(v),
            _ => tree_targets(edges.drop_last()),
        }
    }
}

/// The edges with one more, if there is one.
pub open spec fn with_edge_out<N: Node>(edges: Seq<Edge<N>>, e: Option<Edge<N>>) -> Seq<Edge<N>> {
    match e {
        Some(e) => edges.push(e),
        None => edges,
    }
}

/// The frames of the stack are a chain of parents and children.
pub open spec fn chain_inv<N: Node>(c: EdgesState<N>) -> bool {
    is_chain(c.marks.parent, c.dfs.stack)
}

/// The roots used are finitely many of the roots given, and are visited;
/// the nodes with a parent are the visited ones that are no root used; a
/// parent is discovered before its child and has it as a neighbour; every
/// discovery lies before the present time; and where a node is visited, a
/// root has been used.
pub open spec fn parent_inv<N: Node>(
    adj: Map<N, Seq<N>>,
    roots: Set<N>,
    used: Set<N>,
    c: EdgesState<N>,
) -> bool {
    &&& used.finite()
    &&& forall|r: N| #[trigger] used.contains(r) ==> roots.contains(r) && c.dfs.visited.contains(r)
    &&& forall|n: N|
        #![trigger c.marks.parent.dom().contains(n)]
        #![trigger c.dfs.visited.contains(n)]
        c.marks.parent.dom().contains(n) <==> c.dfs.visited.contains(n) && !used.contains(n)
    &&& forall|n: N| #[trigger]
        c.marks.parent.dom().contains(n) ==> c.dfs.visited.contains(c.marks.parent[n])
            && c.marks.discovery[c.marks.parent[n]] < c.marks.discovery[n] && edge(
            adj,
            c.marks.parent[n],
            n,
        )
    &&& forall|n: N| #[trigger] c.dfs.visited.contains(n) ==> c.marks.discovery[n] < c.marks.time
    &&& forall|n: N| #[trigger] c.dfs.visited.contains(n) ==> exists|r: N| used.contains(r)
}

/// The nodes with a finish time are the visited ones that are not open.
pub open spec fn finish_inv<N: Node>(c: EdgesState<N>) -> bool {
    forall|n: N|
        c.marks.finish.dom().contains(n) <==> c.dfs.visited.contains(n) && !c.marks.open.contains(n)
}

/// The tree edges reported lead to the nodes with a parent, to each once.
pub open spec fn targets_inv<N: Node>(c: EdgesState<N>, edges: Seq<Edge<N>>) -> bool {
    &&& tree_targets(edges).no_duplicates()
    &&& forall|n: N| tree_targets(edges).contains(n) <==> c.marks.parent.dom().contains(n)
}

/// A start node is pending only while the stack is empty.
pub open spec fn idle_inv<N: Node>(c: EdgesState<N>) -> bool {
    c.dfs.pending is Some ==> c.dfs.stack.len() == 0
}

/// What holds of every state that a classifier reaches from a new one by
/// pulls, and by new start nodes given while its stack is empty: `roots`
/// are the start nodes given, `used` those discovered as the root of a
/// tree, and `edges` the edges reported.
pub open spec fn edges_tree_inv<N: Node>(
    adj: Map<N, Seq<N>>,
    roots: Set<N>,
    used: Set<N>,
    c: EdgesState<N>,
    edges: Seq<Edge<N>>,
) -> bool {
    &&& edges_inv(adj, c)
    &&& dfs_reach_inv(adj, roots, c.dfs)
    &&& idle_inv(c)
    &&& chain_inv(c)
    &&& parent_inv(adj, roots, used, c)
    &&& finish_inv(c)
    &&& targets_inv(c, edges)
}

/// The edge that the next event of the walk reports, if it reports one.
pub open spec fn edges_emitted<N: Node>(adj: Map<N, Seq<N>>, c: EdgesState<N>) -> Option<Edge<N>> {
    match dfs_step(adj, c.dfs).1 {
        None => None,
        Some(e) => classify_event(c.marks, e).1,
    }
}

/// The roots used once the next event of the walk is recorded: one more
/// where the event is the discovery of a node without a parent.
pub open spec fn used_after<N: Node>(
    adj: Map<N, Seq<N>>,
    c: EdgesState<N>,
    used: Set<N>,
) -> Set<N> {
    match dfs_step(adj, c.dfs).1 {
        Some(DfsEvent::Discover(x, None)) => used.insert(x),
        _ => used,
    }
}

/// The roots used once the next pull is done.
pub open spec fn used_next<N: Node>(adj: Map<N, Seq<N>>, c: EdgesState<N>, used: Set<N>) -> Set<N>
    decreases dfs_budget(c.dfs),
{
    let (dfs, event) = dfs_step(adj, c.dfs);
    match event {
        None => used,
        Some(e) => {
            let (marks, edge) = classify_event(c.marks, e);
            if edge is Some {
                used_after(adj, c, used)
            } else {
                used_next(adj, EdgesState { dfs, marks }, used_after(adj, c, used))
            }
        },
    }
}

/// A new classifier is in a state of which `edges_tree_inv` holds, with
/// `start` as its one root and no root used.
pub proof fn lemma_tree_inv_init<N: Node>(adj: Map<N, Seq<N>>, start: N)
    ensures
        edges_tree_inv(adj, set![start], Set::empty(), edges_init(start), Seq::empty()),
{
    lemma_reach_inv_init(adj, start);
    let c = edges_init(start);
    assert(c.marks.discovery.dom() =~= c.dfs.visited);
    assert(forall|n: N| !on_stack(c.dfs.stack, n));
}

/// What a pull does where it discovers a node from another: the other is
/// the top of the stack, has the node as a neighbour, and the node is new.
pub proof fn lemma_discover_from<N: Node>(adj: Map<N, Seq<N>>, c: EdgesState<N>)
    requires
        dfs_inv(adj, c.dfs),
        idle_inv(c),
        dfs_step(adj, c.dfs).1 matches Some(DfsEvent::Discover(_, Some(_))),
    ensures
        ({
            let x = dfs_step(adj, c.dfs).1->0->Discover_0;
            let from = dfs_step(adj, c.dfs).1->0->Discover_1->0;
            &&& c.dfs.stack.len() > 0
            &&& c.dfs.stack.last().0 == from
            &&& c.dfs.visited.contains(from)
            &&& !c.dfs.visited.contains(x)
            &&& edge(adj, from, x)
        }),
{
    let s = c.dfs;
    let top = s.stack.len() - 1;
    let (node, rest) = s.stack.last();
    assert(s.stack[top] == s.stack.last());
    let all = neighbor_seq(adj, node);
    assert(is_suffix(rest, all));
    assert(all[all.len() - rest.len()] == rest[0]);
}

/// What a pull does where it meets an edge to a visited node: the source is
/// the top of the stack and has the target as a neighbour.
pub proof fn lemma_non_tree<N: Node>(adj: Map<N, Seq<N>>, c: EdgesState<N>)
    requires
        dfs_inv(adj, c.dfs),
        dfs_step(adj, c.dfs).1 matches Some(DfsEvent::NonTreeEdge(_, _)),
    ensures
        ({
            let u = dfs_step(adj, c.dfs).1->0->NonTreeEdge_0;
            let v = dfs_step(adj, c.dfs).1->0->NonTreeEdge_1;
            &&& c.dfs.stack.len() > 0
            &&& c.dfs.stack.last().0 == u
            &&& c.dfs.visited.contains(u)
            &&& c.dfs.visited.contains(v)
            &&& edge(adj, u, v)
        }),
{
    let s = c.dfs;
    let top = s.stack.len() - 1;
    let (node, rest) = s.stack.last();
    assert(s.stack[top] == s.stack.last());
    let all = neighbor_seq(adj, node);
    assert(is_suffix(rest, all));
    assert(all[all.len() - rest.len()] == rest[0]);
}

/// Recording an event keeps `idle_inv` and `chain_inv`.
pub proof fn lemma_advance_chain<N: Node>(adj: Map<N, Seq<N>>, c: EdgesState<N>)
    requires
        dfs_inv(adj, c.dfs),
        idle_inv(c),
        chain_inv(c),
    ensures
        idle_inv(edges_advance(adj, c)),
        chain_inv(edges_advance(adj, c)),
{
    let s = c.dfs;
    let m = c.marks;
    let t = edges_advance(adj, c);
    let (dfs, event) = dfs_step(adj, s);
    let top = s.stack.len() - 1;
    match event {
        None => {},
        Some(DfsEvent::Discover(x, None)) => {
            assert(dfs.stack.len() == 1);
        },
        Some(DfsEvent::Discover(x, Some(from))) => {
            assert(s.stack[top].0 == from);
            assert forall|j: int| 0 < j < dfs.stack.len() implies #[trigger] is_frame_link(
                t.marks.parent,
                dfs.stack,
                j,
            ) by {
                if j <= top {
                    assert(is_frame_link(m.parent, s.stack, j));
                    assert(dfs.stack[j].0 == s.stack[j].0);
                    assert(dfs.stack[j - 1].0 == s.stack[j - 1].0);
                    assert(s.visited.contains(s.stack[j].0));
                } else {
                    assert(dfs.stack[j - 1].0 == from);
                }
            }
        },
        Some(DfsEvent::Finish(x)) => {
            assert forall|j: int| 0 < j < dfs.stack.len() implies #[trigger] is_frame_link(
                t.marks.parent,
                dfs.stack,
                j,
            ) by {
                assert(is_frame_link(m.parent, s.stack, j));
                assert(dfs.stack[j] == s.stack[j]);
                assert(dfs.stack[j - 1] == s.stack[j - 1]);
            }
        },
        Some(DfsEvent::NonTreeEdge(u, v)) => {
            assert forall|j: int| 0 < j < dfs.stack.len() implies #[trigger] is_frame_link(
                t.marks.parent,
                dfs.stack,
                j,
            ) by {
                assert(is_frame_link(m.parent, s.stack, j));
                assert(dfs.stack[j].0 == s.stack[j].0);
                assert(dfs.stack[j - 1].0 == s.stack[j - 1].0);
            }
        },
    }
}

/// Recording an event keeps `parent_inv`.
pub proof fn lemma_advance_parent<N: Node>(
    adj: Map<N, Seq<N>>,
    roots: Set<N>,
    used: Set<N>,
    c: EdgesState<N>,
    edges: Seq<Edge<N>>,
)
    requires
        edges_tree_inv(adj, roots, used, c, edges),
    ensures
        parent_inv(adj, roots, used_after(adj, c, used), edges_advance(adj, c)),
{
    let s = c.dfs;
    let m = c.marks;
    let t = edges_advance(adj, c);
    let (dfs, event) = dfs_step(adj, s);
    match event {
        None => {},
        Some(DfsEvent::Discover(x, None)) => {
            assert(s.pending == Some(x));
            assert(!s.visited.contains(x));
            let after = used_after(adj, c, used);
            assert(after.contains(x));
            assert forall|n: N| #[trigger] dfs.visited.contains(n) implies t.marks.discovery[n]
                < t.marks.time by {
                if n != x {
                    assert(s.visited.contains(n));
                }
            }
            assert forall|n: N|
                t.marks.parent.dom().contains(n) <==> dfs.visited.contains(n) && !after.contains(
                    n,
                ) by {
                assert(m.parent.dom().contains(n) <==> s.visited.contains(n) && !used.contains(n));
            }
            assert forall|n: N| #[trigger] dfs.visited.contains(n) implies exists|r: N|
                after.contains(r) by {
                assert(after.contains(x));
            }
        },
        Some(DfsEvent::Discover(x, Some(from))) => {
            lemma_discover_from(adj, c);
            assert(!used.contains(x));
            assert forall|n: N|
                t.marks.parent.dom().contains(n) <==> dfs.visited.contains(n) && !used.contains(
                    n,
                ) by {
                assert(m.parent.dom().contains(n) <==> s.visited.contains(n) && !used.contains(n));
            }
            assert forall|n: N| #[trigger] t.marks.parent.dom().contains(n) implies dfs.visited.contains(
                t.marks.parent[n],
            ) && t.marks.discovery[t.marks.parent[n]] < t.marks.discovery[n] && edge(
                adj,
                t.marks.parent[n],
                n,
            ) by {
                if n != x {
                    assert(m.parent.dom().contains(n));
                    assert(s.visited.contains(m.parent[n]));
                }
            }
            assert forall|n: N| #[trigger] dfs.visited.contains(n) implies t.marks.discovery[n]
                < t.marks.time by {
                if n != x {
                    assert(s.visited.contains(n));
                }
            }
            assert forall|n: N| #[trigger] dfs.visited.contains(n) implies exists|r: N|
                used.contains(r) by {
                assert(s.visited.contains(from));
            }
        },
        Some(DfsEvent::Finish(x)) => {},
        Some(DfsEvent::NonTreeEdge(u, v)) => {},
    }
}

/// Recording an event keeps `finish_inv`.
pub proof fn lemma_advance_finish<N: Node>(
    adj: Map<N, Seq<N>>,
    roots: Set<N>,
    used: Set<N>,
    c: EdgesState<N>,
    edges: Seq<Edge<N>>,
)
    requires
        edges_tree_inv(adj, roots, used, c, edges),
    ensures
        finish_inv(edges_advance(adj, c)),
{
    let s = c.dfs;
    let m = c.marks;
    let t = edges_advance(adj, c);
    let (dfs, event) = dfs_step(adj, s);
    let top = s.stack.len() - 1;
    match event {
        None => {},
        Some(DfsEvent::Discover(x, _)) => {
            assert(!s.visited.contains(x));
        },
        Some(DfsEvent::Finish(x)) => {
            assert(s.stack[top].0 == x);
            assert(s.visited.contains(x));
        },
        Some(DfsEvent::NonTreeEdge(u, v)) => {},
    }
}

/// Recording an event keeps `targets_inv`.
pub proof fn lemma_advance_targets<N: Node>(
    adj: Map<N, Seq<N>>,
    roots: Set<N>,
    used: Set<N>,
    c: EdgesState<N>,
    edges: Seq<Edge<N>>,
)
    requires
        edges_tree_inv(adj, roots, used, c, edges),
    ensures
        targets_inv(edges_advance(adj, c), with_edge_out(edges, edges_emitted(adj, c))),
{
    let s = c.dfs;
    let m = c.marks;
    let t = edges_advance(adj, c);
    let out = edges_emitted(adj, c);
    let later = with_edge_out(edges, out);
    let (dfs, event) = dfs_step(adj, s);
    match event {
        None => {},
        Some(DfsEvent::Discover(x, None)) => {},
        Some(DfsEvent::Discover(x, Some(from))) => {
            lemma_discover_from(adj, c);
            assert(later.drop_last() =~= edges);
            assert(!m.parent.dom().contains(x));
            assert(!tree_targets(edges).contains(x));
            lemma_push_fresh(tree_targets(edges), x);
            assert(later.last() == Edge::Tree(from, x));
            assert(tree_targets(later) == tree_targets(edges).push(x));
            assert(t.marks.parent.dom() =~= m.parent.dom().insert(x));
            assert forall|n: N| tree_targets(later).contains(n) <==> t.marks.parent.dom().contains(
                n,
            ) by {
                assert(tree_targets(edges).contains(n) <==> m.parent.dom().contains(n));
            }
        },
        Some(DfsEvent::Finish(x)) => {},
        Some(DfsEvent::NonTreeEdge(u, v)) => {
            assert(later.drop_last() =~= edges);
            assert(!(later.last() is Tree));
            assert(tree_targets(later) == tree_targets(edges));
        },
    }
}

/// A back edge leads to an ancestor of its source.
pub proof fn lemma_back_edge<N: Node>(adj: Map<N, Seq<N>>, c: EdgesState<N>, u: N, v: N)
    requires
        chain_inv(c),
        c.dfs.stack.len() > 0,
        c.dfs.stack.last().0 == u,
        on_stack(c.dfs.stack, v),
    ensures
        is_ancestor(c.marks.parent, v, u),
{
    let at = choose|i: int| 0 <= i < c.dfs.stack.len() && (#[trigger] c.dfs.stack[i]).0 == v;
    lemma_chain_ancestor(c.marks.parent, c.dfs.stack, at);
}

/// The class given to an edge to a visited node is what it says.
pub proof fn lemma_law_non_tree<N: Node>(adj: Map<N, Seq<N>>, c: EdgesState<N>, u: N, v: N)
    requires
        dfs_inv(adj, c.dfs),
        dfs_step(adj, c.dfs).1 == Some(DfsEvent::NonTreeEdge(u, v)),
        chain_inv(c),
        finish_inv(c),
        forall|n: N| c.marks.open.contains(n) <==> on_stack(c.dfs.stack, n),
        c.marks.discovery.dom() == c.dfs.visited,
    ensures
        edge_law(adj, c.marks, classify(c.marks, u, v)),
{
    lemma_non_tree(adj, c);
    let m = c.marks;
    assert(m.discovery.dom().contains(u) && m.discovery.dom().contains(v));
    if m.open.contains(v) {
        assert(on_stack(c.dfs.stack, v));
        lemma_back_edge(adj, c, u, v);
    } else {
        assert(m.finish.dom().contains(v));
    }
}

/// The tree edge reported for a discovery is what its class says.
pub proof fn lemma_law_tree<N: Node>(adj: Map<N, Seq<N>>, c: EdgesState<N>, x: N, from: N)
    requires
        dfs_inv(adj, c.dfs),
        idle_inv(c),
        dfs_step(adj, c.dfs).1 == Some(DfsEvent::Discover(x, Some(from))),
    ensures
        edge_law(
            adj,
            classify_event(c.marks, DfsEvent::Discover(x, Some(from))).0,
            Edge::Tree(from, x),
        ),
{
    lemma_discover_from(adj, c);
}

/// The edge that an event reports, if any, is what its class says.
pub proof fn lemma_advance_law<N: Node>(
    adj: Map<N, Seq<N>>,
    roots: Set<N>,
    used: Set<N>,
    c: EdgesState<N>,
    edges: Seq<Edge<N>>,
)
    requires
        edges_tree_inv(adj, roots, used, c, edges),
    ensures
        edges_emitted(adj, c) matches Some(e) ==> edge_law(adj, edges_advance(adj, c).marks, e),
{
    let (dfs, event) = dfs_step(adj, c.dfs);
    match event {
        Some(DfsEvent::Discover(x, Some(from))) => {
            lemma_law_tree(adj, c, x, from);
        },
        Some(DfsEvent::NonTreeEdge(u, v)) => {
            lemma_law_non_tree(adj, c, u, v);
        },
        _ => {},
    }
}

/// Recording an event keeps `edges_tree_inv`, and the edge that the event
/// reports, if any, is what its class says.
pub proof fn lemma_tree_inv_advance<N: Node>(
    adj: Map<N, Seq<N>>,
    roots: Set<N>,
    used: Set<N>,
    c: EdgesState<N>,
    edges: Seq<Edge<N>>,
)
    requires
        edges_tree_inv(adj, roots, used, c, edges),
    ensures
        edges_tree_inv(
            adj,
            roots,
            used_after(adj, c, used),
            edges_advance(adj, c),
            with_edge_out(edges, edges_emitted(adj, c)),
        ),
        edges_emitted(adj, c) matches Some(e) ==> edge_law(adj, edges_advance(adj, c).marks, e),
{
    lemma_edges_advance_inv(adj, c);
    lemma_reach_inv_step(adj, roots, c.dfs);
    lemma_advance_chain(adj, c);
    lemma_advance_parent(adj, roots, used, c, edges);
    lemma_advance_finish(adj, roots, used, c, edges);
    lemma_advance_targets(adj, roots, used, c, edges);
    lemma_advance_law(adj, roots, used, c, edges);
}

/// A pull keeps `edges_tree_inv`, and the edge it reports, if any, is what
/// its class says: a back edge leads to an ancestor of its source, a forward
/// edge to a node discovered later, a cross edge to a finished node. A pull
/// that reports no edge leaves the walk ended.
pub proof fn law_edge_classes<N: Node>(
    adj: Map<N, Seq<N>>,
    roots: Set<N>,
    used: Set<N>,
    c: EdgesState<N>,
    edges: Seq<Edge<N>>,
)
    requires
        edges_tree_inv(adj, roots, used, c, edges),
    ensures
        edges_tree_inv(
            adj,
            roots,
            used_next(adj, c, used),
            edges_next(adj, c).0,
            with_edge_out(edges, edges_next(adj, c).1),
        ),
        edges_next(adj, c).1 matches Some(e) ==> edge_law(adj, edges_next(adj, c).0.marks, e),
        edges_next(adj, c).1 is None ==> dfs_ended(adj, edges_next(adj, c).0.dfs),
    decreases dfs_budget(c.dfs),
{
    lemma_tree_inv_advance(adj, roots, used, c, edges);
    let (dfs, event) = dfs_step(adj, c.dfs);
    match event {
        None => {},
        Some(e) => {
            let (marks, out) = classify_event(c.marks, e);
            if out is None {
                lemma_quiet_event_budget(adj, c.dfs);
                law_edge_classes(
                    adj,
                    roots,
                    used_after(adj, c, used),
                    EdgesState { dfs, marks },
                    edges,
                );
            }
        },
    }
}

/// A new start node given to a classifier whose stack is empty keeps
/// `edges_tree_inv`, with one more root.
pub proof fn law_new_start_keeps_trees<N: Node>(
    adj: Map<N, Seq<N>>,
    roots: Set<N>,
    used: Set<N>,
    c: EdgesState<N>,
    edges: Seq<Edge<N>>,
    start: N,
)
    requires
        edges_tree_inv(adj, roots, used, c, edges),
        c.dfs.pending is None,
        c.dfs.stack.len() == 0,
    ensures
        edges_tree_inv(
            adj,
            roots.insert(start),
            used,
            EdgesState { dfs: DfsState { pending: Some(start), ..c.dfs }, marks: c.marks },
            edges,
        ),
{
    lemma_reach_inv_new_start(adj, roots, c.dfs, start);
    let t = EdgesState { dfs: DfsState { pending: Some(start), ..c.dfs }, marks: c.marks };
    assert forall|n: N| t.marks.open.contains(n) <==> on_stack(t.dfs.stack, n) by {
        assert(c.marks.open.contains(n) <==> on_stack(c.dfs.stack, n));
    }
}

/// The tree edges span the forest of the walk: once the walk has ended,
/// they lead to each node that the roots reach but the roots used, to each
/// once, so they are as many as those nodes less the roots used; and each
/// leads to its node from a node that the roots reach and that was
/// discovered earlier, so they form no cycle.
pub proof fn law_tree_edges_span_forest<N: Node>(
    adj: Map<N, Seq<N>>,
    roots: Set<N>,
    used: Set<N>,
    c: EdgesState<N>,
    edges: Seq<Edge<N>>,
)
    requires
        edges_tree_inv(adj, roots, used, c, edges),
        dfs_ended(adj, c.dfs),
    ensures
        tree_targets(edges).no_duplicates(),
        tree_targets(edges).to_set() == reachable_from(adj, roots).difference(used),
        used.subset_of(reachable_from(adj, roots)),
        tree_targets(edges).len() == reachable_from(adj, roots).len() - used.len(),
        forall|n: N| #[trigger]
            tree_targets(edges).contains(n) ==> edge(adj, c.marks.parent[n], n) && reachable_from(
                adj,
                roots,
            ).contains(c.marks.parent[n]) && c.marks.discovery[c.marks.parent[n]]
                < c.marks.discovery[n],
{
    lemma_reach_inv_ended(adj, roots, c.dfs);
    let all = reachable_from(adj, roots);
    assert(all.finite());
    assert(tree_targets(edges).to_set() =~= all.difference(used));
    tree_targets(edges).unique_seq_to_set();
    assert(used.subset_of(all));
    vstd::set_lib::lemma_set_difference_len(all, used);
    assert(all.intersect(used) =~= used);
    assert forall|n: N| #[trigger] tree_targets(edges).contains(n) implies edge(
        adj,
        c.marks.parent[n],
        n,
    ) && all.contains(c.marks.parent[n]) && c.marks.discovery[c.marks.parent[n]]
        < c.marks.discovery[n] by {
        assert(c.marks.parent.dom().contains(n));
    }
}

/// A classifier after `pulls` pulls, the edges that they reported, and the
/// roots that they used.
pub open spec fn edges_run<N: Node>(adj: Map<N, Seq<N>>, c: EdgesState<N>, pulls: nat) -> (
    EdgesState<N>,
    Seq<Edge<N>>,
    Set<N>,
)
    decreases pulls,
{
    if pulls == 0 {
        (c, Seq::empty(), Set::empty())
    } else {
        let (before, edges, used) = edges_run(adj, c, (pulls - 1) as nat);
        let (after, e) = edges_next(adj, before);
        (after, with_edge_out(edges, e), used_next(adj, before, used))
    }
}

/// Every state that a new classifier reaches by pulls, with the edges and
/// the roots used up to it, meets `edges_tree_inv`.
pub proof fn lemma_edges_run_inv<N: Node>(adj: Map<N, Seq<N>>, start: N, pulls: nat)
    ensures
        edges_tree_inv(
            adj,
            set![start],
            edges_run(adj, edges_init(start), pulls).2,
            edges_run(adj, edges_init(start), pulls).0,
            edges_run(adj, edges_init(start), pulls).1,
        ),
    decreases pulls,
{
    if pulls == 0 {
        lemma_tree_inv_init(adj, start);
    } else {
        lemma_edges_run_inv(adj, start, (pulls - 1) as nat);
        let (before, edges, used) = edges_run(adj, edges_init(start), (pulls - 1) as nat);
        law_edge_classes(adj, set![start], used, before, edges);
    }
}

/// The tree edges of a walk from one start node span what it reaches: once
/// the walk has ended, they lead to each node that `start` reaches but
/// `start` itself, to each once, so they are one fewer than those nodes.
pub proof fn law_tree_edges_span<N: Node>(adj: Map<N, Seq<N>>, start: N, pulls: nat)
    requires
        dfs_ended(adj, edges_run(adj, edges_init(start), pulls).0.dfs),
    ensures
        ({
            let edges = edges_run(adj, edges_init(start), pulls).1;
            &&& tree_targets(edges).no_duplicates()
            &&& tree_targets(edges).to_set() == reachable(adj, start).remove(start)
            &&& tree_targets(edges).len() == reachable(adj, start).len() - 1
        }),
{
    let (c, edges, used) = edges_run(adj, edges_init(start), pulls);
    lemma_edges_run_inv(adj, start, pulls);
    law_tree_edges_span_forest(adj, set![start], used, c, edges);
    assert forall|n: N| reachable_from(adj, set![start]).contains(n) <==> reachable(
        adj,
        start,
    ).contains(n) by {
        if reachable_from(adj, set![start]).contains(n) {
            let a = choose|a: N| set![start].contains(a) && #[trigger] reaches(adj, a, n);
        }
        if reachable(adj, start).contains(n) {
            assert(set![start].contains(start) && reaches(adj, start, n));
        }
    }
    assert(reachable_from(adj, set![start]) =~= reachable(adj, start));
    assert(set![start].contains(start));
    assert(c.dfs.visited.contains(start));
    let r = choose|r: N| used.contains(r);
    assert(used.contains(r));
    assert(set![start].contains(r));
    assert(used =~= set![start]);
    assert(reachable(adj, start).difference(used) =~= reachable(adj, start).remove(start));
}

} // verus!
