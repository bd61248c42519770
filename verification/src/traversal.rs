use crate::graph::{edge, neighbor_seq, Graph, Node};
use std::collections::{HashMap, HashSet, VecDeque};
use vstd::prelude::*;

verus! {

/// One step of a depth-first walk.
#[derive(Debug, PartialEq, Eq)]
pub enum DfsEvent<T: Node> {
    /// A node is seen for the first time, coming from its parent if it has one.
    Discover(T, Option<T>),
    /// Every neighbour of the node has been looked at.
    Finish(T),
    /// An edge to a node that was discovered before.
    NonTreeEdge(T, T),
}

/// The state of a depth-first walk, as a mathematical value.
#[verifier::reject_recursive_types(N)]
pub struct DfsState<N> {
    /// The exploration frames, the root first: a node with the neighbours of
    /// it that have not been looked at.
    pub stack: Seq<(N, Seq<N>)>,
    /// The nodes discovered so far.
    pub visited: Set<N>,
    /// The start node that the next step takes up.
    pub pending: Option<N>,
}

/// What one pull does to a depth-first walk: the next state and the event.
pub open spec fn dfs_step<N: Node>(adj: Map<N, Seq<N>>, s: DfsState<N>) -> (
    DfsState<N>,
    Option<DfsEvent<N>>,
) {
    if s.pending is Some && !s.visited.contains(s.pending->0) {
        let root = s.pending->0;
        (
            DfsState {
                stack: s.stack.push((root, neighbor_seq(adj, root))),
                visited: s.visited.insert(root),
                pending: None,
            },
            Some(DfsEvent::Discover(root, None)),
        )
    } else if s.stack.len() == 0 {
        (DfsState { stack: s.stack, visited: s.visited, pending: None }, None)
    } else {
        let (node, rest) = s.stack.last();
        if rest.len() == 0 {
            (
                DfsState { stack: s.stack.drop_last(), visited: s.visited, pending: None },
                Some(DfsEvent::Finish(node)),
            )
        } else {
            let next = rest[0];
            let below = s.stack.drop_last().push((node, rest.skip(1)));
            if !s.visited.contains(next) {
                (
                    DfsState {
                        stack: below.push((next, neighbor_seq(adj, next))),
                        visited: s.visited.insert(next),
                        pending: None,
                    },
                    Some(DfsEvent::Discover(next, Some(node))),
                )
            } else {
                (
                    DfsState { stack: below, visited: s.visited, pending: None },
                    Some(DfsEvent::NonTreeEdge(node, next)),
                )
            }
        }
    }
}

/// The state of a walk that has not begun and will start from `start`.
pub open spec fn dfs_init<N>(start: N) -> DfsState<N> {
    DfsState { stack: Seq::empty(), visited: Set::empty(), pending: Some(start) }
}

/// `rest` is what remains of `all` after some of its first items are taken.
pub open spec fn is_suffix<N>(rest: Seq<N>, all: Seq<N>) -> bool {
    rest.len() <= all.len() && rest == all.skip(all.len() - rest.len())
}

/// What holds of every state that a depth-first walk reaches: the visited set
/// is finite, each frame holds a tail of its node's neighbours, and the nodes
/// on the stack are visited and pairwise different.
pub open spec fn dfs_inv<N: Node>(adj: Map<N, Seq<N>>, s: DfsState<N>) -> bool {
    &&& s.visited.finite()
    &&& forall|i: int|
        0 <= i < s.stack.len() ==> is_suffix(
            (#[trigger] s.stack[i]).1,
            neighbor_seq(adj, s.stack[i].0),
        )
    &&& forall|i: int| 0 <= i < s.stack.len() ==> s.visited.contains((#[trigger] s.stack[i]).0)
    &&& forall|i: int, j: int|
        0 <= i < j < s.stack.len() ==> (#[trigger] s.stack[i]).0 != (#[trigger] s.stack[j]).0
}

/// A pull keeps `dfs_inv`.
pub proof fn lemma_dfs_step_inv<N: Node>(adj: Map<N, Seq<N>>, s: DfsState<N>)
    requires
        dfs_inv(adj, s),
    ensures
        dfs_inv(adj, dfs_step(adj, s).0),
{
    let t = dfs_step(adj, s).0;
    if s.pending is Some && !s.visited.contains(s.pending->0) {
        let root = s.pending->0;
        assert(neighbor_seq(adj, root).skip(0) =~= neighbor_seq(adj, root));
        assert forall|i: int| 0 <= i < t.stack.len() implies is_suffix(
            (#[trigger] t.stack[i]).1,
            neighbor_seq(adj, t.stack[i].0),
        ) by {
            if i < s.stack.len() {
                assert(t.stack[i] == s.stack[i]);
            }
        }
        assert forall|i: int, j: int| 0 <= i < j < t.stack.len() implies (#[trigger] t.stack[i]).0
            != (#[trigger] t.stack[j]).0 by {
            assert(t.stack[i] == s.stack[i]);
            if j < s.stack.len() {
                assert(t.stack[j] == s.stack[j]);
            }
        }
    } else if s.stack.len() == 0 {
    } else {
        let (node, rest) = s.stack.last();
        let top = s.stack.len() - 1;
        assert(s.stack[top] == s.stack.last());
        if rest.len() == 0 {
            assert forall|i: int| 0 <= i < t.stack.len() implies t.stack[i] == s.stack[i] by {}
        } else {
            let next = rest[0];
            let all = neighbor_seq(adj, node);
            assert(rest.skip(1) =~= all.skip(all.len() - (rest.len() - 1)));
            assert(neighbor_seq(adj, next).skip(0) =~= neighbor_seq(adj, next));
            assert forall|i: int| 0 <= i < top implies t.stack[i] == s.stack[i] by {}
            assert(t.stack[top] == (node, rest.skip(1)));
            assert forall|i: int, j: int| 0 <= i < j < t.stack.len() implies (
            #[trigger] t.stack[i]).0 != (#[trigger] t.stack[j]).0 by {
                if j <= top {
                    assert(t.stack[i].0 == s.stack[i].0);
                    assert(t.stack[j].0 == s.stack[j].0);
                } else {
                    assert(t.stack[i].0 == s.stack[i].0);
                }
            }
        }
    }
}

/// An exploration frame: a node, its neighbours, and how many of them have
/// been looked at.
struct Frame<N: Node> {
    node: N,
    neighbors: Vec<N>,
    cursor: usize,
}

impl<N: Node> Frame<N> {
    spec fn model(self) -> (N, Seq<N>) {
        (self.node, self.neighbors@.skip(self.cursor as int))
    }
}

/// A depth-first walk over a graph, advanced one event per pull.
pub struct DfsIter<'a, N: Node, G: Graph<N>> {
    graph: &'a G,
    stack: Vec<Frame<N>>,
    visited: HashSet<N>,
    start_node: Option<N>,
}

impl<'a, N: Node, G: Graph<N>> DfsIter<'a, N, G> {
    /// The walk is in a state that pulls from a new walk can reach.
    pub closed spec fn wf(self) -> bool {
        &&& forall|i: int|
            0 <= i < self.stack@.len() ==> (#[trigger] self.stack@[i]).cursor
                <= self.stack@[i].neighbors@.len()
        &&& dfs_inv(self.graph.adj(), self@)
    }

    /// A well-formed walk is in a state of which `dfs_inv` holds.
    pub proof fn lemma_inv(self)
        requires
            self.wf(),
        ensures
            dfs_inv(self.adj(), self@),
    {
    }

    /// The adjacency of the graph that is walked.
    pub closed spec fn adj(self) -> Map<N, Seq<N>> {
        self.graph.adj()
    }

    pub closed spec fn view(self) -> DfsState<N> {
        DfsState {
            stack: self.stack@.map_values(|f: Frame<N>| f.model()),
            visited: self.visited@,
            pending: self.start_node,
        }
    }

    /// A walk that has not begun: the first pull discovers `start`.
    pub fn new(graph: &'a G, start: N) -> (it: Self)
        ensures
            it.wf(),
            it.adj() == graph.adj(),
            it@ == dfs_init(start),
    {
        let it = Self {
            graph,
            stack: Vec::new(),
            visited: HashSet::new(),
            start_node: Some(start),
        };
        assert(it@.stack =~= Seq::empty());
        it
    }

    /// Queues another start node for the next pull; what was visited stays so.
    pub fn new_start(&mut self, start: N)
        requires
            old(self).wf(),
        ensures
            final(self).wf(),
            final(self).adj() == old(self).adj(),
            final(self)@ == (DfsState { pending: Some(start), ..old(self)@ }),
    {
        self.start_node = Some(start);
    }

    /// Advances the walk by one event; `None` once the stack is empty and no
    /// start node is pending.
    pub fn next(&mut self) -> (event: Option<DfsEvent<N>>)
        requires
            old(self).wf(),
        ensures
            final(self).wf(),
            final(self).adj() == old(self).adj(),
            (final(self)@, event) == dfs_step(old(self).adj(), old(self)@),
    {
        proof {
            N::lemma_hashable();
            broadcast use vstd::std_specs::hash::group_hash_axioms;

        }
        let ghost adj = self.adj();
        let ghost before = self@;
        proof {
            lemma_dfs_step_inv(adj, before);
        }
        let pending = self.start_node;
        self.start_node = None;
        if let Some(root) = pending {
            if self.visited.insert(root) {
                let neighbors = self.graph.neighbors(root);
                self.stack.push(Frame { node: root, neighbors, cursor: 0 });
                proof {
                    assert(neighbors@.skip(0) =~= neighbors@);
                    assert(self@.stack =~= before.stack.push((root, neighbor_seq(adj, root))));
                }
                return Some(DfsEvent::Discover(root, None));
            }
        }
        assert(self.visited@ == before.visited);
        assert(self@.stack == before.stack);
        match self.stack.pop() {
            None => {
                assert(self@.stack =~= before.stack);
                None
            },
            Some(frame) => {
                let node = frame.node;
                assert(frame == old(self).stack@[old(self).stack@.len() - 1]);
                assert(before.stack.last() == frame.model());
                assert(self@.stack =~= before.stack.drop_last());
                if frame.cursor < frame.neighbors.len() {
                    let next = frame.neighbors[frame.cursor];
                    let ghost rest = frame.model().1;
                    let moved = Frame {
                        node,
                        neighbors: frame.neighbors,
                        cursor: frame.cursor + 1,
                    };
                    proof {
                        assert(rest[0] == next);
                        assert(moved.model().1 =~= rest.skip(1));
                    }
                    self.stack.push(moved);
                    let ghost below = before.stack.drop_last().push((node, rest.skip(1)));
                    assert(self@.stack =~= below);
                    if self.visited.insert(next) {
                        let neighbors = self.graph.neighbors(next);
                        self.stack.push(Frame { node: next, neighbors, cursor: 0 });
                        proof {
                            assert(neighbors@.skip(0) =~= neighbors@);
                            assert(self@.stack =~= below.push((next, neighbor_seq(adj, next))));
                        }
                        Some(DfsEvent::Discover(next, Some(node)))
                    } else {
                        assert(self.visited@ =~= before.visited);
                        Some(DfsEvent::NonTreeEdge(node, next))
                    }
                } else {
                    assert(frame.model().1.len() == 0);
                    Some(DfsEvent::Finish(node))
                }
            },
        }
    }
}

/// One entry of the batch that a breadth-first pull returns.
#[derive(Debug, PartialEq, Eq)]
pub enum BfsEvent<N: Node> {
    /// The node taken from the queue, with the nodes first seen from it.
    Discover(N, Vec<N>),
    /// An edge to a node that was seen before and whose recorded parent is
    /// not the node taken from the queue.
    CrossEdge(N, N),
}

/// A `BfsEvent` as a mathematical value.
#[verifier::reject_recursive_types(N)]
pub enum BfsEventModel<N> {
    Discover(N, Seq<N>),
    CrossEdge(N, N),
}

impl<N: Node> View for BfsEvent<N> {
    type V = BfsEventModel<N>;

    open spec fn view(&self) -> BfsEventModel<N> {
        match *self {
            BfsEvent::Discover(n, children) => BfsEventModel::Discover(n, children@),
            BfsEvent::CrossEdge(n, m) => BfsEventModel::CrossEdge(n, m),
        }
    }
}

/// The state of a breadth-first walk, as a mathematical value.
#[verifier::reject_recursive_types(N)]
pub struct BfsState<N> {
    /// The nodes seen and not yet taken up, the oldest first.
    pub queue: Seq<N>,
    /// The nodes seen so far.
    pub visited: Set<N>,
    /// For each node seen, the node it was first seen from; `None` for the start.
    pub parent: Map<N, Option<N>>,
}

/// A breadth-first pull in progress: the state, the children collected and
/// the cross edges reported so far.
#[verifier::reject_recursive_types(N)]
pub struct BfsScan<N> {
    pub state: BfsState<N>,
    pub children: Seq<N>,
    pub cross: Seq<BfsEventModel<N>>,
}

/// The parent recorded for `n`, if any.
pub open spec fn recorded_parent<N>(parent: Map<N, Option<N>>, n: N) -> Option<N> {
    if parent.dom().contains(n) {
        parent[n]
    } else {
        None
    }
}

/// The pull that took `node` from the queue, after it has looked at the first
/// `k` of the neighbours `nbrs`; `s` is the state after `node` left the queue.
pub open spec fn bfs_scan<N>(s: BfsState<N>, node: N, nbrs: Seq<N>, k: int) -> BfsScan<N>
    decreases k,
{
    if k <= 0 {
        BfsScan { state: s, children: Seq::empty(), cross: Seq::empty() }
    } else {
        let prev = bfs_scan(s, node, nbrs, k - 1);
        let n = nbrs[k - 1];
        if !prev.state.visited.contains(n) {
            BfsScan {
                state: BfsState {
                    queue: prev.state.queue.push(n),
                    visited: prev.state.visited.insert(n),
                    parent: prev.state.parent.insert(n, Some(node)),
                },
                children: prev.children.push(n),
                cross: prev.cross,
            }
        } else if recorded_parent(prev.state.parent, n) != Some(node) {
            BfsScan { cross: prev.cross.push(BfsEventModel::CrossEdge(node, n)), ..prev }
        } else {
            prev
        }
    }
}

/// What one pull does to a breadth-first walk: the next state and the batch,
/// the cross edges first and the discovery last. An empty queue ends the walk.
pub open spec fn bfs_step<N>(adj: Map<N, Seq<N>>, s: BfsState<N>) -> (
    BfsState<N>,
    Option<Seq<BfsEventModel<N>>>,
) {
    if s.queue.len() == 0 {
        (s, None)
    } else {
        let node = s.queue[0];
        let nbrs = neighbor_seq(adj, node);
        let after = BfsState { queue: s.queue.skip(1), ..s };
        let scan = bfs_scan(after, node, nbrs, nbrs.len() as int);
        (scan.state, Some(scan.cross.push(BfsEventModel::Discover(node, scan.children))))
    }
}

/// The state in which a breadth-first walk from `start` begins.
pub open spec fn bfs_init<N>(start: N) -> BfsState<N> {
    BfsState {
        queue: seq![start],
        visited: set![start],
        parent: map![start => None::<N>],
    }
}

/// A breadth-first walk over a graph; each pull takes one node from the queue.
pub struct BfsIter<'a, N: Node, G: Graph<N>> {
    graph: &'a G,
    queue: VecDeque<N>,
    visited: HashSet<N>,
    parent: HashMap<N, Option<N>>,
}

impl<'a, N: Node, G: Graph<N>> BfsIter<'a, N, G> {
    /// The adjacency of the graph that is walked.
    pub closed spec fn adj(self) -> Map<N, Seq<N>> {
        self.graph.adj()
    }

    pub closed spec fn view(self) -> BfsState<N> {
        BfsState { queue: self.queue@, visited: self.visited@, parent: self.parent@ }
    }

    /// A walk whose first pull takes up `start`.
    pub fn new(graph: &'a G, start: N) -> (it: Self)
        ensures
            it.adj() == graph.adj(),
            it@ == bfs_init(start),
    {
        proof {
            N::lemma_hashable();
            broadcast use vstd::std_specs::hash::group_hash_axioms;

        }
        let mut visited = HashSet::new();
        visited.insert(start);
        let mut parent: HashMap<N, Option<N>> = HashMap::new();
        parent.insert(start, None);
        let mut queue = VecDeque::new();
        queue.push_back(start);
        let it = Self { graph, queue, visited, parent };
        proof {
            assert(it@.queue =~= seq![start]);
            assert(it@.visited =~= set![start]);
            assert(it@.parent =~= map![start => None::<N>]);
        }
        it
    }

    /// Takes the oldest node from the queue and looks at each of its
    /// neighbours once; `None` once the queue is empty.
    pub fn next(&mut self) -> (batch: Option<Vec<BfsEvent<N>>>)
        ensures
            final(self).adj() == old(self).adj(),
            final(self)@ == bfs_step(old(self).adj(), old(self)@).0,
            batch is Some == bfs_step(old(self).adj(), old(self)@).1 is Some,
            batch is Some ==> batch->0@.map_values(|e: BfsEvent<N>| e@) == bfs_step(
                old(self).adj(),
                old(self)@,
            ).1->0,
    {
        proof {
            N::lemma_hashable();
            broadcast use vstd::std_specs::hash::group_hash_axioms;

        }
        let ghost adj = self.adj();
        let ghost before = self@;
        let node = match self.queue.pop_front() {
            None => {
                assert(self@.queue =~= before.queue);
                return None;
            },
            Some(node) => node,
        };
        let mut children: Vec<N> = Vec::new();
        let mut events: Vec<BfsEvent<N>> = Vec::new();
        let neighbors = self.graph.neighbors(node);
        let ghost s0 = self@;
        assert(s0.queue =~= before.queue.skip(1));
        let ghost nbrs = neighbors@;
        assert(children@ =~= Seq::empty());
        assert(events@.map_values(|e: BfsEvent<N>| e@) =~= Seq::empty());
        let mut i: usize = 0;
        while i < neighbors.len()
            invariant
                i <= neighbors.len(),
                neighbors@ == nbrs,
                self.adj() == adj,
                vstd::std_specs::hash::obeys_key_model::<N>(),
                bfs_scan(s0, node, nbrs, i as int) == (BfsScan {
                    state: self@,
                    children: children@,
                    cross: events@.map_values(|e: BfsEvent<N>| e@),
                }),
            decreases neighbors.len() - i,
        {
            broadcast use vstd::std_specs::hash::group_hash_axioms;

            let n = neighbors[i];
            let ghost prev = bfs_scan(s0, node, nbrs, i as int);
            let ghost evs = events@.map_values(|e: BfsEvent<N>| e@);
            if self.visited.insert(n) {
                self.queue.push_back(n);
                self.parent.insert(n, Some(node));
                children.push(n);
            } else {
                assert(self.visited@ =~= prev.state.visited);
                let known = match self.parent.get(&n) {
                    Some(p) => *p,
                    None => None,
                };
                assert(known == recorded_parent(prev.state.parent, n));
                let is_parent = match known {
                    Some(p) => p.same(&node),
                    None => false,
                };
                if !is_parent {
                    events.push(BfsEvent::CrossEdge(node, n));
                    assert(events@.map_values(|e: BfsEvent<N>| e@) =~= evs.push(
                        BfsEventModel::CrossEdge(node, n),
                    ));
                }
            }
            i += 1;
        }
        let ghost scan = bfs_scan(s0, node, nbrs, nbrs.len() as int);
        let ghost evs = events@.map_values(|e: BfsEvent<N>| e@);
        events.push(BfsEvent::Discover(node, children));
        assert(events@.map_values(|e: BfsEvent<N>| e@) =~= evs.push(
            BfsEventModel::Discover(node, scan.children),
        ));
        Some(events)
    }
}

/// An edge of the graph, by the part it plays in a depth-first walk.
#[derive(Debug, PartialEq, Eq)]
pub enum Edge<N: Node> {
    /// The edge by which a node is discovered.
    Tree(N, N),
    /// An edge to a node that is still on the stack.
    Back(N, N),
    /// An edge to the node from which its source was discovered.
    ParentBack(N, N),
    /// An edge to a finished node that was discovered after the source.
    Forward(N, N),
    /// Any other edge to a finished node.
    Cross(N, N),
}

/// What the edge classifier records beside the walk it drives.
#[verifier::reject_recursive_types(N)]
pub struct Marks<N> {
    /// The logical clock: the number of discoveries and finishes so far.
    pub time: nat,
    /// When each node was discovered.
    pub discovery: Map<N, nat>,
    /// When each node was finished.
    pub finish: Map<N, nat>,
    /// The node from which each node but a root was discovered.
    pub parent: Map<N, N>,
    /// The nodes discovered and not yet finished.
    pub open: Set<N>,
}

/// The state of an edge classifier, as a mathematical value.
#[verifier::reject_recursive_types(N)]
pub struct EdgesState<N> {
    pub dfs: DfsState<N>,
    pub marks: Marks<N>,
}

/// The class of an edge `from -> to` that leads to a node discovered before.
pub open spec fn classify<N: Node>(m: Marks<N>, from: N, to: N) -> Edge<N> {
    if m.open.contains(to) {
        if m.parent.dom().contains(from) && m.parent[from] == to {
            Edge::ParentBack(from, to)
        } else {
            Edge::Back(from, to)
        }
    } else if m.discovery.dom().contains(from) && m.discovery.dom().contains(to)
        && m.discovery[from] < m.discovery[to] {
        Edge::Forward(from, to)
    } else {
        Edge::Cross(from, to)
    }
}

/// What one event of the walk does to the records, and the edge it reports.
pub open spec fn classify_event<N: Node>(m: Marks<N>, event: DfsEvent<N>) -> (
    Marks<N>,
    Option<Edge<N>>,
) {
    match event {
        DfsEvent::Discover(node, from) => (
            Marks {
                time: m.time + 1,
                discovery: m.discovery.insert(node, m.time),
                finish: m.finish,
                parent: if from is Some {
                    m.parent.insert(node, from->0)
                } else {
                    m.parent
                },
                open: m.open.insert(node),
            },
            if from is Some {
                Some(Edge::Tree(from->0, node))
            } else {
                None
            },
        ),
        DfsEvent::Finish(node) => (
            Marks {
                time: m.time + 1,
                discovery: m.discovery,
                finish: m.finish.insert(node, m.time),
                parent: m.parent,
                open: m.open.remove(node),
            },
            None,
        ),
        DfsEvent::NonTreeEdge(from, to) => (m, Some(classify(m, from, to))),
    }
}

/// The state of an edge classifier whose walk has not begun.
pub open spec fn edges_init<N>(start: N) -> EdgesState<N> {
    EdgesState {
        dfs: dfs_init(start),
        marks: Marks {
            time: 0,
            discovery: Map::empty(),
            finish: Map::empty(),
            parent: Map::empty(),
            open: Set::empty(),
        },
    }
}

/// A bound on the number of pulls that report no edge before one that does:
/// two for a pending start, one for each frame.
pub open spec fn dfs_budget<N>(s: DfsState<N>) -> nat {
    s.stack.len() + if s.pending is Some {
        2nat
    } else {
        0nat
    }
}

/// What one pull does to an edge classifier: it drives the walk until an
/// event reports an edge, or the walk ends.
pub open spec fn edges_next<N: Node>(adj: Map<N, Seq<N>>, c: EdgesState<N>) -> (
    EdgesState<N>,
    Option<Edge<N>>,
)
    decreases dfs_budget(c.dfs),
{
    let (dfs, event) = dfs_step(adj, c.dfs);
    match event {
        None => (EdgesState { dfs, marks: c.marks }, None),
        Some(e) => {
            let (marks, edge) = classify_event(c.marks, e);
            if edge is Some {
                (EdgesState { dfs, marks }, edge)
            } else {
                edges_next(adj, EdgesState { dfs, marks })
            }
        },
    }
}

/// An event that reports no edge takes a frame from the stack or takes up
/// the pending start: the budget goes down.
pub proof fn lemma_quiet_event_budget<N: Node>(adj: Map<N, Seq<N>>, s: DfsState<N>)
    requires
        dfs_step(adj, s).1 is Some,
        !(dfs_step(adj, s).1->0 is NonTreeEdge),
        !(dfs_step(adj, s).1->0 matches DfsEvent::Discover(_, Some(_))),
    ensures
        dfs_budget(dfs_step(adj, s).0) < dfs_budget(s),
{
}

/// `n` is the node of a frame of the stack.
pub open spec fn on_stack<N>(stack: Seq<(N, Seq<N>)>, n: N) -> bool {
    exists|i: int| 0 <= i < stack.len() && (#[trigger] stack[i]).0 == n
}

/// What holds of every state that an edge classifier reaches.
pub open spec fn edges_inv<N: Node>(adj: Map<N, Seq<N>>, c: EdgesState<N>) -> bool {
    &&& dfs_inv(adj, c.dfs)
    &&& forall|n: N| c.marks.open.contains(n) <==> on_stack(c.dfs.stack, n)
    &&& c.marks.discovery.dom() == c.dfs.visited
    &&& c.marks.finish.dom().finite()
    &&& forall|n: N| #[trigger]
        c.marks.finish.dom().contains(n) ==> c.dfs.visited.contains(n) && !c.marks.open.contains(n)
    &&& c.marks.time == c.marks.discovery.dom().len() + c.marks.finish.dom().len()
}

/// The state after the next event of the walk has been recorded.
pub open spec fn edges_advance<N: Node>(adj: Map<N, Seq<N>>, c: EdgesState<N>) -> EdgesState<N> {
    let (dfs, event) = dfs_step(adj, c.dfs);
    match event {
        None => EdgesState { dfs, marks: c.marks },
        Some(e) => EdgesState { dfs, marks: classify_event(c.marks, e).0 },
    }
}

/// Recording an event keeps `edges_inv`.
pub proof fn lemma_edges_advance_inv<N: Node>(adj: Map<N, Seq<N>>, c: EdgesState<N>)
    requires
        edges_inv(adj, c),
    ensures
        edges_inv(adj, edges_advance(adj, c)),
{
    let s = c.dfs;
    let m = c.marks;
    let t = edges_advance(adj, c);
    lemma_dfs_step_inv(adj, s);
    let (dfs, event) = dfs_step(adj, s);
    match event {
        None => {},
        Some(DfsEvent::Discover(node, from)) => {
            assert(!s.visited.contains(node));
            assert(dfs.stack.drop_last().len() == s.stack.len());
            assert forall|i: int| 0 <= i < s.stack.len() implies (#[trigger] dfs.stack[i]).0
                == s.stack[i].0 by {}
            assert(dfs.stack[s.stack.len() as int].0 == node);
            assert forall|n: N| t.marks.open.contains(n) <==> on_stack(dfs.stack, n) by {
                if on_stack(s.stack, n) {
                    let i = choose|i: int| 0 <= i < s.stack.len() && (#[trigger] s.stack[i]).0 == n;
                    assert(dfs.stack[i].0 == n);
                }
                if on_stack(dfs.stack, n) && n != node {
                    let i = choose|i: int|
                        0 <= i < dfs.stack.len() && (#[trigger] dfs.stack[i]).0 == n;
                    assert(s.stack[i].0 == n);
                }
            }
            assert(t.marks.discovery.dom() =~= dfs.visited);
        },
        Some(DfsEvent::Finish(node)) => {
            let top = s.stack.len() - 1;
            assert(s.stack[top].0 == node);
            assert(on_stack(s.stack, node));
            assert forall|n: N| t.marks.open.contains(n) <==> on_stack(dfs.stack, n) by {
                if on_stack(dfs.stack, n) {
                    let i = choose|i: int|
                        0 <= i < dfs.stack.len() && (#[trigger] dfs.stack[i]).0 == n;
                    assert(s.stack[i].0 == n);
                    assert(s.stack[i].0 != s.stack[top].0);
                }
                if on_stack(s.stack, n) && n != node {
                    let i = choose|i: int| 0 <= i < s.stack.len() && (#[trigger] s.stack[i]).0 == n;
                    assert(dfs.stack[i].0 == n);
                }
            }
            assert(!m.finish.dom().contains(node));
        },
        Some(DfsEvent::NonTreeEdge(from, to)) => {
            let top = s.stack.len() - 1;
            assert forall|i: int| 0 <= i < s.stack.len() implies (#[trigger] dfs.stack[i]).0
                == s.stack[i].0 by {}
            assert forall|n: N| t.marks.open.contains(n) <==> on_stack(dfs.stack, n) by {
                if on_stack(s.stack, n) {
                    let i = choose|i: int| 0 <= i < s.stack.len() && (#[trigger] s.stack[i]).0 == n;
                    assert(dfs.stack[i].0 == n);
                }
                if on_stack(dfs.stack, n) {
                    let i = choose|i: int|
                        0 <= i < dfs.stack.len() && (#[trigger] dfs.stack[i]).0 == n;
                    assert(s.stack[i].0 == n);
                }
            }
        },
    }
}

/// An edge classifier: it drives a depth-first walk of its own and reports
/// each edge that the walk meets, with its class.
pub struct DfsEdgesIter<'a, N: Node, G: Graph<N>> {
    iter: DfsIter<'a, N, G>,
    time: u128,
    discovery: HashMap<N, u128>,
    finish: HashMap<N, u128>,
    parent: HashMap<N, N>,
    stack_hash: HashSet<N>,
}

impl<'a, N: Node, G: Graph<N>> DfsEdgesIter<'a, N, G> {
    /// The adjacency of the graph that is walked.
    pub closed spec fn adj(self) -> Map<N, Seq<N>> {
        self.iter.adj()
    }

    pub closed spec fn view(self) -> EdgesState<N> {
        EdgesState {
            dfs: self.iter@,
            marks: Marks {
                time: self.time as nat,
                discovery: self.discovery@.map_values(|t: u128| t as nat),
                finish: self.finish@.map_values(|t: u128| t as nat),
                parent: self.parent@,
                open: self.stack_hash@,
            },
        }
    }

    /// The classifier is in a state that pulls from a new one can reach.
    pub closed spec fn wf(self) -> bool {
        &&& self.iter.wf()
        &&& edges_inv(self.iter.adj(), self@)
    }

    /// A well-formed classifier is in a state of which `edges_inv` holds.
    pub proof fn lemma_inv(self)
        requires
            self.wf(),
        ensures
            edges_inv(self.adj(), self@),
    {
    }

    /// A classifier whose walk has not begun: the first pull discovers `start`.
    pub fn new(graph: &'a G, start: N) -> (it: Self)
        ensures
            it.wf(),
            it.adj() == graph.adj(),
            it@ == edges_init(start),
    {
        proof {
            N::lemma_hashable();
            broadcast use vstd::std_specs::hash::group_hash_axioms;

        }
        let it = Self {
            iter: DfsIter::new(graph, start),
            time: 0,
            discovery: HashMap::new(),
            finish: HashMap::new(),
            parent: HashMap::new(),
            stack_hash: HashSet::new(),
        };
        proof {
            assert(it@.marks.discovery =~= Map::empty());
            assert(it@.marks.finish =~= Map::empty());
            assert(it@.marks.discovery.dom() =~= it@.dfs.visited);
        }
        it
    }

    /// Queues another start node for the walk; what was recorded stays.
    pub fn new_start(&mut self, start: N)
        requires
            old(self).wf(),
        ensures
            final(self).wf(),
            final(self).adj() == old(self).adj(),
            final(self)@ == (EdgesState {
                dfs: DfsState { pending: Some(start), ..old(self)@.dfs },
                marks: old(self)@.marks,
            }),
    {
        self.iter.new_start(start);
    }

    /// Drives the walk to the next edge and reports it with its class; `None`
    /// once the walk has ended.
    pub fn next(&mut self) -> (edge: Option<Edge<N>>)
        requires
            old(self).wf(),
        ensures
            final(self).wf(),
            final(self).adj() == old(self).adj(),
            (final(self)@, edge) == edges_next(old(self).adj(), old(self)@),
    {
        proof {
            N::lemma_hashable();
        }
        let ghost adj = self.adj();
        loop
            invariant
                self.wf(),
                self.adj() == adj,
                old(self).adj() == adj,
                vstd::std_specs::hash::obeys_key_model::<N>(),
                edges_next(adj, self@) == edges_next(adj, old(self)@),
            decreases dfs_budget(self@.dfs),
        {
            broadcast use vstd::std_specs::hash::group_hash_axioms;

            let ghost c = self@;
            proof {
                lemma_edges_advance_inv(adj, c);
            }
            match self.iter.next() {
                None => {
                    return None;
                },
                Some(DfsEvent::Discover(node, maybe_parent)) => {
                    let discovered = self.discovery.len();
                    let finished = self.finish.len();
                    proof {
                        assert(c.marks.discovery.dom() =~= self.discovery@.dom());
                        assert(c.marks.finish.dom() =~= self.finish@.dom());
                        assert(self.time == discovered + finished);
                    }
                    self.stack_hash.insert(node);
                    self.discovery.insert(node, self.time);
                    self.time += 1;
                    proof {
                        assert(self@.marks.discovery =~= c.marks.discovery.insert(
                            node,
                            c.marks.time,
                        ));
                        assert(self@.marks.finish =~= c.marks.finish);
                    }
                    match maybe_parent {
                        Some(from) => {
                            self.parent.insert(node, from);
                            return Some(Edge::Tree(from, node));
                        },
                        None => {
                            proof {
                                lemma_quiet_event_budget(adj, c.dfs);
                            }
                        },
                    }
                },
                Some(DfsEvent::Finish(node)) => {
                    let discovered = self.discovery.len();
                    let finished = self.finish.len();
                    proof {
                        assert(c.marks.discovery.dom() =~= self.discovery@.dom());
                        assert(c.marks.finish.dom() =~= self.finish@.dom());
                        assert(self.time == discovered + finished);
                    }
                    self.stack_hash.remove(&node);
                    self.finish.insert(node, self.time);
                    self.time += 1;
                    proof {
                        assert(self@.marks.finish =~= c.marks.finish.insert(node, c.marks.time));
                        assert(self@.marks.discovery =~= c.marks.discovery);
                        lemma_quiet_event_budget(adj, c.dfs);
                    }
                },
                Some(DfsEvent::NonTreeEdge(node, neighbor)) => {
                    if self.stack_hash.contains(&neighbor) {
                        let from_parent = match self.parent.get(&node) {
                            Some(p) => p.same(&neighbor),
                            None => false,
                        };
                        if from_parent {
                            return Some(Edge::ParentBack(node, neighbor));
                        } else {
                            return Some(Edge::Back(node, neighbor));
                        }
                    } else {
                        let forward = match self.discovery.get(&node) {
                            Some(t1) => match self.discovery.get(&neighbor) {
                                Some(t2) => *t1 < *t2,
                                None => false,
                            },
                            None => false,
                        };
                        if forward {
                            return Some(Edge::Forward(node, neighbor));
                        } else {
                            return Some(Edge::Cross(node, neighbor));
                        }
                    }
                },
            }
        }
    }
}

/// The nodes that the graph holds or names as a neighbour.
pub open spec fn vertices<N>(adj: Map<N, Seq<N>>) -> Set<N> {
    adj.dom().union(targets(adj, adj.dom()))
}

/// The nodes that some node of `from` has as a neighbour.
pub open spec fn targets<N>(adj: Map<N, Seq<N>>, from: Set<N>) -> Set<N> {
    Set::new(|n: N| exists|m: N| #[trigger] from.contains(m) && edge(adj, m, n))
}

/// The neighbours of finitely many nodes are finitely many.
pub proof fn lemma_targets_finite<N>(adj: Map<N, Seq<N>>, from: Set<N>)
    requires
        from.finite(),
    ensures
        targets(adj, from).finite(),
    decreases from.len(),
{
    if from.len() == 0 {
        assert(targets(adj, from) =~= Set::empty());
    } else {
        let x = from.choose();
        let rest = from.remove(x);
        lemma_targets_finite(adj, rest);
        let here = neighbor_seq(adj, x).to_set();
        vstd::seq_lib::seq_to_set_is_finite(neighbor_seq(adj, x));
        assert forall|n: N| targets(adj, from).contains(n) <==> targets(adj, rest).union(
            here,
        ).contains(n) by {
            if targets(adj, from).contains(n) {
                let m = choose|m: N| #[trigger] from.contains(m) && edge(adj, m, n);
                if m != x {
                    assert(rest.contains(m));
                }
            }
            if targets(adj, rest).contains(n) {
                let m = choose|m: N| #[trigger] rest.contains(m) && edge(adj, m, n);
                assert(from.contains(m));
            }
            if here.contains(n) {
                assert(from.contains(x) && edge(adj, x, n));
            }
        }
        assert(targets(adj, from) =~= targets(adj, rest).union(here));
    }
}

/// A graph with finitely many nodes has finitely many vertices.
pub proof fn lemma_vertices_finite<N>(adj: Map<N, Seq<N>>)
    requires
        adj.dom().finite(),
    ensures
        vertices(adj).finite(),
{
    lemma_targets_finite(adj, adj.dom());
}

/// The vertices that a walk has not discovered.
pub open spec fn unseen<N>(adj: Map<N, Seq<N>>, s: DfsState<N>) -> Set<N> {
    vertices(adj).difference(s.visited)
}

/// The number of frames and of the neighbours that they still hold.
pub open spec fn frames_total<N>(stack: Seq<(N, Seq<N>)>) -> nat
    decreases stack.len(),
{
    if stack.len() == 0 {
        0
    } else {
        frames_total(stack.drop_last()) + stack.last().1.len() + 1
    }
}

/// One if a start node is pending, else zero.
pub open spec fn pending_count<N>(s: DfsState<N>) -> nat {
    if s.pending is Some {
        1
    } else {
        0
    }
}

/// `(a1, b1, c1)` comes before `(a0, b0, c0)` in the lexicographic order.
pub open spec fn lex_less(a1: nat, b1: nat, c1: nat, a0: nat, b0: nat, c0: nat) -> bool {
    a1 < a0 || (a1 == a0 && (b1 < b0 || (b1 == b0 && c1 < c0)))
}

/// Every pull that yields an event brings the walk nearer to its end: it
/// discovers a vertex, or takes up the pending start, or uses up a frame or
/// one of its neighbours.
pub proof fn lemma_dfs_step_measure<N: Node>(adj: Map<N, Seq<N>>, s: DfsState<N>)
    requires
        adj.dom().finite(),
        dfs_inv(adj, s),
        dfs_step(adj, s).1 is Some,
    ensures
        lex_less(
            unseen(adj, dfs_step(adj, s).0).len(),
            pending_count(dfs_step(adj, s).0),
            frames_total(dfs_step(adj, s).0.stack),
            unseen(adj, s).len(),
            pending_count(s),
            frames_total(s.stack),
        ),
{
    lemma_vertices_finite(adj);
    let t = dfs_step(adj, s).0;
    if s.pending is Some && !s.visited.contains(s.pending->0) {
        let root = s.pending->0;
        assert(unseen(adj, t) =~= unseen(adj, s).remove(root));
    } else {
        let (node, rest) = s.stack.last();
        let top = s.stack.len() - 1;
        assert(s.stack[top] == s.stack.last());
        if rest.len() == 0 {
            assert(t.stack == s.stack.drop_last());
            assert(unseen(adj, t) =~= unseen(adj, s));
        } else {
            let next = rest[0];
            let below = s.stack.drop_last().push((node, rest.skip(1)));
            assert(below.drop_last() =~= s.stack.drop_last());
            assert(frames_total(below) == frames_total(s.stack) - 1);
            if !s.visited.contains(next) {
                let all = neighbor_seq(adj, node);
                assert(is_suffix(rest, all));
                assert(all[all.len() - rest.len()] == next);
                assert(edge(adj, node, next));
                assert(adj.dom().contains(node));
                assert(targets(adj, adj.dom()).contains(next));
                assert(unseen(adj, s).contains(next));
                assert(unseen(adj, t) =~= unseen(adj, s).remove(next));
            } else {
                assert(unseen(adj, t) =~= unseen(adj, s));
            }
        }
    }
}

/// What the component extractor records beside the walk it drives.
#[verifier::reject_recursive_types(N)]
pub struct LowMarks<N> {
    /// The number of discoveries so far.
    pub time: nat,
    /// When each node was discovered.
    pub discovery: Map<N, nat>,
    /// The low-link value of each node: the earliest discovery that its
    /// finished subtree reaches by one edge outside the tree.
    pub lowpt: Map<N, nat>,
    /// The node from which each node but a root was discovered.
    pub parents: Map<N, N>,
    /// The edges walked and not yet given out in a component, the oldest first.
    pub edge_stack: Seq<(N, N)>,
}

/// The state of a component extractor, as a mathematical value.
#[verifier::reject_recursive_types(N)]
pub struct ComponentsState<N> {
    pub dfs: DfsState<N>,
    pub marks: LowMarks<N>,
}

/// The smaller of two numbers.
pub open spec fn least(a: nat, b: nat) -> nat {
    if a <= b {
        a
    } else {
        b
    }
}

/// `e` is the edge between `u` and `v`, in either direction.
pub open spec fn joins<N>(e: (N, N), u: N, v: N) -> bool {
    e == (u, v) || e == (v, u)
}

/// Takes edges from the top of the stack, down to and with the first that
/// joins `u` and `v`: what stays on the stack, and the edges taken, in the
/// order in which they left. Where no edge joins the two, all are taken.
pub open spec fn split_component<N>(stack: Seq<(N, N)>, u: N, v: N) -> (Seq<(N, N)>, Seq<(N, N)>)
    decreases stack.len(),
{
    if stack.len() == 0 {
        (stack, Seq::empty())
    } else if joins(stack.last(), u, v) {
        (stack.drop_last(), seq![stack.last()])
    } else {
        let (rest, taken) = split_component(stack.drop_last(), u, v);
        (rest, seq![stack.last()] + taken)
    }
}

/// What one event of the walk does to the records, and the component that it
/// closes, if it closes one.
pub open spec fn components_event<N: Node>(m: LowMarks<N>, event: DfsEvent<N>) -> (
    LowMarks<N>,
    Option<Seq<(N, N)>>,
) {
    match event {
        DfsEvent::Discover(node, from) => (
            LowMarks {
                time: m.time + 1,
                discovery: m.discovery.insert(node, m.time),
                lowpt: m.lowpt.insert(node, m.time),
                parents: if from is Some {
                    m.parents.insert(node, from->0)
                } else {
                    m.parents
                },
                edge_stack: if from is Some {
                    m.edge_stack.push((from->0, node))
                } else {
                    m.edge_stack
                },
            },
            None,
        ),
        DfsEvent::Finish(node) => if m.parents.dom().contains(node) {
            let parent = m.parents[node];
            let lowpt = m.lowpt.insert(parent, least(m.lowpt[parent], m.lowpt[node]));
            if m.discovery[parent] <= lowpt[node] {
                let (rest, taken) = split_component(m.edge_stack, parent, node);
                (LowMarks { lowpt, edge_stack: rest, ..m }, Some(taken))
            } else {
                (LowMarks { lowpt, ..m }, None)
            }
        } else if m.edge_stack.len() > 0 {
            (LowMarks { edge_stack: Seq::empty(), ..m }, Some(m.edge_stack))
        } else {
            (m, None)
        },
        DfsEvent::NonTreeEdge(from, to) => if !(m.parents.dom().contains(from) && m.parents[from]
            == to) && m.discovery[to] < m.discovery[from] {
            (
                LowMarks {
                    lowpt: if m.lowpt.dom().contains(from) {
                        m.lowpt.insert(from, least(m.lowpt[from], m.discovery[to]))
                    } else {
                        m.lowpt
                    },
                    edge_stack: m.edge_stack.push((from, to)),
                    ..m
                },
                None,
            )
        } else {
            (m, None)
        },
    }
}

/// The state of a component extractor whose walk has not begun.
pub open spec fn components_init<N>(start: N) -> ComponentsState<N> {
    ComponentsState {
        dfs: dfs_init(start),
        marks: LowMarks {
            time: 0,
            discovery: Map::empty(),
            lowpt: Map::empty(),
            parents: Map::empty(),
            edge_stack: Seq::empty(),
        },
    }
}

/// What one pull does to a component extractor: it drives the walk until an
/// event closes a component, or the walk ends.
pub open spec fn components_next<N: Node>(adj: Map<N, Seq<N>>, c: ComponentsState<N>) -> (
    ComponentsState<N>,
    Option<Seq<(N, N)>>,
)
    decreases unseen(adj, c.dfs).len(), pending_count(c.dfs), frames_total(c.dfs.stack),
    when adj.dom().finite() && dfs_inv(adj, c.dfs)
{
    let (dfs, event) = dfs_step(adj, c.dfs);
    match event {
        None => (ComponentsState { dfs, marks: c.marks }, None),
        Some(e) => {
            let (marks, component) = components_event(c.marks, e);
            if component is Some {
                (ComponentsState { dfs, marks }, component)
            } else {
                proof {
                    lemma_dfs_step_measure(adj, c.dfs);
                }
                components_next(adj, ComponentsState { dfs, marks })
            }
        },
    }
}

/// What holds of every state that a component extractor reaches: each node
/// discovered has its discovery time and its low-link value, and each parent
/// recorded is a discovered node.
pub open spec fn components_inv<N: Node>(adj: Map<N, Seq<N>>, c: ComponentsState<N>) -> bool {
    &&& dfs_inv(adj, c.dfs)
    &&& c.marks.discovery.dom() == c.dfs.visited
    &&& c.marks.lowpt.dom() == c.dfs.visited
    &&& c.marks.time == c.dfs.visited.len()
    &&& forall|n: N| #[trigger]
        c.marks.parents.dom().contains(n) ==> c.dfs.visited.contains(n) && c.dfs.visited.contains(
            c.marks.parents[n],
        )
}

/// The state after the next event of the walk has been recorded.
pub open spec fn components_advance<N: Node>(
    adj: Map<N, Seq<N>>,
    c: ComponentsState<N>,
) -> ComponentsState<N> {
    let (dfs, event) = dfs_step(adj, c.dfs);
    match event {
        None => ComponentsState { dfs, marks: c.marks },
        Some(e) => ComponentsState { dfs, marks: components_event(c.marks, e).0 },
    }
}

/// Recording an event keeps `components_inv`.
pub proof fn lemma_components_advance_inv<N: Node>(adj: Map<N, Seq<N>>, c: ComponentsState<N>)
    requires
        components_inv(adj, c),
    ensures
        components_inv(adj, components_advance(adj, c)),
{
    let s = c.dfs;
    let m = c.marks;
    let t = components_advance(adj, c);
    lemma_dfs_step_inv(adj, s);
    let (dfs, event) = dfs_step(adj, s);
    match event {
        None => {},
        Some(DfsEvent::Discover(node, from)) => {
            assert(t.marks.discovery.dom() =~= dfs.visited);
            assert(t.marks.lowpt.dom() =~= dfs.visited);
            if from is Some {
                let top = s.stack.len() - 1;
                assert(s.stack[top].0 == from->0);
            }
        },
        Some(DfsEvent::Finish(node)) => {
            let top = s.stack.len() - 1;
            assert(s.stack[top].0 == node);
            if m.parents.dom().contains(node) {
                assert(t.marks.lowpt.dom() =~= dfs.visited);
            }
        },
        Some(DfsEvent::NonTreeEdge(from, to)) => {
            let top = s.stack.len() - 1;
            assert(s.stack[top].0 == from);
            assert(t.marks.lowpt.dom() =~= dfs.visited);
        },
    }
}

/// A component extractor: it drives a depth-first walk of its own and gives
/// out the edges of each biconnected component as soon as it is closed.
pub struct BiconnectedComponentsIter<'a, T: Node, G: Graph<T>> {
    iter: DfsIter<'a, T, G>,
    time: usize,
    discovery: HashMap<T, usize>,
    lowpt: HashMap<T, usize>,
    parents: HashMap<T, T>,
    edge_stack: Vec<(T, T)>,
}

/// The component that a pull gave out, as a mathematical value.
pub open spec fn component_model<N>(component: Option<Vec<(N, N)>>) -> Option<Seq<(N, N)>> {
    match component {
        Some(edges) => Some(edges@),
        None => None,
    }
}

impl<'a, N: Node, G: Graph<N>> BiconnectedComponentsIter<'a, N, G> {
    /// The adjacency of the graph that is walked.
    pub closed spec fn adj(self) -> Map<N, Seq<N>> {
        self.iter.adj()
    }

    pub closed spec fn view(self) -> ComponentsState<N> {
        ComponentsState {
            dfs: self.iter@,
            marks: LowMarks {
                time: self.time as nat,
                discovery: self.discovery@.map_values(|t: usize| t as nat),
                lowpt: self.lowpt@.map_values(|t: usize| t as nat),
                parents: self.parents@,
                edge_stack: self.edge_stack@,
            },
        }
    }

    /// The extractor is in a state that pulls from a new one can reach.
    pub closed spec fn wf(self) -> bool {
        &&& self.iter.wf()
        &&& self.iter.adj().dom().finite()
        &&& components_inv(self.iter.adj(), self@)
    }

    /// A well-formed extractor walks a finite graph and is in a state of
    /// which `components_inv` holds.
    pub proof fn lemma_inv(self)
        requires
            self.wf(),
        ensures
            self.adj().dom().finite(),
            components_inv(self.adj(), self@),
    {
    }

    /// An extractor whose walk has not begun: the first pull discovers `start`.
    pub fn new(graph: &'a G, start: N) -> (it: Self)
        ensures
            it.wf(),
            it.adj() == graph.adj(),
            it@ == components_init(start),
    {
        proof {
            N::lemma_hashable();
            graph.lemma_finite();
            broadcast use vstd::std_specs::hash::group_hash_axioms;

        }
        let it = Self {
            iter: DfsIter::new(graph, start),
            time: 0,
            discovery: HashMap::new(),
            lowpt: HashMap::new(),
            parents: HashMap::new(),
            edge_stack: Vec::new(),
        };
        proof {
            assert(it@.marks.discovery =~= Map::empty());
            assert(it@.marks.lowpt =~= Map::empty());
            assert(it@.marks.edge_stack =~= Seq::empty());
            assert(it@.marks.discovery.dom() =~= it@.dfs.visited);
            assert(it@.marks.lowpt.dom() =~= it@.dfs.visited);
        }
        it
    }

    /// Takes edges from the top of the edge stack into a new component, down
    /// to and with the edge that joins `u` and `v`.
    fn extract_component(&mut self, u: N, v: N) -> (component: Option<Vec<(N, N)>>)
        requires
            old(self).wf(),
        ensures
            final(self).wf(),
            final(self).adj() == old(self).adj(),
            final(self)@ == (ComponentsState {
                dfs: old(self)@.dfs,
                marks: LowMarks {
                    edge_stack: split_component(old(self)@.marks.edge_stack, u, v).0,
                    ..old(self)@.marks
                },
            }),
            component_model(component) == Some(
                split_component(old(self)@.marks.edge_stack, u, v).1,
            ),
    {
        let ghost whole = self.edge_stack@;
        let mut component: Vec<(N, N)> = Vec::new();
        let mut found = false;
        assert(component@ + split_component(whole, u, v).1 =~= split_component(whole, u, v).1);
        while !found && self.edge_stack.len() > 0
            invariant
                self.iter == old(self).iter,
                self.time == old(self).time,
                self.discovery == old(self).discovery,
                self.lowpt == old(self).lowpt,
                self.parents == old(self).parents,
                found ==> split_component(whole, u, v) == (self.edge_stack@, component@),
                !found ==> split_component(whole, u, v).0 == split_component(
                    self.edge_stack@,
                    u,
                    v,
                ).0,
                !found ==> split_component(whole, u, v).1 == component@ + split_component(
                    self.edge_stack@,
                    u,
                    v,
                ).1,
            decreases self.edge_stack.len() + if found { 0nat } else { 1nat },
        {
            let ghost stack = self.edge_stack@;
            let ghost taken = component@;
            let e = self.edge_stack.pop().unwrap();
            component.push(e);
            assert(self.edge_stack@ =~= stack.drop_last());
            if (e.0.same(&u) && e.1.same(&v)) || (e.0.same(&v) && e.1.same(&u)) {
                found = true;
                assert(component@ =~= taken + seq![e]);
            } else {
                assert(component@ + split_component(self.edge_stack@, u, v).1 =~= taken + (seq![e]
                    + split_component(self.edge_stack@, u, v).1));
            }
        }
        proof {
            if !found {
                assert(component@ + Seq::<(N, N)>::empty() =~= component@);
            }
        }
        Some(component)
    }

    /// Drives the walk until a component is closed and gives out its edges;
    /// `None` once the walk has ended.
    pub fn next(&mut self) -> (component: Option<Vec<(N, N)>>)
        requires
            old(self).wf(),
        ensures
            final(self).wf(),
            final(self).adj() == old(self).adj(),
            (final(self)@, component_model(component)) == components_next(
                old(self).adj(),
                old(self)@,
            ),
    {
        proof {
            N::lemma_hashable();
        }
        let ghost adj = self.adj();
        loop
            invariant
                self.wf(),
                self.adj() == adj,
                old(self).adj() == adj,
                vstd::std_specs::hash::obeys_key_model::<N>(),
                components_next(adj, self@) == components_next(adj, old(self)@),
            decreases
                    unseen(adj, self@.dfs).len(),
                    pending_count(self@.dfs),
                    frames_total(self@.dfs.stack),
        {
            broadcast use vstd::std_specs::hash::group_hash_axioms;

            let ghost c = self@;
            proof {
                lemma_components_advance_inv(adj, c);
                if dfs_step(adj, c.dfs).1 is Some {
                    lemma_dfs_step_measure(adj, c.dfs);
                }
            }
            match self.iter.next() {
                None => {
                    return None;
                },
                Some(DfsEvent::Discover(node, maybe_parent)) => {
                    self.discovery.insert(node, self.time);
                    self.lowpt.insert(node, self.time);
                    let discovered = self.discovery.len();
                    proof {
                        assert(self.discovery@.dom() =~= c.dfs.visited.insert(node));
                    }
                    self.time += 1;
                    match maybe_parent {
                        Some(parent) => {
                            self.edge_stack.push((parent, node));
                            self.parents.insert(node, parent);
                        },
                        None => {},
                    }
                    proof {
                        assert(self@.marks.discovery =~= c.marks.discovery.insert(
                            node,
                            c.marks.time,
                        ));
                        assert(self@.marks.lowpt =~= c.marks.lowpt.insert(node, c.marks.time));
                    }
                },
                Some(DfsEvent::Finish(node)) => {
                    let recorded = match self.parents.get(&node) {
                        Some(p) => Some(*p),
                        None => None,
                    };
                    match recorded {
                        Some(parent) => {
                            let node_low = self.stamp_low(node);
                            let parent_low = self.stamp_low(parent);
                            let low = if parent_low <= node_low {
                                parent_low
                            } else {
                                node_low
                            };
                            self.lowpt.insert(parent, low);
                            proof {
                                assert(self@.marks.lowpt =~= c.marks.lowpt.insert(
                                    parent,
                                    least(c.marks.lowpt[parent], c.marks.lowpt[node]),
                                ));
                                assert(self@.marks.discovery =~= c.marks.discovery);
                            }
                            if self.stamp_discovery(parent) <= self.stamp_low(node) {
                                return self.extract_component(parent, node);
                            }
                        },
                        None => {
                            if self.edge_stack.len() > 0 {
                                let mut rest: Vec<(N, N)> = Vec::new();
                                std::mem::swap(&mut rest, &mut self.edge_stack);
                                assert(self@.marks.edge_stack =~= Seq::empty());
                                return Some(rest);
                            }
                        },
                    }
                },
                Some(DfsEvent::NonTreeEdge(from, to)) => {
                    let from_parent = match self.parents.get(&from) {
                        Some(p) => p.same(&to),
                        None => false,
                    };
                    if !from_parent && self.stamp_discovery(to) < self.stamp_discovery(from) {
                        self.edge_stack.push((from, to));
                        let from_low = self.stamp_low(from);
                        let to_time = self.stamp_discovery(to);
                        let low = if from_low <= to_time {
                            from_low
                        } else {
                            to_time
                        };
                        self.lowpt.insert(from, low);
                        proof {
                            assert(self@.marks.lowpt =~= c.marks.lowpt.insert(
                                from,
                                least(c.marks.lowpt[from], c.marks.discovery[to]),
                            ));
                            assert(self@.marks.discovery =~= c.marks.discovery);
                        }
                    }
                },
            }
        }
    }

    /// The discovery time recorded for a discovered node.
    fn stamp_discovery(&self, n: N) -> (t: usize)
        requires
            self.discovery@.dom().contains(n),
            vstd::std_specs::hash::obeys_key_model::<N>(),
        ensures
            t == self.discovery@[n],
    {
        broadcast use vstd::std_specs::hash::group_hash_axioms;

        match self.discovery.get(&n) {
            Some(t) => *t,
            None => 0,
        }
    }

    /// The low-link value recorded for a discovered node.
    fn stamp_low(&self, n: N) -> (t: usize)
        requires
            self.lowpt@.dom().contains(n),
            vstd::std_specs::hash::obeys_key_model::<N>(),
        ensures
            t == self.lowpt@[n],
    {
        broadcast use vstd::std_specs::hash::group_hash_axioms;

        match self.lowpt.get(&n) {
            Some(t) => *t,
            None => 0,
        }
    }
}

/// A depth-first walk of `graph` from `start`, which yields one event per pull.
pub fn depth_first<'a, N: Node, G: Graph<N>>(graph: &'a G, start: N) -> (it: DfsIter<'a, N, G>)
    ensures
        it.wf(),
        it.adj() == graph.adj(),
        it@ == dfs_init(start),
{
    DfsIter::new(graph, start)
}

/// A breadth-first walk of `graph` from `start`, which takes up one node per pull.
pub fn breadth_first<'a, N: Node, G: Graph<N>>(graph: &'a G, start: N) -> (it: BfsIter<'a, N, G>)
    ensures
        it.adj() == graph.adj(),
        it@ == bfs_init(start),
{
    BfsIter::new(graph, start)
}

/// The edges that a depth-first walk of `graph` from `start` meets, each
/// with its class, one per pull.
pub fn classified_edges<'a, N: Node, G: Graph<N>>(graph: &'a G, start: N) -> (it: DfsEdgesIter<
    'a,
    N,
    G,
>)
    ensures
        it.wf(),
        it.adj() == graph.adj(),
        it@ == edges_init(start),
{
    DfsEdgesIter::new(graph, start)
}

/// The biconnected components of the part of `graph` that a depth-first
/// walk from `start` reaches, one per pull.
pub fn biconnected_components<'a, N: Node, G: Graph<N>>(graph: &'a G, start: N) -> (it:
    BiconnectedComponentsIter<'a, N, G>)
    ensures
        it.wf(),
        it.adj() == graph.adj(),
        it@ == components_init(start),
{
    BiconnectedComponentsIter::new(graph, start)
}

} // verus!
