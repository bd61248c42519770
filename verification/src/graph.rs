use num_traits::{CheckedAdd, One, SaturatingAdd, Zero};
use std::hash::Hash;
use vstd::prelude::*;

verus! {

/// A value that names a vertex: copied freely, compared, ordered and hashed.
///
/// `same` is the executable equality; `lemma_hashable` states that the type
/// may key the hash sets and hash maps of the traversals.
pub trait Node: Eq + Hash + Copy + core::fmt::Debug + Ord {
    fn same(&self, other: &Self) -> (r: bool)
        ensures
            r == (*self == *other),
    ;

    proof fn lemma_hashable()
        ensures
            vstd::std_specs::hash::obeys_key_model::<Self>(),
    ;
}

impl Node for usize {
    fn same(&self, other: &Self) -> (r: bool) {
        *self == *other
    }

    proof fn lemma_hashable() {
        broadcast use vstd::std_specs::hash::group_hash_axioms;

    }
}

impl Node for u64 {
    fn same(&self, other: &Self) -> (r: bool) {
        *self == *other
    }

    proof fn lemma_hashable() {
        broadcast use vstd::std_specs::hash::group_hash_axioms;

    }
}

impl Node for u32 {
    fn same(&self, other: &Self) -> (r: bool) {
        *self == *other
    }

    proof fn lemma_hashable() {
        broadcast use vstd::std_specs::hash::group_hash_axioms;

    }
}

impl Node for u8 {
    fn same(&self, other: &Self) -> (r: bool) {
        *self == *other
    }

    proof fn lemma_hashable() {
        broadcast use vstd::std_specs::hash::group_hash_axioms;

    }
}

impl Node for i64 {
    fn same(&self, other: &Self) -> (r: bool) {
        *self == *other
    }

    proof fn lemma_hashable() {
        broadcast use vstd::std_specs::hash::group_hash_axioms;

    }
}

impl Node for i32 {
    fn same(&self, other: &Self) -> (r: bool) {
        *self == *other
    }

    proof fn lemma_hashable() {
        broadcast use vstd::std_specs::hash::group_hash_axioms;

    }
}

impl Node for u16 {
    fn same(&self, other: &Self) -> (r: bool) {
        *self == *other
    }

    proof fn lemma_hashable() {
        broadcast use vstd::std_specs::hash::group_hash_axioms;

    }
}

impl Node for u128 {
    fn same(&self, other: &Self) -> (r: bool) {
        *self == *other
    }

    proof fn lemma_hashable() {
        broadcast use vstd::std_specs::hash::group_hash_axioms;

    }
}

impl Node for i8 {
    fn same(&self, other: &Self) -> (r: bool) {
        *self == *other
    }

    proof fn lemma_hashable() {
        broadcast use vstd::std_specs::hash::group_hash_axioms;

    }
}

impl Node for i16 {
    fn same(&self, other: &Self) -> (r: bool) {
        *self == *other
    }

    proof fn lemma_hashable() {
        broadcast use vstd::std_specs::hash::group_hash_axioms;

    }
}

impl Node for i128 {
    fn same(&self, other: &Self) -> (r: bool) {
        *self == *other
    }

    proof fn lemma_hashable() {
        broadcast use vstd::std_specs::hash::group_hash_axioms;

    }
}

impl Node for isize {
    fn same(&self, other: &Self) -> (r: bool) {
        *self == *other
    }

    proof fn lemma_hashable() {
        broadcast use vstd::std_specs::hash::group_hash_axioms;

    }
}

/// The neighbours of `n` in the order in which the graph lists them; none
/// where the graph does not hold `n`.
pub open spec fn neighbor_seq<N, T>(adj: Map<N, Seq<T>>, n: N) -> Seq<T> {
    if adj.dom().contains(n) {
        adj[n]
    } else {
        Seq::empty()
    }
}

/// There is a directed edge from `n` to `m`.
pub open spec fn edge<N>(adj: Map<N, Seq<N>>, n: N, m: N) -> bool {
    neighbor_seq(adj, n).contains(m)
}

/// The graph `adj` with the node `n` added, or emptied of its neighbours
/// where the graph held it.
pub open spec fn with_node<N>(adj: Map<N, Seq<N>>, n: N) -> Map<N, Seq<N>> {
    adj.insert(n, Seq::empty())
}

/// The graph `adj` with one more edge from `n` to `m`; `adj` itself where
/// one of the two nodes is absent.
pub open spec fn with_edge<N>(adj: Map<N, Seq<N>>, n: N, m: N) -> Map<N, Seq<N>> {
    if adj.dom().contains(n) && adj.dom().contains(m) {
        adj.insert(n, adj[n].push(m))
    } else {
        adj
    }
}

/// Whether a node is another than `m`.
pub open spec fn other_than<N>(m: N) -> spec_fn(N) -> bool {
    |x: N| x != m
}

/// The graph `adj` without any edge from `n` to `m`.
pub open spec fn without_edge<N>(adj: Map<N, Seq<N>>, n: N, m: N) -> Map<N, Seq<N>> {
    if adj.dom().contains(n) {
        adj.insert(n, adj[n].filter(other_than(m)))
    } else {
        adj
    }
}

/// Adds the number of neighbours of a node to a count.
pub open spec fn degree_adder<N>(adj: Map<N, Seq<N>>) -> spec_fn(nat, N) -> nat {
    |count: nat, n: N| count + adj[n].len()
}

/// The number of edges that leave the nodes of `from`.
pub open spec fn degree_sum<N>(adj: Map<N, Seq<N>>, from: Set<N>) -> nat {
    from.fold(0nat, degree_adder(adj))
}

/// The number of edges: the neighbours of all nodes, counted with repetition.
pub open spec fn edge_count<N>(adj: Map<N, Seq<N>>) -> nat {
    degree_sum(adj, adj.dom())
}

/// The edges that leave a set of nodes are as many in two graphs in which
/// each of those nodes has as many neighbours.
pub proof fn lemma_degree_sum_agrees<N>(first: Map<N, Seq<N>>, second: Map<N, Seq<N>>, from: Set<N>)
    requires
        from.finite(),
        forall|n: N| #[trigger] from.contains(n) ==> first[n].len() == second[n].len(),
    ensures
        degree_sum(first, from) == degree_sum(second, from),
    decreases from.len(),
{
    assert(vstd::set::fold::is_fun_commutative(degree_adder(first)));
    assert(vstd::set::fold::is_fun_commutative(degree_adder(second)));
    if from.len() == 0 {
        assert(from =~= Set::empty());
        vstd::set::fold::lemma_fold_empty(0nat, degree_adder(first));
        vstd::set::fold::lemma_fold_empty(0nat, degree_adder(second));
    } else {
        let x = from.choose();
        let rest = from.remove(x);
        lemma_degree_sum_agrees(first, second, rest);
        vstd::set::fold::lemma_fold_insert(rest, 0nat, degree_adder(first), x);
        vstd::set::fold::lemma_fold_insert(rest, 0nat, degree_adder(second), x);
        assert(rest.insert(x) =~= from);
    }
}

/// What giving a node a new list of neighbours does to the number of
/// edges: the neighbours that the node had are taken off, and the new ones
/// are added.
pub proof fn lemma_edge_count_row<N>(adj: Map<N, Seq<N>>, n: N, row: Seq<N>)
    requires
        adj.dom().finite(),
    ensures
        edge_count(adj.insert(n, row)) + neighbor_seq(adj, n).len() == edge_count(adj) + row.len(),
{
    let more = adj.insert(n, row);
    let others = adj.dom().remove(n);
    assert(vstd::set::fold::is_fun_commutative(degree_adder(adj)));
    assert(vstd::set::fold::is_fun_commutative(degree_adder(more)));
    lemma_degree_sum_agrees(adj, more, others);
    vstd::set::fold::lemma_fold_insert(others, 0nat, degree_adder(more), n);
    assert(others.insert(n) =~= more.dom());
    if adj.dom().contains(n) {
        vstd::set::fold::lemma_fold_insert(others, 0nat, degree_adder(adj), n);
        assert(others.insert(n) =~= adj.dom());
    } else {
        assert(others =~= adj.dom());
    }
}

/// A graph without nodes has no edges.
pub proof fn lemma_edge_count_empty<N>()
    ensures
        edge_count(Map::<N, Seq<N>>::empty()) == 0,
{
    let adj = Map::<N, Seq<N>>::empty();
    assert(adj.dom() =~= Set::empty());
    vstd::set::fold::lemma_fold_empty(0nat, degree_adder(adj));
}

/// Adding a node, adding an edge and removing edges change the number of
/// edges by no more than this: a new node adds none, an edge adds one at
/// most, and a removal adds none.
pub proof fn lemma_edge_count_changes<N>(adj: Map<N, Seq<N>>, n: N, m: N)
    requires
        adj.dom().finite(),
    ensures
        edge_count(with_node(adj, n)) <= edge_count(adj),
        edge_count(with_edge(adj, n, m)) <= edge_count(adj) + 1,
        edge_count(without_edge(adj, n, m)) <= edge_count(adj),
        with_node(adj, n).dom().finite(),
        with_edge(adj, n, m).dom().finite(),
        without_edge(adj, n, m).dom().finite(),
{
    lemma_edge_count_row(adj, n, Seq::empty());
    if adj.dom().contains(n) {
        lemma_edge_count_row(adj, n, adj[n].push(m));
        lemma_edge_count_row(adj, n, adj[n].filter(other_than(m)));
        adj[n].lemma_filter_len(other_than(m));
    }
}

/// Whether a node has `n` among its neighbours.
pub open spec fn leads_to<N>(adj: Map<N, Seq<N>>, n: N) -> spec_fn(N) -> bool {
    |m: N| adj[m].contains(n)
}

/// The number of nodes that have `n` among their neighbours.
pub open spec fn in_degree<N>(adj: Map<N, Seq<N>>, n: N) -> nat {
    adj.dom().filter(leads_to(adj, n)).len()
}

/// A directed graph over nodes of type `N`.
///
/// The mathematical model of a graph is `adj()`: a finite map from each node
/// of the graph to the sequence of its neighbours.
pub trait Graph<N: Node>: Sized {
    spec fn adj(&self) -> Map<N, Seq<N>>;

    proof fn lemma_finite(&self)
        ensures
            self.adj().dom().finite(),
    ;

    /// The order of the graph: the number of its nodes.
    fn order(&self) -> (r: usize)
        ensures
            r == self.adj().dom().len(),
    ;

    /// The size of the graph: the number of its edges. An edge from `u` to
    /// `v` and one from `v` to `u` count as two.
    fn size(&self) -> (r: usize)
        requires
            edge_count(self.adj()) <= usize::MAX,
        ensures
            r == edge_count(self.adj()),
    ;

    /// The in-degree and the out-degree of `n`.
    fn node_degrees(&self, n: N) -> (r: (usize, usize))
        ensures
            r.0 == in_degree(self.adj(), n),
            r.1 == neighbor_seq(self.adj(), n).len(),
    ;

    /// The nodes of the graph, each once, in no particular order.
    fn nodes(&self) -> (r: Vec<N>)
        ensures
            r@.no_duplicates(),
            r@.to_set() == self.adj().dom(),
    ;

    /// Adds the node `n`, with no neighbours.
    fn add_node(&mut self, n: N)
        ensures
            final(self).adj() == with_node(old(self).adj(), n),
    ;

    /// Adds an edge from `n` to `m`; nothing happens if one of them is absent.
    fn add_edge(&mut self, n: N, m: N)
        ensures
            final(self).adj() == with_edge(old(self).adj(), n, m),
    ;

    /// Removes every edge from `n` to `m`; nothing happens if `n` is absent.
    fn remove_edge(&mut self, n: N, m: N)
        ensures
            final(self).adj() == without_edge(old(self).adj(), n, m),
    ;

    /// The neighbours of `n`, in the graph's order; none if `n` is absent.
    fn neighbors(&self, n: N) -> (r: Vec<N>)
        ensures
            r@ == neighbor_seq(self.adj(), n),
    ;

    /// Whether there is an edge from `n` to `m`.
    fn has_edge(&self, n: N, m: N) -> (r: bool)
        ensures
            r == edge(self.adj(), n, m),
    {
        let neighbors = self.neighbors(n);
        let mut i: usize = 0;
        while i < neighbors.len()
            invariant
                i <= neighbors.len(),
                neighbors@ == neighbor_seq(self.adj(), n),
                forall|j: int| 0 <= j < i ==> neighbors@[j] != m,
            decreases neighbors.len() - i,
        {
            if neighbors[i].same(&m) {
                return true;
            }
            i += 1;
        }
        false
    }

    /// Whether the edges have a direction: they do.
    fn is_directed(&self) -> (r: bool)
        ensures
            r,
    {
        true
    }
}

/// A graph whose edges have no direction: each is held as two directed edges.
pub trait UndirectedGraph<N: Node>: Graph<N> {
    /// Whether the edges have a direction: they do not.
    fn is_directed() -> bool
        returns
            false,
    {
        false
    }

    /// Adds an edge between `n` and `m`: one from `n` to `m`, then one from
    /// `m` to `n`.
    fn add_undirected_edge(&mut self, n: N, m: N)
        ensures
            final(self).adj() == with_edge(with_edge(old(self).adj(), n, m), m, n),
    {
        self.add_edge(n, m);
        self.add_edge(m, n);
    }

    /// Removes the edges between `n` and `m`, in both directions.
    fn remove_undirected_edge(&mut self, n: N, m: N)
        ensures
            final(self).adj() == without_edge(without_edge(old(self).adj(), n, m), m, n),
    {
        self.remove_edge(n, m);
        self.remove_edge(m, n);
    }

    /// The degree of `n`: the number of its neighbours.
    fn undirected_node_degree(&self, n: N) -> (r: usize)
        ensures
            r == neighbor_seq(self.adj(), n).len(),
    {
        self.neighbors(n).len()
    }
}

/// The weight of an edge: a number that is not negative, with a zero, a
/// one and an addition that either reports an overflow or stops at the
/// largest value.
pub trait Weight: Copy {
    /// The number that the weight stands for.
    spec fn value(self) -> int;

    /// No weight is negative or more than `highest()`.
    proof fn lemma_range(self)
        ensures
            0 <= self.value() <= Self::highest(),
    ;

    /// The largest number that a weight of this type can stand for.
    spec fn highest() -> int;

    fn zero() -> (w: Self)
        ensures
            w.value() == 0,
    ;

    fn one() -> (w: Self)
        ensures
            w.value() == 1,
    ;

    /// The sum, or `None` where it is more than `highest()`.
    fn checked_add(&self, other: &Self) -> (r: Option<Self>)
        ensures
            r is Some <==> self.value() + other.value() <= Self::highest(),
            r is Some ==> r->0.value() == self.value() + other.value(),
    ;

    /// The sum, or `highest()` where the sum is more.
    fn saturating_add(&self, other: &Self) -> (r: Self)
        ensures
            r.value() == if self.value() + other.value() <= Self::highest() {
                self.value() + other.value()
            } else {
                Self::highest()
            },
    ;
}

/// `num_traits::Zero::zero` at `usize`: the number zero.
#[verifier::external_body]
fn usize_zero() -> (w: usize)
    ensures
        w == 0,
{
    Zero::zero()
}

/// `num_traits::One::one` at `usize`: the number one.
#[verifier::external_body]
fn usize_one() -> (w: usize)
    ensures
        w == 1,
{
    One::one()
}

/// `num_traits::CheckedAdd::checked_add` at `usize`: the sum where it fits
/// the type, `None` where it does not.
#[verifier::external_body]
fn usize_checked_add(a: usize, b: usize) -> (r: Option<usize>)
    ensures
        r is Some <==> a + b <= usize::MAX,
        r is Some ==> r->0 == a + b,
{
    CheckedAdd::checked_add(&a, &b)
}

/// `num_traits::SaturatingAdd::saturating_add` at `usize`: the sum where it
/// fits the type, the largest value where it does not.
#[verifier::external_body]
fn usize_saturating_add(a: usize, b: usize) -> (r: usize)
    ensures
        r == if a + b <= usize::MAX {
            a + b
        } else {
            usize::MAX as int
        },
{
    SaturatingAdd::saturating_add(&a, &b)
}

impl Weight for usize {
    open spec fn value(self) -> int {
        self as int
    }

    open spec fn highest() -> int {
        usize::MAX as int
    }

    proof fn lemma_range(self) {
    }

    fn zero() -> (w: Self) {
        usize_zero()
    }

    fn one() -> (w: Self) {
        usize_one()
    }

    fn checked_add(&self, other: &Self) -> (r: Option<Self>) {
        usize_checked_add(*self, *other)
    }

    fn saturating_add(&self, other: &Self) -> (r: Self) {
        usize_saturating_add(*self, *other)
    }
}

/// `num_traits::Zero::zero` at `u64`: the number zero.
#[verifier::external_body]
fn u64_zero() -> (w: u64)
    ensures
        w == 0,
{
    Zero::zero()
}

/// `num_traits::One::one` at `u64`: the number one.
#[verifier::external_body]
fn u64_one() -> (w: u64)
    ensures
        w == 1,
{
    One::one()
}

/// `num_traits::CheckedAdd::checked_add` at `u64`: the sum where it fits
/// the type, `None` where it does not.
#[verifier::external_body]
fn u64_checked_add(a: u64, b: u64) -> (r: Option<u64>)
    ensures
        r is Some <==> a + b <= u64::MAX,
        r is Some ==> r->0 == a + b,
{
    CheckedAdd::checked_add(&a, &b)
}

/// `num_traits::SaturatingAdd::saturating_add` at `u64`: the sum where it
/// fits the type, the largest value where it does not.
#[verifier::external_body]
fn u64_saturating_add(a: u64, b: u64) -> (r: u64)
    ensures
        r == if a + b <= u64::MAX {
            a + b
        } else {
            u64::MAX as int
        },
{
    SaturatingAdd::saturating_add(&a, &b)
}

impl Weight for u64 {
    open spec fn value(self) -> int {
        self as int
    }

    open spec fn highest() -> int {
        u64::MAX as int
    }

    proof fn lemma_range(self) {
    }

    fn zero() -> (w: Self) {
        u64_zero()
    }

    fn one() -> (w: Self) {
        u64_one()
    }

    fn checked_add(&self, other: &Self) -> (r: Option<Self>) {
        u64_checked_add(*self, *other)
    }

    fn saturating_add(&self, other: &Self) -> (r: Self) {
        u64_saturating_add(*self, *other)
    }
}

/// A graph whose edges carry a weight.
pub trait WeightedGraph<N: Node, W: Weight>: Graph<N> {
    /// The model of a weighted graph: for each node its neighbours, each
    /// with the weight of the edge that leads to it.
    spec fn weighted_adj(&self) -> Map<N, Seq<(N, W)>>;

    /// The graph is the weighted graph without the weights.
    proof fn lemma_weights_follow_edges(&self)
        ensures
            self.adj() == unweighted(self.weighted_adj()),
    ;

    /// The neighbours of `n`, each with the weight of its edge.
    fn weighted_neighbors(&self, n: N) -> (r: Vec<(N, W)>)
        ensures
            r@ == neighbor_seq(self.weighted_adj(), n),
    ;

    /// Adds an edge to the neighbours of `n`, with the weight `w`; nothing
    /// happens if `n` or `m` is absent.
    fn add_weighted_edge(&mut self, n: N, m: N, w: W)
        ensures
            final(self).weighted_adj() == with_weighted_edge(old(self).weighted_adj(), n, m, w),
    ;
}

/// A weighted graph without its weights.
pub open spec fn unweighted<N, W>(wadj: Map<N, Seq<(N, W)>>) -> Map<N, Seq<N>> {
    Map::new(|n: N| wadj.dom().contains(n), |n: N| wadj[n].map_values(|e: (N, W)| e.0))
}

/// The weighted graph with one more edge from `n` to `m`, of weight `w`; the
/// graph itself where one of the two nodes is absent.
pub open spec fn with_weighted_edge<N, W>(wadj: Map<N, Seq<(N, W)>>, n: N, m: N, w: W) -> Map<
    N,
    Seq<(N, W)>,
> {
    if wadj.dom().contains(n) && wadj.dom().contains(m) {
        wadj.insert(n, wadj[n].push((m, w)))
    } else {
        wadj
    }
}

} // verus!
