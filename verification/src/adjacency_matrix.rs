use crate::graph::{
    degree_adder, degree_sum, in_degree, leads_to, neighbor_seq, other_than, unweighted, with_edge,
    with_node, with_weighted_edge, without_edge, Graph, Node, UndirectedGraph, Weight,
    WeightedGraph,
};
use std::collections::HashMap;
use vstd::std_specs::iter::IteratorSpec;
use vstd::prelude::*;

verus! {

/// A graph held as a table: each node is a key, and its value is the list of
/// its edges, each the neighbour it leads to and its weight.
#[derive(Debug, Clone, Default)]
pub struct AdjacencyMatrix<N: Node, W: Weight>(pub HashMap<N, Vec<(N, W)>>);

impl<N: Node, W: Weight> AdjacencyMatrix<N, W> {
    /// The table as a mathematical value.
    pub open spec fn rows(&self) -> Map<N, Seq<(N, W)>> {
        self.0@.map_values(|row: Vec<(N, W)>| row@)
    }

    /// A graph without nodes.
    pub fn new() -> (g: Self)
        ensures
            g.rows() == Map::<N, Seq<(N, W)>>::empty(),
    {
        let g = AdjacencyMatrix(HashMap::new());
        assert(g.rows() =~= Map::<N, Seq<(N, W)>>::empty());
        g
    }
}

impl<N: Node, W: Weight> Graph<N> for AdjacencyMatrix<N, W> {
    open spec fn adj(&self) -> Map<N, Seq<N>> {
        unweighted(self.rows())
    }

    proof fn lemma_finite(&self) {
        broadcast use vstd::std_specs::hash::group_hash_axioms;

        assert(self.adj().dom() =~= self.0@.dom());
    }

    fn order(&self) -> (r: usize) {
        broadcast use vstd::std_specs::hash::group_hash_axioms;

        proof {
            N::lemma_hashable();
        }
        assert(self.adj().dom() =~= self.0@.dom());
        self.0.len()
    }

    fn nodes(&self) -> (r: Vec<N>) {
        proof {
            N::lemma_hashable();
            broadcast use vstd::std_specs::hash::group_hash_axioms;

        }
        let mut r: Vec<N> = Vec::new();
        let ghost keys = vstd::std_specs::hash::spec_keys_iter(&self.0).remaining();
        for k in it: self.0.keys()
            invariant
                it.seq() == keys,
                r@ == keys.take(it.index()).unref(),
        {
            r.push(*k);
            assert(r@ =~= keys.take(it.index() + 1).unref());
        }
        proof {
            assert(keys.take(keys.len() as int) =~= keys);
            assert(self.adj().dom() =~= self.0@.dom());
            assert forall|i: int, j: int| 0 <= i < j < r@.len() implies r@[i] != r@[j] by {
                assert(keys[i] != keys[j]);
            }
        }
        r
    }

    fn size(&self) -> (r: usize) {
        proof {
            N::lemma_hashable();
            broadcast use vstd::std_specs::hash::group_hash_axioms;

            assert(self.adj().dom() =~= self.0@.dom());
        }
        let nodes = self.nodes();
        let mut total: u128 = 0;
        let mut i: usize = 0;
        proof {
            assert(nodes@.take(0).to_set() =~= Set::empty());
            vstd::set::fold::lemma_fold_empty(0nat, degree_adder(self.adj()));
        }
        while i < nodes.len()
            invariant
                i <= nodes.len(),
                nodes@.no_duplicates(),
                nodes@.to_set() == self.adj().dom(),
                vstd::std_specs::hash::obeys_key_model::<N>(),
                total == degree_sum(self.adj(), nodes@.take(i as int).to_set()),
                total <= i * usize::MAX,
            decreases nodes.len() - i,
        {
            broadcast use vstd::std_specs::hash::group_hash_axioms;

            let k = nodes[i];
            let ghost done = nodes@.take(i as int).to_set();
            proof {
                assert(nodes@.to_set().contains(k));
                lemma_take_next(nodes@, i as int);
                vstd::seq_lib::seq_to_set_is_finite(nodes@.take(i as int));
                assert(vstd::set::fold::is_fun_commutative(degree_adder(self.adj())));
                vstd::set::fold::lemma_fold_insert(done, 0nat, degree_adder(self.adj()), k);
            }
            let degree = match self.0.get(&k) {
                Some(row) => row.len(),
                None => 0,
            };
            total = total + degree as u128;
            i += 1;
        }
        proof {
            assert(nodes@.take(nodes.len() as int) =~= nodes@);
        }
        total as usize
    }

    fn node_degrees(&self, n: N) -> (r: (usize, usize)) {
        proof {
            N::lemma_hashable();
            broadcast use vstd::std_specs::hash::group_hash_axioms;

            assert(self.adj().dom() =~= self.0@.dom());
        }
        let out_degree = match self.0.get(&n) {
            Some(row) => row.len(),
            None => 0,
        };
        let nodes = self.nodes();
        let mut in_degree: usize = 0;
        let mut i: usize = 0;
        proof {
            assert(nodes@.take(0).to_set().filter(leads_to(self.adj(), n)) =~= Set::empty());
        }
        while i < nodes.len()
            invariant
                i <= nodes.len(),
                nodes@.no_duplicates(),
                nodes@.to_set() == self.adj().dom(),
                vstd::std_specs::hash::obeys_key_model::<N>(),
                in_degree == nodes@.take(i as int).to_set().filter(leads_to(self.adj(), n)).len(),
                in_degree <= i,
            decreases nodes.len() - i,
        {
            broadcast use vstd::std_specs::hash::group_hash_axioms;

            let k = nodes[i];
            let ghost done = nodes@.take(i as int).to_set();
            let ghost hit = leads_to(self.adj(), n);
            proof {
                assert(nodes@.to_set().contains(k));
                lemma_take_next(nodes@, i as int);
                vstd::seq_lib::seq_to_set_is_finite(nodes@.take(i as int));
                done.lemma_len_filter(hit);
            }
            let found = match self.0.get(&k) {
                Some(row) => row_leads_to(row, n),
                None => false,
            };
            proof {
                if found {
                    assert(done.insert(k).filter(hit) =~= done.filter(hit).insert(k));
                } else {
                    assert(done.insert(k).filter(hit) =~= done.filter(hit));
                }
            }
            if found {
                in_degree += 1;
            }
            i += 1;
        }
        proof {
            assert(nodes@.take(nodes.len() as int) =~= nodes@);
        }
        (in_degree, out_degree)
    }

    /// The new edge has the weight one.
    fn add_edge(&mut self, n: N, m: N)
        ensures
            exists|w: W| #[trigger]
                w.value() == 1 && final(self).rows() == with_weighted_edge(
                    old(self).rows(),
                    n,
                    m,
                    w,
                ),
    {
        let unit = W::one();
        proof {
            N::lemma_hashable();
            broadcast use vstd::std_specs::hash::group_hash_axioms;

            assert(self.adj().dom() =~= self.0@.dom());
        }
        if self.0.contains_key(&m) {
            match self.0.remove(&n) {
                Some(row) => {
                    let mut row = row;
                    row.push((m, unit));
                    self.0.insert(n, row);
                    assert(self.rows() =~= old(self).rows().insert(
                        n,
                        old(self).rows()[n].push((m, unit)),
                    ));
                    assert(self.adj()[n] =~= old(self).adj()[n].push(m));
                    assert(self.adj() =~= with_edge(old(self).adj(), n, m));
                },
                None => {
                    assert(self.0@ =~= old(self).0@);
                },
            }
        }
        assert(unit.value() == 1 && self.rows() == with_weighted_edge(
            old(self).rows(),
            n,
            m,
            unit,
        ));
    }

    fn remove_edge(&mut self, n: N, m: N) {
        proof {
            N::lemma_hashable();
            broadcast use vstd::std_specs::hash::group_hash_axioms;

            assert(self.adj().dom() =~= self.0@.dom());
        }
        match self.0.remove(&n) {
            Some(row) => {
                let ghost targets = row@.map_values(|e: (N, W)| e.0);
                let mut kept: Vec<(N, W)> = Vec::new();
                let mut i: usize = 0;
                proof {
                    reveal(Seq::filter);
                    assert(targets.take(0) =~= Seq::empty());
                    assert(kept@.map_values(|e: (N, W)| e.0) =~= Seq::empty());
                }
                while i < row.len()
                    invariant
                        i <= row.len(),
                        targets == row@.map_values(|e: (N, W)| e.0),
                        kept@.map_values(|e: (N, W)| e.0) == targets.take(i as int).filter(
                            other_than(m),
                        ),
                    decreases row.len() - i,
                {
                    let e = row[i];
                    let ghost before = kept@.map_values(|e: (N, W)| e.0);
                    proof {
                        assert(targets.take(i + 1).drop_last() =~= targets.take(i as int));
                        reveal(Seq::filter);
                    }
                    if !e.0.same(&m) {
                        kept.push(e);
                        assert(kept@.map_values(|e: (N, W)| e.0) =~= before.push(e.0));
                    }
                    i += 1;
                }
                proof {
                    assert(targets.take(row.len() as int) =~= targets);
                }
                self.0.insert(n, kept);
                assert(self.adj() =~= without_edge(old(self).adj(), n, m));
            },
            None => {
                assert(self.0@ =~= old(self).0@);
            },
        }
    }

    fn add_node(&mut self, n: N) {
        proof {
            N::lemma_hashable();
            broadcast use vstd::std_specs::hash::group_hash_axioms;

        }
        self.0.insert(n, Vec::new());
        assert(self.adj().dom() =~= self.0@.dom());
        assert(self.adj()[n] =~= Seq::empty());
        assert(self.adj() =~= with_node(old(self).adj(), n));
    }

    fn neighbors(&self, n: N) -> (r: Vec<N>) {
        proof {
            N::lemma_hashable();
            broadcast use vstd::std_specs::hash::group_hash_axioms;

        }
        let mut r: Vec<N> = Vec::new();
        match self.0.get(&n) {
            None => {
                assert(r@ =~= neighbor_seq(self.adj(), n));
            },
            Some(row) => {
                let mut i: usize = 0;
                while i < row.len()
                    invariant
                        i <= row.len(),
                        r@ == row@.take(i as int).map_values(|e: (N, W)| e.0),
                    decreases row.len() - i,
                {
                    r.push(row[i].0);
                    i += 1;
                    assert(r@ =~= row@.take(i as int).map_values(|e: (N, W)| e.0));
                }
                assert(row@.take(row.len() as int) =~= row@);
            },
        }
        r
    }
}

impl<N: Node, W: Weight> UndirectedGraph<N> for AdjacencyMatrix<N, W> {

}

impl<N: Node, W: Weight> WeightedGraph<N, W> for AdjacencyMatrix<N, W> {
    open spec fn weighted_adj(&self) -> Map<N, Seq<(N, W)>> {
        self.rows()
    }

    proof fn lemma_weights_follow_edges(&self) {
    }

    fn weighted_neighbors(&self, n: N) -> (r: Vec<(N, W)>) {
        proof {
            N::lemma_hashable();
            broadcast use vstd::std_specs::hash::group_hash_axioms;

        }
        let mut r: Vec<(N, W)> = Vec::new();
        match self.0.get(&n) {
            None => {
                assert(r@ =~= neighbor_seq(self.rows(), n));
            },
            Some(row) => {
                let mut i: usize = 0;
                while i < row.len()
                    invariant
                        i <= row.len(),
                        r@ == row@.take(i as int),
                    decreases row.len() - i,
                {
                    r.push(row[i]);
                    i += 1;
                    assert(r@ =~= row@.take(i as int));
                }
                assert(row@.take(row.len() as int) =~= row@);
            },
        }
        r
    }

    fn add_weighted_edge(&mut self, n: N, m: N, w: W) {
        proof {
            N::lemma_hashable();
            broadcast use vstd::std_specs::hash::group_hash_axioms;

        }
        if self.0.contains_key(&m) {
            match self.0.remove(&n) {
                Some(row) => {
                    let mut row = row;
                    row.push((m, w));
                    self.0.insert(n, row);
                    assert(self.rows() =~= with_weighted_edge(old(self).rows(), n, m, w));
                },
                None => {
                    assert(self.0@ =~= old(self).0@);
                },
            }
        }
    }
}

/// Whether one of the edges of `row` leads to `n`.
fn row_leads_to<N: Node, W: Weight>(row: &Vec<(N, W)>, n: N) -> (r: bool)
    ensures
        r == row@.map_values(|e: (N, W)| e.0).contains(n),
{
    let ghost targets = row@.map_values(|e: (N, W)| e.0);
    let mut i: usize = 0;
    while i < row.len()
        invariant
            i <= row.len(),
            targets == row@.map_values(|e: (N, W)| e.0),
            forall|j: int| 0 <= j < i ==> targets[j] != n,
        decreases row.len() - i,
    {
        if row[i].0.same(&n) {
            assert(targets[i as int] == n);
            return true;
        }
        i += 1;
    }
    false
}

/// The first `i + 1` items of a sequence without repetition are the first
/// `i` and one more, which is not among them.
proof fn lemma_take_next<T>(s: Seq<T>, i: int)
    requires
        0 <= i < s.len(),
        s.no_duplicates(),
    ensures
        s.take(i + 1).to_set() == s.take(i).to_set().insert(s[i]),
        !s.take(i).to_set().contains(s[i]),
{
    let more = s.take(i + 1);
    let less = s.take(i);
    assert(more =~= less.push(s[i]));
    assert forall|x: T| more.to_set().contains(x) <==> less.to_set().insert(s[i]).contains(x) by {
        if more.contains(x) {
            let j = choose|j: int| 0 <= j < more.len() && more[j] == x;
            if j < i {
                assert(less[j] == x);
            }
        }
        if less.contains(x) {
            let j = choose|j: int| 0 <= j < less.len() && less[j] == x;
            assert(more[j] == x);
        }
        if x == s[i] {
            assert(more[i] == x);
        }
    }
    assert(more.to_set() =~= less.to_set().insert(s[i]));
    if less.contains(s[i]) {
        let j = choose|j: int| 0 <= j < less.len() && less[j] == s[i];
        assert(s[j] == s[i]);
    }
}

} // verus!
