use graphs_algorithms::{AdjacencyMatrix, Graph, UndirectedGraph, Weight, WeightedGraph};

fn sample() -> AdjacencyMatrix<usize, usize> {
    let mut g = AdjacencyMatrix::new();
    for n in 0..4 {
        g.add_node(n);
    }
    g.add_edge(0, 1);
    g.add_edge(0, 2);
    g.add_edge(1, 2);
    g.add_edge(3, 2);
    g
}

#[test]
fn order_and_size() {
    let g = sample();
    assert_eq!(g.order(), 4);
    assert_eq!(g.size(), 4);
    let empty: AdjacencyMatrix<usize, usize> = AdjacencyMatrix::new();
    assert_eq!(empty.order(), 0);
    assert_eq!(empty.size(), 0);
}

#[test]
fn degrees() {
    let g = sample();
    assert_eq!(g.node_degrees(2), (3, 0));
    assert_eq!(g.node_degrees(0), (0, 2));
    assert_eq!(g.node_degrees(7), (0, 0));
}

#[test]
fn nodes_are_listed_once() {
    let g = sample();
    let mut nodes = g.nodes();
    nodes.sort();
    assert_eq!(nodes, vec![0, 1, 2, 3]);
}

#[test]
fn neighbors_keep_their_order() {
    let g = sample();
    assert_eq!(g.neighbors(0), vec![1, 2]);
    assert_eq!(g.neighbors(2), Vec::<usize>::new());
    assert_eq!(g.neighbors(9), Vec::<usize>::new());
}

#[test]
fn edges_to_absent_nodes_are_not_added() {
    let mut g = sample();
    g.add_edge(0, 9);
    g.add_edge(9, 0);
    assert_eq!(g.size(), 4);
    assert_eq!(g.order(), 4);
    assert!(!g.has_edge(0, 9));
}

#[test]
fn has_and_remove_edge() {
    let mut g = sample();
    g.add_edge(0, 1);
    assert_eq!(g.neighbors(0), vec![1, 2, 1]);
    assert!(g.has_edge(0, 1));
    g.remove_edge(0, 1);
    assert!(!g.has_edge(0, 1));
    assert_eq!(g.neighbors(0), vec![2]);
    g.remove_edge(9, 1);
    assert_eq!(g.size(), 3);
}

#[test]
fn add_node_empties_a_node() {
    let mut g = sample();
    g.add_node(0);
    assert_eq!(g.order(), 4);
    assert_eq!(g.neighbors(0), Vec::<usize>::new());
}

#[test]
fn undirected_edges_go_both_ways() {
    let mut g: AdjacencyMatrix<u64, u64> = AdjacencyMatrix::new();
    g.add_node(1);
    g.add_node(2);
    g.add_undirected_edge(1, 2);
    assert!(g.has_edge(1, 2));
    assert!(g.has_edge(2, 1));
    assert_eq!(g.undirected_node_degree(1), 1);
    g.remove_undirected_edge(2, 1);
    assert_eq!(g.size(), 0);
    assert!(g.is_directed());
    assert!(!<AdjacencyMatrix<u64, u64> as UndirectedGraph<u64>>::is_directed());
}

#[test]
fn weighted_edges() {
    let mut g: AdjacencyMatrix<usize, usize> = AdjacencyMatrix::new();
    g.add_node(0);
    g.add_node(1);
    g.add_edge(0, 1);
    g.add_weighted_edge(0, 1, 7);
    g.add_weighted_edge(0, 5, 7);
    assert_eq!(g.weighted_neighbors(0), vec![(1, 1), (1, 7)]);
    assert_eq!(g.weighted_neighbors(1), vec![]);
    assert_eq!(g.neighbors(0), vec![1, 1]);
}

#[test]
fn weights_have_a_zero_a_one_and_two_additions() {
    assert_eq!(<usize as Weight>::zero(), 0);
    assert_eq!(<usize as Weight>::one(), 1);
    assert_eq!(Weight::checked_add(&3usize, &4usize), Some(7));
    assert_eq!(Weight::checked_add(&usize::MAX, &1usize), None);
    assert_eq!(Weight::saturating_add(&3usize, &4usize), 7);
    assert_eq!(Weight::saturating_add(&usize::MAX, &1usize), usize::MAX);
    assert_eq!(<u64 as Weight>::zero(), 0);
    assert_eq!(<u64 as Weight>::one(), 1);
    assert_eq!(Weight::checked_add(&3u64, &4u64), Some(7));
    assert_eq!(Weight::checked_add(&u64::MAX, &1u64), None);
    assert_eq!(Weight::saturating_add(&3u64, &4u64), 7);
    assert_eq!(Weight::saturating_add(&u64::MAX, &1u64), u64::MAX);
}
