use graphs_algorithms::{
    biconnected_components, breadth_first, classified_edges, depth_first, AdjacencyMatrix,
    BfsEvent, DfsEvent, Edge, Graph, UndirectedGraph,
};

fn undirected(nodes: usize, edges: &[(usize, usize)]) -> AdjacencyMatrix<usize, usize> {
    let mut g = AdjacencyMatrix::new();
    for n in 0..nodes {
        g.add_node(n);
    }
    for &(n, m) in edges {
        g.add_undirected_edge(n, m);
    }
    g
}

fn directed(nodes: usize, edges: &[(usize, usize)]) -> AdjacencyMatrix<usize, usize> {
    let mut g = AdjacencyMatrix::new();
    for n in 0..nodes {
        g.add_node(n);
    }
    for &(n, m) in edges {
        g.add_edge(n, m);
    }
    g
}

fn dfs_events(g: &AdjacencyMatrix<usize, usize>, start: usize) -> Vec<DfsEvent<usize>> {
    let mut it = depth_first(g, start);
    let mut events = Vec::new();
    while let Some(e) = it.next() {
        events.push(e);
    }
    events
}

fn all_edges(g: &AdjacencyMatrix<usize, usize>, start: usize) -> Vec<Edge<usize>> {
    let mut it = classified_edges(g, start);
    let mut edges = Vec::new();
    while let Some(e) = it.next() {
        edges.push(e);
    }
    edges
}

fn all_components(g: &AdjacencyMatrix<usize, usize>, start: usize) -> Vec<Vec<(usize, usize)>> {
    let mut it = biconnected_components(g, start);
    let mut components = Vec::new();
    while let Some(c) = it.next() {
        components.push(c);
    }
    components
}

#[test]
fn triangle_depth_first() {
    let g = undirected(3, &[(0, 1), (1, 2), (2, 0)]);
    assert_eq!(
        dfs_events(&g, 0),
        vec![
            DfsEvent::Discover(0, None),
            DfsEvent::Discover(1, Some(0)),
            DfsEvent::NonTreeEdge(1, 0),
            DfsEvent::Discover(2, Some(1)),
            DfsEvent::NonTreeEdge(2, 1),
            DfsEvent::NonTreeEdge(2, 0),
            DfsEvent::Finish(2),
            DfsEvent::Finish(1),
            DfsEvent::NonTreeEdge(0, 2),
            DfsEvent::Finish(0),
        ]
    );
}

#[test]
fn triangle_edges() {
    let g = undirected(3, &[(0, 1), (1, 2), (2, 0)]);
    assert_eq!(
        all_edges(&g, 0),
        vec![
            Edge::Tree(0, 1),
            Edge::ParentBack(1, 0),
            Edge::Tree(1, 2),
            Edge::ParentBack(2, 1),
            Edge::Back(2, 0),
            Edge::Forward(0, 2),
        ]
    );
}

#[test]
fn triangle_is_one_component() {
    let g = undirected(3, &[(0, 1), (1, 2), (2, 0)]);
    assert_eq!(all_components(&g, 0), vec![vec![(2, 0), (1, 2), (0, 1)]]);
}

#[test]
fn path_has_two_components() {
    let g = undirected(3, &[(0, 1), (1, 2)]);
    assert_eq!(all_components(&g, 0), vec![vec![(1, 2)], vec![(0, 1)]]);
}

#[test]
fn star_breadth_first() {
    let g = undirected(4, &[(0, 1), (0, 2), (0, 3)]);
    let mut it = breadth_first(&g, 0);
    assert_eq!(it.next(), Some(vec![BfsEvent::Discover(0, vec![1, 2, 3])]));
    assert_eq!(
        it.next(),
        Some(vec![BfsEvent::CrossEdge(1, 0), BfsEvent::Discover(1, vec![])])
    );
    assert_eq!(
        it.next(),
        Some(vec![BfsEvent::CrossEdge(2, 0), BfsEvent::Discover(2, vec![])])
    );
    assert_eq!(
        it.next(),
        Some(vec![BfsEvent::CrossEdge(3, 0), BfsEvent::Discover(3, vec![])])
    );
    assert_eq!(it.next(), None);
    assert_eq!(it.next(), None);
}

#[test]
fn star_has_three_singleton_components() {
    let g = undirected(4, &[(0, 1), (0, 2), (0, 3)]);
    assert_eq!(
        all_components(&g, 0),
        vec![vec![(0, 1)], vec![(0, 2)], vec![(0, 3)]]
    );
}

#[test]
fn absent_start_is_an_isolated_node() {
    let g = undirected(2, &[(0, 1)]);
    assert_eq!(
        dfs_events(&g, 9),
        vec![DfsEvent::Discover(9, None), DfsEvent::Finish(9)]
    );
    assert_eq!(all_edges(&g, 9), vec![]);
    assert_eq!(all_components(&g, 9), Vec::<Vec<(usize, usize)>>::new());
    let mut it = breadth_first(&g, 9);
    assert_eq!(it.next(), Some(vec![BfsEvent::Discover(9, vec![])]));
    assert_eq!(it.next(), None);
}

#[test]
fn single_edge_is_one_component() {
    let g = undirected(2, &[(0, 1)]);
    assert_eq!(all_components(&g, 0), vec![vec![(0, 1)]]);
}

#[test]
fn discoveries_match_reachable_nodes_and_finishes() {
    // 0 -> 1 -> 2 -> 0, 2 -> 3; 4 -> 0 is not reachable from 0.
    let g = directed(5, &[(0, 1), (1, 2), (2, 0), (2, 3), (4, 0)]);
    let events = dfs_events(&g, 0);
    let mut discovered = Vec::new();
    let mut finished = Vec::new();
    for e in &events {
        match e {
            DfsEvent::Discover(n, _) => {
                assert!(!discovered.contains(n));
                discovered.push(*n);
            }
            DfsEvent::Finish(n) => {
                assert!(discovered.contains(n));
                assert!(!finished.contains(n));
                finished.push(*n);
            }
            DfsEvent::NonTreeEdge(_, _) => {}
        }
    }
    discovered.sort();
    finished.sort();
    assert_eq!(discovered, vec![0, 1, 2, 3]);
    assert_eq!(finished, vec![0, 1, 2, 3]);
}

#[test]
fn new_start_walks_a_forest_without_rediscovery() {
    let g = undirected(5, &[(0, 1), (2, 3)]);
    let mut it = depth_first(&g, 0);
    let mut discovered = Vec::new();
    for start in [2, 1, 4] {
        while let Some(e) = it.next() {
            if let DfsEvent::Discover(n, _) = e {
                discovered.push(n);
            }
        }
        it.new_start(start);
    }
    while let Some(e) = it.next() {
        if let DfsEvent::Discover(n, _) = e {
            discovered.push(n);
        }
    }
    assert_eq!(discovered, vec![0, 1, 2, 3, 4]);
}

#[test]
fn tree_edges_are_one_less_than_reachable_nodes() {
    let g = undirected(6, &[(0, 1), (1, 2), (2, 0), (2, 3), (3, 4)]);
    let edges = all_edges(&g, 0);
    let trees = edges.iter().filter(|e| matches!(e, Edge::Tree(_, _))).count();
    assert_eq!(trees, 5 - 1);
}

#[test]
fn forward_and_cross_edges() {
    // 0 -> 1 -> 2, 0 -> 2 is forward; 0 -> 3 -> 2 makes 3 -> 2 a cross edge.
    let g = directed(4, &[(0, 1), (1, 2), (0, 2), (0, 3), (3, 2)]);
    assert_eq!(
        all_edges(&g, 0),
        vec![
            Edge::Tree(0, 1),
            Edge::Tree(1, 2),
            Edge::Forward(0, 2),
            Edge::Tree(0, 3),
            Edge::Cross(3, 2),
        ]
    );
}

#[test]
fn classifier_new_start_keeps_its_records() {
    let g = directed(3, &[(0, 1), (2, 1)]);
    let mut it = classified_edges(&g, 0);
    assert_eq!(it.next(), Some(Edge::Tree(0, 1)));
    assert_eq!(it.next(), None);
    it.new_start(2);
    assert_eq!(it.next(), Some(Edge::Cross(2, 1)));
    assert_eq!(it.next(), None);
}

#[test]
fn breadth_first_is_deterministic_and_layered() {
    let g = undirected(6, &[(0, 1), (0, 2), (1, 3), (2, 3), (3, 4), (4, 5)]);
    let order = |g: &AdjacencyMatrix<usize, usize>| {
        let mut it = breadth_first(g, 0);
        let mut seen = Vec::new();
        while let Some(batch) = it.next() {
            for e in batch {
                if let BfsEvent::Discover(n, _) = e {
                    seen.push(n);
                }
            }
        }
        seen
    };
    assert_eq!(order(&g), vec![0, 1, 2, 3, 4, 5]);
    assert_eq!(order(&g), order(&g));
}

#[test]
fn two_cycles_joined_at_a_node() {
    // Two triangles that share the node 2: 2 is an articulation point.
    let g = undirected(5, &[(0, 1), (1, 2), (2, 0), (2, 3), (3, 4), (4, 2)]);
    let components = all_components(&g, 0);
    assert_eq!(components.len(), 2);
    assert_eq!(components[0], vec![(4, 2), (3, 4), (2, 3)]);
    assert_eq!(components[1], vec![(2, 0), (1, 2), (0, 1)]);
}

#[test]
fn every_edge_is_in_exactly_one_component() {
    // A triangle 0-1-2, a square 2-3-4-5 on the node 2, and a tail 5-6.
    let edges = [(0, 1), (1, 2), (2, 0), (2, 3), (3, 4), (4, 5), (5, 2), (5, 6)];
    let g = undirected(7, &edges);
    let components = all_components(&g, 0);
    for &(u, v) in &edges {
        let holders = components
            .iter()
            .filter(|c| c.contains(&(u, v)) || c.contains(&(v, u)))
            .count();
        assert_eq!(holders, 1);
        let times: usize = components
            .iter()
            .map(|c| c.iter().filter(|e| **e == (u, v) || **e == (v, u)).count())
            .sum();
        assert_eq!(times, 1);
    }
    let given: usize = components.iter().map(|c| c.len()).sum();
    assert_eq!(given, edges.len());
}

#[test]
fn a_bridge_is_a_component_of_its_own() {
    // The edges 2-3 and 5-6 are the bridges.
    let edges = [(0, 1), (1, 2), (2, 0), (2, 3), (3, 4), (4, 5), (5, 3), (5, 6)];
    let g = undirected(7, &edges);
    let components = all_components(&g, 0);
    let bridges = [(2, 3), (5, 6)];
    for c in &components {
        for e in c {
            let is_bridge = bridges.contains(e) || bridges.contains(&(e.1, e.0));
            assert_eq!(is_bridge, c.len() == 1);
        }
    }
    assert_eq!(components.iter().filter(|c| c.len() == 1).count(), 2);
    assert_eq!(components.len(), 4);
}

#[test]
fn back_edges_lead_to_ancestors_and_forward_edges_to_later_nodes() {
    let g = directed(
        6,
        &[(0, 1), (1, 2), (2, 0), (2, 3), (3, 1), (0, 3), (3, 4), (4, 4), (0, 5), (5, 4)],
    );
    let mut parent = std::collections::HashMap::new();
    let mut order = Vec::new();
    let is_ancestor = |parent: &std::collections::HashMap<usize, usize>, v: usize, u: usize| {
        let mut at = u;
        loop {
            if at == v {
                return true;
            }
            match parent.get(&at) {
                Some(p) => at = *p,
                None => return false,
            }
        }
    };
    let mut seen = vec![0];
    for e in all_edges(&g, 0) {
        match e {
            Edge::Tree(u, v) => {
                parent.insert(v, u);
                seen.push(v);
                order.push(v);
            }
            Edge::Back(u, v) | Edge::ParentBack(u, v) => {
                assert!(is_ancestor(&parent, v, u));
            }
            Edge::Forward(u, v) => {
                let at = |n: usize| seen.iter().position(|x| *x == n).unwrap();
                assert!(at(u) < at(v));
            }
            Edge::Cross(_, v) => {
                assert!(seen.contains(&v));
            }
        }
    }
    assert_eq!(order, vec![1, 2, 3, 4, 5]);
}

#[test]
fn breadth_first_takes_nearer_nodes_first() {
    // Distances from 0: 1 and 2 at one edge, 3 and 4 at two, 5 at three.
    let g = undirected(6, &[(0, 2), (0, 1), (2, 4), (1, 3), (3, 4), (4, 5), (3, 5)]);
    let distance = [0, 1, 1, 2, 2, 3];
    let mut it = breadth_first(&g, 0);
    let mut last = 0;
    let mut taken = 0;
    while let Some(batch) = it.next() {
        for e in batch {
            if let BfsEvent::Discover(n, _) = e {
                assert!(last <= distance[n]);
                last = distance[n];
                taken += 1;
            }
        }
    }
    assert_eq!(taken, 6);
}

#[test]
fn tree_edges_of_a_forest_are_the_nodes_less_the_roots() {
    let g = undirected(7, &[(0, 1), (1, 2), (3, 4), (4, 5), (5, 3)]);
    let mut it = classified_edges(&g, 0);
    let mut trees = 0;
    for start in [3, 1, 6] {
        while let Some(e) = it.next() {
            if matches!(e, Edge::Tree(_, _)) {
                trees += 1;
            }
        }
        it.new_start(start);
    }
    while let Some(e) = it.next() {
        if matches!(e, Edge::Tree(_, _)) {
            trees += 1;
        }
    }
    // Seven nodes are reached; the roots used are 0, 3 and 6, not 1.
    assert_eq!(trees, 7 - 3);
}

#[test]
fn depth_first_follows_directed_edges_only() {
    let g = directed(3, &[(1, 0), (1, 2)]);
    assert_eq!(
        dfs_events(&g, 0),
        vec![DfsEvent::Discover(0, None), DfsEvent::Finish(0)]
    );
}
