use graphs_algorithms::heuristics::{nearest_insertion, nearest_neighbour, MAX};

#[test]
fn test_1() {
    let graph = vec![
        vec![MAX, 1, 2, 4, 3],
        vec![1, MAX, 7, 2, 5],
        vec![2, 7, MAX, 8, 1],
        vec![4, 2, 8, MAX, 6],
        vec![3, 5, 1, 6, MAX],
    ];

    let (path, cost) = nearest_neighbour(graph, 0);

    assert_eq!(cost, 12);
    assert_eq!(path[0], 0);
    assert_eq!(path.last(), Some(2).as_ref());
}

#[test]
fn test_2() {
    let graph = vec![
        vec![MAX, 1, 3, 6],
        vec![1, MAX, 2, 3],
        vec![3, 2, MAX, 1],
        vec![6, 3, 1, MAX],
    ];

    let (path, cost) = nearest_neighbour(graph, 0);

    assert_eq!(cost, 10);
    assert_eq!(path[0], 0);
    assert_eq!(path.last(), Some(3).as_ref());
}

#[test]
fn test_3() {
    let graph = vec![
        vec![MAX, 1, 3, 1000],
        vec![1, MAX, 2, 3],
        vec![3, 2, MAX, 1],
        vec![1000, 3, 1, MAX],
    ];

    let (path, cost) = nearest_neighbour(graph, 0);

    assert_eq!(cost, 1004);
    assert_eq!(path[0], 0);
    assert_eq!(path.last(), Some(3).as_ref());
}

fn calc_cost(graph: &Vec<Vec<usize>>, path: &Vec<usize>) -> usize {
    let mut cost = 0;
    for i in 0..path.len() - 1 {
        cost += graph[path[i]][path[i + 1]];
    }
    cost
}

fn is_valid_cycle(path: &Vec<usize>, n: usize) -> bool {
    if path.len() != n + 1 {
        return false;
    }
    if path.first() != path.last() {
        return false;
    }
    let mut visited = vec![false; n];
    for &v in path.iter().take(path.len() - 1) {
        if v >= n || visited[v] {
            return false;
        }
        visited[v] = true;
    }

    true
}

#[test]
fn test_tsp_1() {
    let graph = vec![
        vec![usize::MAX, 10, 15, 20],
        vec![10, usize::MAX, 35, 25],
        vec![15, 35, usize::MAX, 30],
        vec![20, 25, 30, usize::MAX],
    ];

    let path = nearest_insertion(&graph, 0);
    let cost = calc_cost(&graph, &path);

    assert!(is_valid_cycle(&path, graph.len()));
    assert!(cost > 0);
}

#[test]
fn test_tsp_2() {
    let graph = vec![
        vec![usize::MAX, 2, 9, 10, 7],
        vec![2, usize::MAX, 6, 4, 3],
        vec![9, 6, usize::MAX, 8, 5],
        vec![10, 4, 8, usize::MAX, 6],
        vec![7, 3, 5, 6, usize::MAX],
    ];

    let path = nearest_insertion(&graph, 0);
    let cost = calc_cost(&graph, &path);

    assert!(is_valid_cycle(&path, graph.len()));
    assert!(cost > 0);
}

#[test]
fn test_tsp_3() {
    let graph = vec![
        vec![usize::MAX, 1, 50, 100, 1],
        vec![1, usize::MAX, 1, 50, 100],
        vec![50, 1, usize::MAX, 1, 50],
        vec![100, 50, 1, usize::MAX, 1],
        vec![1, 100, 50, 1, usize::MAX],
    ];

    let path = nearest_insertion(&graph, 0);
    let cost = calc_cost(&graph, &path);

    assert!(is_valid_cycle(&path, graph.len()));
    assert!(cost > 0);
}

#[test]
fn nearest_neighbour_path_is_exact() {
    let graph = vec![
        vec![MAX, 1, 2, 4, 3],
        vec![1, MAX, 7, 2, 5],
        vec![2, 7, MAX, 8, 1],
        vec![4, 2, 8, MAX, 6],
        vec![3, 5, 1, 6, MAX],
    ];
    let (path, cost) = nearest_neighbour(graph, 0);
    assert_eq!(path, vec![0, 1, 3, 4, 2]);
    assert_eq!(cost, 1 + 2 + 6 + 1 + 2);
}

#[test]
fn nearest_neighbour_ties_go_to_the_least_node() {
    let graph = vec![vec![MAX, 5, 5], vec![5, MAX, 5], vec![5, 5, MAX]];
    let (path, cost) = nearest_neighbour(graph, 1);
    assert_eq!(path, vec![1, 0, 2]);
    assert_eq!(cost, 15);
}

#[test]
fn nearest_neighbour_single_node() {
    let graph = vec![vec![7]];
    let (path, cost) = nearest_neighbour(graph, 0);
    assert_eq!(path, vec![0]);
    assert_eq!(cost, 7);
}

#[test]
fn nearest_insertion_cycle_is_exact() {
    let graph = vec![
        vec![MAX, 10, 15, 20],
        vec![10, MAX, 35, 25],
        vec![15, 35, MAX, 30],
        vec![20, 25, 30, MAX],
    ];
    // 1 is nearest to 0; then 2 (distance 15) joins between 0 and 1, at the
    // first of two places of cost 40; then 3 (distance 20) joins between 2
    // and 1, where it adds 30 + 25 - 35 = 20.
    let cycle = nearest_insertion(&graph, 0);
    assert_eq!(cycle, vec![0, 2, 3, 1, 0]);
}

#[test]
fn nearest_insertion_two_nodes() {
    let graph = vec![vec![MAX, 3], vec![4, MAX]];
    assert_eq!(nearest_insertion(&graph, 1), vec![1, 0, 1]);
}
