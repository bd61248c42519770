use graphs_algorithms::{legitimate, mutate, swap_adjacent};

#[test]
fn legitimate_takes_the_first_unvisited_successor() {
    let visited = [true, false, true, false];
    assert_eq!(legitimate(0, &visited, &[0, 2, 3, 1]), 3);
    assert_eq!(legitimate(2, &visited, &[0, 2, 3, 1]), 3);
    assert_eq!(legitimate(3, &visited, &[0, 2, 3, 1]), 1);
}

#[test]
fn legitimate_falls_back_to_the_least_unvisited_node() {
    let visited = [true, false, true, false];
    assert_eq!(legitimate(1, &visited, &[0, 2, 3, 1]), 1);
    assert_eq!(legitimate(3, &visited, &[1, 3, 0, 2]), 1);
    assert_eq!(legitimate(9, &visited, &[1, 3, 0, 2]), 1);
}

#[test]
fn swap_adjacent_exchanges_two_nodes() {
    let mut individual = vec![4, 5, 6, 7];
    swap_adjacent(&mut individual, 1);
    assert_eq!(individual, vec![4, 6, 5, 7]);
}

#[test]
fn mutate_exchanges_one_adjacent_pair() {
    for _ in 0..50 {
        let before = vec![0, 1, 2, 3, 4];
        let mut individual = before.clone();
        mutate(&mut individual);
        let changed: Vec<usize> =
            (0..before.len()).filter(|&i| before[i] != individual[i]).collect();
        assert_eq!(changed.len(), 2);
        assert_eq!(changed[1], changed[0] + 1);
        assert_eq!(individual[changed[0]], before[changed[1]]);
        assert_eq!(individual[changed[1]], before[changed[0]]);
    }
}

#[test]
fn mutate_of_two_nodes_exchanges_them() {
    let mut individual = vec![8, 9];
    mutate(&mut individual);
    assert_eq!(individual, vec![9, 8]);
}
